//! The bounded store behind the registry: an LRU cache from the `lru` crate,
//! seen by the verifier through a mathematical model of what it holds.
//!
//! Everything stated here about the cache is taken on trust from the `lru`
//! crate; the lemmas at the end are proved.
use vstd::prelude::*;
use lru::LruCache;
use crate::node::{Id, Node};

verus! {

#[verifier::external_type_specification]
#[verifier::external_body]
#[verifier::reject_recursive_types(K)]
#[verifier::reject_recursive_types(V)]
#[verifier::reject_recursive_types(S)]
pub struct ExLruCache<K, V, S>(LruCache<K, V, S>);

#[verifier::external_type_specification]
#[verifier::external_body]
pub struct ExCacheHasher(lru::DefaultHasher);

/// The key/value pairs a cache holds, from the most recently used to the
/// least recently used.
pub uninterp spec fn cache_entries(cache: LruCache<Id, Node>) -> Seq<(Id, Node)>;

/// The number of pairs a cache was built to hold.
pub uninterp spec fn cache_limit(cache: LruCache<Id, Node>) -> nat;

/// Whether some pair of `entries` is filed under `key`.
pub open spec fn has_key(entries: Seq<(Id, Node)>, key: Id) -> bool {
    exists|i: int| 0 <= i < entries.len() && (#[trigger] entries[i]).0 == key
}

/// Position of a pair filed under `key`; meaningful when `has_key` holds.
pub open spec fn index_of(entries: Seq<(Id, Node)>, key: Id) -> int {
    choose|i: int| 0 <= i < entries.len() && (#[trigger] entries[i]).0 == key
}

/// The node filed under `key`; meaningful when `has_key` holds.
pub open spec fn node_of(entries: Seq<(Id, Node)>, key: Id) -> Node {
    entries[index_of(entries, key)].1
}

/// The keys of `entries`, in order.
pub open spec fn keys_of(entries: Seq<(Id, Node)>) -> Seq<Id> {
    Seq::new(entries.len(), |i: int| entries[i].0)
}

/// No key occurs twice.
pub open spec fn distinct_keys(entries: Seq<(Id, Node)>) -> bool {
    forall|i: int, j: int|
        0 <= i < entries.len() && 0 <= j < entries.len() && i != j ==> (#[trigger] entries[i]).0
            != (#[trigger] entries[j]).0
}

/// `entries` after the pair at `at` became the most recently used one, now
/// holding `node`.
pub open spec fn promoted(entries: Seq<(Id, Node)>, at: int, node: Node) -> Seq<(Id, Node)> {
    seq![(entries[at].0, node)] + entries.remove(at)
}

/// `entries` without the pair filed under `key`, if there is one.
pub open spec fn without(entries: Seq<(Id, Node)>, key: Id) -> Seq<(Id, Node)> {
    if has_key(entries, key) {
        entries.remove(index_of(entries, key))
    } else {
        entries
    }
}

/// Calls `LruCache::new`: the cache starts empty and remembers its limit.
#[verifier::external_body]
pub(crate) fn cache_new(limit: usize) -> (cache: LruCache<Id, Node>)
    ensures
        cache_entries(cache) == Seq::<(Id, Node)>::empty(),
        cache_limit(cache) == limit,
{
    LruCache::new(limit)
}

/// Calls `LruCache::len`: the number of pairs held.
#[verifier::external_body]
pub(crate) fn cache_len(cache: &LruCache<Id, Node>) -> (len: usize)
    ensures
        len == cache_entries(*cache).len(),
{
    cache.len()
}

/// Calls `LruCache::cap`: the limit the cache was built with.
#[verifier::external_body]
pub(crate) fn cache_cap(cache: &LruCache<Id, Node>) -> (limit: usize)
    ensures
        limit == cache_limit(*cache),
{
    cache.cap()
}

/// Calls `LruCache::contains`: whether the key is held. The order of use is
/// not touched.
#[verifier::external_body]
pub(crate) fn cache_contains(cache: &LruCache<Id, Node>, key: &Id) -> (found: bool)
    ensures
        found == has_key(cache_entries(*cache), *key),
{
    cache.contains(key)
}

/// Calls `LruCache::peek`: the node filed under the key, if any. The order
/// of use is not touched.
#[verifier::external_body]
pub(crate) fn cache_peek<'a>(cache: &'a LruCache<Id, Node>, key: &Id) -> (found: Option<&'a Node>)
    ensures
        match found {
            Some(node) => has_key(cache_entries(*cache), *key) && *node == node_of(
                cache_entries(*cache),
                *key,
            ),
            None => !has_key(cache_entries(*cache), *key),
        },
{
    cache.peek(key)
}

/// Calls `LruCache::peek_mut`: mutable access to the node filed under the
/// key, if any. The pair keeps its place in the order of use; whatever the
/// caller writes through the reference is what the cache then holds there.
#[verifier::external_body]
pub(crate) fn cache_peek_mut<'a>(cache: &'a mut LruCache<Id, Node>, key: &Id) -> (found: Option<
    &'a mut Node,
>)
    ensures
        match found {
            Some(node) => has_key(cache_entries(*old(cache)), *key) && *node == node_of(
                cache_entries(*old(cache)),
                *key,
            ) && cache_entries(*final(cache)) == cache_entries(*old(cache)).update(
                index_of(cache_entries(*old(cache)), *key),
                (*key, *final(node)),
            ),
            None => !has_key(cache_entries(*old(cache)), *key) && cache_entries(*final(cache))
                == cache_entries(*old(cache)),
        },
        cache_limit(*final(cache)) == cache_limit(*old(cache)),
{
    cache.peek_mut(key)
}

/// Calls `LruCache::get`: the node filed under the key, if any; a pair that
/// is found becomes the most recently used one.
#[verifier::external_body]
pub(crate) fn cache_get<'a>(cache: &'a mut LruCache<Id, Node>, key: &Id) -> (found: Option<
    &'a Node,
>)
    ensures
        match found {
            Some(node) => has_key(cache_entries(*old(cache)), *key) && *node == node_of(
                cache_entries(*old(cache)),
                *key,
            ) && cache_entries(*final(cache)) == promoted(
                cache_entries(*old(cache)),
                index_of(cache_entries(*old(cache)), *key),
                *node,
            ),
            None => !has_key(cache_entries(*old(cache)), *key) && cache_entries(*final(cache))
                == cache_entries(*old(cache)),
        },
        cache_limit(*final(cache)) == cache_limit(*old(cache)),
{
    cache.get(key)
}

/// Calls `LruCache::get_mut`: mutable access to the node filed under the
/// key, if any; a pair that is found becomes the most recently used one and
/// holds whatever the caller writes through the reference.
#[verifier::external_body]
pub(crate) fn cache_get_mut<'a>(cache: &'a mut LruCache<Id, Node>, key: &Id) -> (found: Option<
    &'a mut Node,
>)
    ensures
        match found {
            Some(node) => has_key(cache_entries(*old(cache)), *key) && *node == node_of(
                cache_entries(*old(cache)),
                *key,
            ) && cache_entries(*final(cache)) == promoted(
                cache_entries(*old(cache)),
                index_of(cache_entries(*old(cache)), *key),
                *final(node),
            ),
            None => !has_key(cache_entries(*old(cache)), *key) && cache_entries(*final(cache))
                == cache_entries(*old(cache)),
        },
        cache_limit(*final(cache)) == cache_limit(*old(cache)),
{
    cache.get_mut(key)
}

/// Calls `LruCache::put`. A key already held gets the new node, becomes the
/// most recently used, and its former node is returned. A new key enters as
/// the most recently used; if the cache is full, the least recently used
/// pair makes room for it; a cache with limit zero takes nothing.
#[verifier::external_body]
pub(crate) fn cache_put(cache: &mut LruCache<Id, Node>, key: Id, node: Node) -> (former: Option<
    Node,
>)
    ensures
        has_key(cache_entries(*old(cache)), key) ==> former == Some(
            node_of(cache_entries(*old(cache)), key),
        ) && cache_entries(*final(cache)) == promoted(
            cache_entries(*old(cache)),
            index_of(cache_entries(*old(cache)), key),
            node,
        ),
        !has_key(cache_entries(*old(cache)), key) ==> former is None && cache_entries(
            *final(cache),
        ) == (if cache_limit(*old(cache)) == 0 {
            cache_entries(*old(cache))
        } else if cache_entries(*old(cache)).len() == cache_limit(*old(cache)) {
            seq![(key, node)] + cache_entries(*old(cache)).drop_last()
        } else {
            seq![(key, node)] + cache_entries(*old(cache))
        }),
        cache_limit(*final(cache)) == cache_limit(*old(cache)),
{
    cache.put(key, node)
}

/// Calls `LruCache::pop`: removes the pair filed under the key and returns
/// its node, if there is one; the others keep their order.
#[verifier::external_body]
pub(crate) fn cache_pop(cache: &mut LruCache<Id, Node>, key: &Id) -> (removed: Option<Node>)
    ensures
        match removed {
            Some(node) => has_key(cache_entries(*old(cache)), *key) && node == node_of(
                cache_entries(*old(cache)),
                *key,
            ),
            None => !has_key(cache_entries(*old(cache)), *key),
        },
        cache_entries(*final(cache)) == without(cache_entries(*old(cache)), *key),
        cache_limit(*final(cache)) == cache_limit(*old(cache)),
{
    cache.pop(key)
}

/// Calls `LruCache::pop_lru`: removes and returns the least recently used
/// pair, if the cache holds any.
#[verifier::external_body]
pub(crate) fn cache_pop_lru(cache: &mut LruCache<Id, Node>) -> (removed: Option<(Id, Node)>)
    ensures
        match removed {
            Some(pair) => cache_entries(*old(cache)).len() > 0 && pair == cache_entries(
                *old(cache),
            ).last() && cache_entries(*final(cache)) == cache_entries(*old(cache)).drop_last(),
            None => cache_entries(*old(cache)).len() == 0 && cache_entries(*final(cache))
                == cache_entries(*old(cache)),
        },
        cache_limit(*final(cache)) == cache_limit(*old(cache)),
{
    cache.pop_lru()
}

/// Walks `LruCache::iter` and copies out the keys: all keys held, from the
/// most recently used to the least recently used.
#[verifier::external_body]
pub(crate) fn cache_keys(cache: &LruCache<Id, Node>) -> (keys: Vec<Id>)
    ensures
        keys@ == keys_of(cache_entries(*cache)),
{
    cache.iter().map(|(key, _)| *key).collect()
}

/// With distinct keys, the pair filed under a key is found at one position
/// only.
pub proof fn lemma_index_of_unique(entries: Seq<(Id, Node)>, at: int)
    requires
        distinct_keys(entries),
        0 <= at < entries.len(),
    ensures
        has_key(entries, entries[at].0),
        index_of(entries, entries[at].0) == at,
        node_of(entries, entries[at].0) == entries[at].1,
{
    let key = entries[at].0;
    assert(has_key(entries, key));
    let found = index_of(entries, key);
    assert(entries[found].0 == key);
}

/// A key that is held sits at `index_of`.
pub proof fn lemma_index_of_held(entries: Seq<(Id, Node)>, key: Id)
    requires
        has_key(entries, key),
    ensures
        0 <= index_of(entries, key) < entries.len(),
        entries[index_of(entries, key)].0 == key,
{
}

/// Taking one pair out of a store with distinct keys: its key is gone, every
/// other key is held as before, with the node it had.
pub proof fn lemma_remove(entries: Seq<(Id, Node)>, at: int)
    requires
        distinct_keys(entries),
        0 <= at < entries.len(),
    ensures
        distinct_keys(entries.remove(at)),
        !has_key(entries.remove(at), entries[at].0),
        forall|key: Id|
            key != entries[at].0 ==> (#[trigger] has_key(entries.remove(at), key) <==> has_key(
                entries,
                key,
            )),
        forall|key: Id|
            key != entries[at].0 && has_key(entries, key) ==> #[trigger] node_of(
                entries.remove(at),
                key,
            ) == node_of(entries, key),
{
    let rest = entries.remove(at);
    assert forall|i: int| 0 <= i < rest.len() implies #[trigger] rest[i] == entries[if i < at {
        i
    } else {
        i + 1
    }] by {}
    assert forall|key: Id| key != entries[at].0 && has_key(entries, key) implies has_key(rest, key)
        && node_of(rest, key) == node_of(entries, key) by {
        let i = index_of(entries, key);
        lemma_index_of_unique(entries, i);
        let j = if i < at {
            i
        } else {
            i - 1
        };
        assert(rest[j] == entries[i]);
        lemma_index_of_unique(rest, j);
    }
    assert forall|key: Id| has_key(rest, key) implies has_key(entries, key) && key
        != entries[at].0 by {
        let j = index_of(rest, key);
        let i = if j < at {
            j
        } else {
            j + 1
        };
        assert(rest[j] == entries[i]);
    }
}

/// Putting a pair with a new key in front of a store with distinct keys:
/// the new key is held with its node, every other key as before.
pub proof fn lemma_push_front(entries: Seq<(Id, Node)>, key: Id, node: Node)
    requires
        distinct_keys(entries),
        !has_key(entries, key),
    ensures
        distinct_keys(seq![(key, node)] + entries),
        has_key(seq![(key, node)] + entries, key),
        node_of(seq![(key, node)] + entries, key) == node,
        forall|other: Id|
            other != key ==> (#[trigger] has_key(seq![(key, node)] + entries, other) <==> has_key(
                entries,
                other,
            )),
        forall|other: Id|
            other != key && has_key(entries, other) ==> #[trigger] node_of(
                seq![(key, node)] + entries,
                other,
            ) == node_of(entries, other),
{
    let all = seq![(key, node)] + entries;
    assert forall|i: int| 0 < i < all.len() implies #[trigger] all[i] == entries[i - 1] by {}
    assert(all[0] == (key, node));
    assert(distinct_keys(all)) by {
        assert forall|i: int, j: int|
            0 <= i < all.len() && 0 <= j < all.len() && i != j implies (#[trigger] all[i]).0 != (
        #[trigger] all[j]).0 by {
            if i > 0 {
                assert(all[i] == entries[i - 1]);
            }
            if j > 0 {
                assert(all[j] == entries[j - 1]);
            }
        }
    }
    lemma_index_of_unique(all, 0);
    assert forall|other: Id| other != key && has_key(entries, other) implies has_key(all, other)
        && node_of(all, other) == node_of(entries, other) by {
        let i = index_of(entries, other);
        lemma_index_of_unique(entries, i);
        assert(all[i + 1] == entries[i]);
        lemma_index_of_unique(all, i + 1);
    }
    assert forall|other: Id| other != key && has_key(all, other) implies has_key(
        entries,
        other,
    ) by {
        let j = index_of(all, other);
        assert(all[j] == entries[j - 1]);
    }
}

/// Making one pair of a store with distinct keys the most recently used,
/// with a new node: the same keys are held, that key with the new node and
/// every other with the node it had.
pub proof fn lemma_promoted(entries: Seq<(Id, Node)>, at: int, node: Node)
    requires
        distinct_keys(entries),
        0 <= at < entries.len(),
    ensures
        distinct_keys(promoted(entries, at, node)),
        promoted(entries, at, node).len() == entries.len(),
        node_of(promoted(entries, at, node), entries[at].0) == node,
        forall|key: Id| #[trigger]
            has_key(promoted(entries, at, node), key) <==> has_key(entries, key),
        forall|key: Id|
            key != entries[at].0 && has_key(entries, key) ==> #[trigger] node_of(
                promoted(entries, at, node),
                key,
            ) == node_of(entries, key),
{
    lemma_remove(entries, at);
    lemma_push_front(entries.remove(at), entries[at].0, node);
    lemma_index_of_unique(entries, at);
}

/// Replacing the node of one pair of a store with distinct keys: the same
/// keys are held in the same order, that key with the new node and every
/// other with the node it had.
pub proof fn lemma_update(entries: Seq<(Id, Node)>, at: int, node: Node)
    requires
        distinct_keys(entries),
        0 <= at < entries.len(),
    ensures
        distinct_keys(entries.update(at, (entries[at].0, node))),
        keys_of(entries.update(at, (entries[at].0, node))) == keys_of(entries),
        node_of(entries.update(at, (entries[at].0, node)), entries[at].0) == node,
        forall|key: Id| #[trigger]
            has_key(entries.update(at, (entries[at].0, node)), key) <==> has_key(entries, key),
        forall|key: Id|
            key != entries[at].0 && has_key(entries, key) ==> #[trigger] node_of(
                entries.update(at, (entries[at].0, node)),
                key,
            ) == node_of(entries, key),
{
    let changed = entries.update(at, (entries[at].0, node));
    assert(keys_of(changed) =~= keys_of(entries));
    assert forall|i: int| 0 <= i < changed.len() implies (#[trigger] changed[i]).0
        == entries[i].0 by {}
    lemma_index_of_unique(changed, at);
    assert forall|key: Id| has_key(entries, key) implies has_key(changed, key) && (key
        != entries[at].0 ==> node_of(changed, key) == node_of(entries, key)) by {
        let i = index_of(entries, key);
        lemma_index_of_unique(entries, i);
        assert(changed[i].0 == key);
        lemma_index_of_unique(changed, i);
    }
    assert forall|key: Id| has_key(changed, key) implies has_key(entries, key) by {
        let i = index_of(changed, key);
        assert(entries[i].0 == key);
    }
}

} // verus!
