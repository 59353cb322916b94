//! The node registry: every known peer, bounded by least-recently-used
//! eviction and partitioned into available, unreachable and quarantined.
use vstd::prelude::*;
use lru::LruCache;
use std::collections::HashSet;
use vstd::std_specs::hash::spec_hash_keys_iter;
use vstd::std_specs::iter::IteratorSpec;
use crate::cache::{
    cache_cap, cache_contains, cache_entries, cache_get, cache_get_mut, cache_keys, cache_len,
    cache_limit, cache_new, cache_peek, cache_peek_mut, cache_pop, cache_pop_lru, cache_put,
    distinct_keys, has_key, index_of, keys_of, lemma_index_of_held, lemma_index_of_unique,
    lemma_promoted, lemma_remove, node_of, promoted, without,
};
use crate::node::{Id, LogEvent, Node, NodeView};
use crate::policy::{Policy, PolicyReport};
use crate::theorems::pass_without_change;

verus! {

/// All known peers.
///
/// The records live in a bounded cache ordered by use; three sets say, for
/// each tracked peer, whether it is available (reachable and trusted), not
/// publicly reachable, or quarantined.
#[derive(Debug)]
pub struct Nodes {
    all: LruCache<Id, Node>,
    quarantined: HashSet<Id>,
    not_reachable: HashSet<Id>,
    available: HashSet<Id>,
}

/// The four population sizes of a registry at one moment.
#[derive(Clone, Copy, Debug, PartialEq, Eq, Structural)]
pub struct Count {
    pub all_count: usize,
    pub quarantined_count: usize,
    pub not_reachable_count: usize,
    pub available_count: usize,
}

/// The three membership sets of a registry, as mathematical sets.
pub struct Membership {
    pub available: Set<Id>,
    pub not_reachable: Set<Id>,
    pub quarantined: Set<Id>,
}

impl Membership {
    pub open spec fn empty() -> Membership {
        Membership { available: Set::empty(), not_reachable: Set::empty(), quarantined: Set::empty() }
    }

    /// Whether `id` is in any of the three sets.
    pub open spec fn contains(self, id: Id) -> bool {
        self.available.contains(id) || self.not_reachable.contains(id) || self.quarantined.contains(
            id,
        )
    }

    /// No peer is in two sets at once.
    pub open spec fn disjoint(self) -> bool {
        forall|id: Id|
            !(self.available.contains(id) && self.not_reachable.contains(id)) && !(
            self.available.contains(id) && self.quarantined.contains(id)) && !(
            self.not_reachable.contains(id) && self.quarantined.contains(id))
    }

    pub open spec fn finite(self) -> bool {
        self.available.finite() && self.not_reachable.finite() && self.quarantined.finite()
    }

    /// In which of the three sets `id` is: available, not reachable,
    /// quarantined, in this order.
    pub open spec fn status(self, id: Id) -> (bool, bool, bool) {
        (
            self.available.contains(id),
            self.not_reachable.contains(id),
            self.quarantined.contains(id),
        )
    }

    /// `id` filed by reachability: under available when `reachable`, else
    /// under not reachable.
    pub open spec fn admitted(self, id: Id, reachable: bool) -> Membership {
        if reachable {
            Membership { available: self.available.insert(id), ..self }
        } else {
            Membership { not_reachable: self.not_reachable.insert(id), ..self }
        }
    }

    /// `id` taken out of all three sets.
    pub open spec fn without(self, id: Id) -> Membership {
        Membership {
            available: self.available.remove(id),
            not_reachable: self.not_reachable.remove(id),
            quarantined: self.quarantined.remove(id),
        }
    }

    /// The sets after `report` was applied to the peer `id`, which is
    /// `reachable` or not at that moment. Whatever the report, the peer is
    /// in one set at most afterwards: a quarantined peer is in the
    /// quarantined set only, and a reinstated peer is filed by its
    /// reachability and nowhere else.
    pub open spec fn after(self, id: Id, report: PolicyReport, reachable: bool) -> Membership {
        match report {
            PolicyReport::NoChange => self,
            PolicyReport::Forget => self.without(id),
            PolicyReport::Quarantine => Membership {
                available: self.available.remove(id),
                not_reachable: self.not_reachable.remove(id),
                quarantined: self.quarantined.insert(id),
            },
            PolicyReport::LiftQuarantine => self.without(id).admitted(id, reachable),
        }
    }

    /// The sets after the peer `id` was seen to go from `was_reachable` to
    /// `now_reachable`: a peer filed under its former reachability moves to
    /// the other set, any other peer stays.
    pub open spec fn migrated(self, id: Id, was_reachable: bool, now_reachable: bool) -> Membership {
        if was_reachable && !now_reachable && self.available.contains(id) {
            Membership {
                available: self.available.remove(id),
                not_reachable: self.not_reachable.insert(id),
                ..self
            }
        } else if !was_reachable && now_reachable && self.not_reachable.contains(id) {
            Membership {
                available: self.available.insert(id),
                not_reachable: self.not_reachable.remove(id),
                ..self
            }
        } else {
            self
        }
    }
}

/// What `report` adds to a peer's log.
pub open spec fn logged_for(node: NodeView, report: PolicyReport) -> NodeView {
    match report {
        PolicyReport::Quarantine => node.logged(LogEvent::Quarantined),
        PolicyReport::LiftQuarantine => node.logged(LogEvent::QuarantineLifted),
        _ => node,
    }
}

/// The nodes of those `ids` that `entries` holds, in the order of `ids`.
pub open spec fn resolved(entries: Seq<(Id, Node)>, ids: Seq<Id>) -> Seq<Node>
    decreases ids.len(),
{
    if ids.len() == 0 {
        Seq::empty()
    } else if has_key(entries, ids.last()) {
        resolved(entries, ids.drop_last()).push(node_of(entries, ids.last()))
    } else {
        resolved(entries, ids.drop_last())
    }
}

/// `entries` after each of `ids` that is held was used once, in the order of
/// `ids`: every such use makes the pair the most recently used one.
pub open spec fn touched(entries: Seq<(Id, Node)>, ids: Seq<Id>) -> Seq<(Id, Node)>
    decreases ids.len(),
{
    if ids.len() == 0 {
        entries
    } else {
        let earlier = touched(entries, ids.drop_last());
        if has_key(earlier, ids.last()) {
            promoted(earlier, index_of(earlier, ids.last()), node_of(earlier, ids.last()))
        } else {
            earlier
        }
    }
}

/// Two stores hold the same keys with the same nodes, whatever the order.
pub open spec fn same_records(left: Seq<(Id, Node)>, right: Seq<(Id, Node)>) -> bool {
    &&& left.len() == right.len()
    &&& forall|id: Id| #[trigger] has_key(left, id) <==> has_key(right, id)
    &&& forall|id: Id| has_key(left, id) ==> #[trigger] node_of(left, id) == node_of(right, id)
}

/// `nodes` are the records that `entries` holds for the members of `set`:
/// each of them once, and nothing else.
pub open spec fn lists_records(entries: Seq<(Id, Node)>, set: Set<Id>, nodes: Seq<Node>) -> bool {
    &&& forall|i: int|
        0 <= i < nodes.len() ==> {
            let node = #[trigger] nodes[i];
            &&& set.contains(node@.id())
            &&& has_key(entries, node@.id())
            &&& node_of(entries, node@.id()) == node
        }
    &&& forall|i: int, j: int|
        0 <= i < nodes.len() && 0 <= j < nodes.len() && i != j ==> (#[trigger] nodes[i])@.id() != (
        #[trigger] nodes[j])@.id()
    &&& forall|id: Id|
        set.contains(id) && #[trigger] has_key(entries, id) ==> nodes.contains(node_of(entries, id))
}

/// `ids` names every member of `set` once and nothing else.
pub open spec fn is_listing(ids: Seq<Id>, set: Set<Id>) -> bool {
    ids.no_duplicates() && ids.to_set() == set
}

impl Nodes {
    /// The tracked records with their keys, most recently used first.
    pub closed spec fn entries(&self) -> Seq<(Id, Node)> {
        cache_entries(self.all)
    }

    /// The most records the registry holds at once.
    pub closed spec fn capacity(&self) -> nat {
        cache_limit(self.all)
    }

    pub closed spec fn membership(&self) -> Membership {
        Membership {
            available: self.available@,
            not_reachable: self.not_reachable@,
            quarantined: self.quarantined@,
        }
    }

    /// Whether the registry holds a record for `id`.
    pub open spec fn tracks(&self, id: Id) -> bool {
        has_key(self.entries(), id)
    }

    /// The record held for `id`; meaningful when `tracks(id)`.
    pub open spec fn node(&self, id: Id) -> Node {
        node_of(self.entries(), id)
    }

    /// The store is sound: no peer is held twice, every record is filed under
    /// its own identifier, and the budget is positive and respected.
    pub open spec fn wf(&self) -> bool {
        &&& distinct_keys(self.entries())
        &&& forall|i: int|
            0 <= i < self.entries().len() ==> (#[trigger] self.entries()[i]).1@.id()
                == self.entries()[i].0
        &&& 0 < self.capacity()
        &&& self.entries().len() <= self.capacity()
        &&& self.membership().finite()
    }

    /// The three sets partition the tracked peers, and agree with what the
    /// records say: an available peer has an address, a not reachable one has
    /// none.
    pub open spec fn partitioned(&self) -> bool {
        &&& self.membership().disjoint()
        &&& forall|id: Id| self.tracks(id) <==> #[trigger] self.membership().contains(id)
        &&& forall|id: Id| #[trigger]
            self.membership().available.contains(id) ==> self.node(id)@.reachable()
        &&& forall|id: Id| #[trigger]
            self.membership().not_reachable.contains(id) ==> !self.node(id)@.reachable()
    }

    /// An empty registry for at most `cap` peers.
    pub fn with_capacity(cap: usize) -> (nodes: Nodes)
        requires
            cap > 0,
        ensures
            nodes.wf(),
            nodes.partitioned(),
            nodes.entries() == Seq::<(Id, Node)>::empty(),
            nodes.capacity() == cap,
            nodes.membership() == Membership::empty(),
    {
        Nodes {
            all: cache_new(cap),
            quarantined: HashSet::new(),
            not_reachable: HashSet::new(),
            available: HashSet::new(),
        }
    }

    /// The record of `id`, if tracked. Does not count as a use.
    pub fn peek<'a>(&'a self, id: &Id) -> (found: Option<&'a Node>)
        ensures
            match found {
                Some(node) => self.tracks(*id) && *node == self.node(*id),
                None => !self.tracks(*id),
            },
    {
        cache_peek(&self.all, id)
    }

    /// Mutable access to the record of `id`, if tracked. Does not count as a
    /// use, and leaves the three sets alone: a caller that changes the
    /// peer's reachability through it must go through an entry instead.
    pub fn peek_mut<'a>(&'a mut self, id: &Id) -> (found: Option<&'a mut Node>)
        ensures
            match found {
                Some(node) => old(self).tracks(*id) && *node == old(self).node(*id) && final(self).entries() == old(self).entries().update(
                    index_of(old(self).entries(), *id),
                    (*id, *final(node)),
                ),
                None => !old(self).tracks(*id) && final(self).entries() == old(self).entries(),
            },
            final(self).capacity() == old(self).capacity(),
            final(self).membership() == old(self).membership(),
    {
        cache_peek_mut(&mut self.all, id)
    }

    /// The record of `id`, if tracked; a record that is found becomes the
    /// most recently used one.
    pub fn get<'a>(&'a mut self, id: &Id) -> (found: Option<&'a Node>)
        ensures
            match found {
                Some(node) => old(self).tracks(*id) && *node == old(self).node(*id),
                None => !old(self).tracks(*id),
            },
            final(self).entries() == touched(old(self).entries(), seq![*id]),
            final(self).capacity() == old(self).capacity(),
            final(self).membership() == old(self).membership(),
            old(self).wf() ==> final(self).wf() && same_records(
                old(self).entries(),
                final(self).entries(),
            ),
            old(self).wf() && old(self).partitioned() ==> final(self).partitioned(),
    {
        proof {
            let once = seq![*id];
            assert(once.drop_last() == Seq::<Id>::empty());
            assert(once.last() == *id);
            assert(touched(old(self).entries(), once.drop_last()) == old(self).entries());
            if old(self).wf() {
                lemma_touched(old(self).entries(), once);
                if old(self).partitioned() {
                    lemma_same_records_partitioned(
                        *old(self),
                        touched(old(self).entries(), once),
                    );
                }
            }
        }
        cache_get(&mut self.all, id)
    }

    /// Mutable access to the record of `id`, if tracked; a record that is
    /// found becomes the most recently used one.
    pub fn get_mut<'a>(&'a mut self, id: &Id) -> (found: Option<&'a mut Node>)
        ensures
            match found {
                Some(node) => old(self).tracks(*id) && *node == old(self).node(*id) && final(self).entries() == promoted(
                    old(self).entries(),
                    index_of(old(self).entries(), *id),
                    *final(node),
                ),
                None => !old(self).tracks(*id) && final(self).entries() == old(self).entries(),
            },
            final(self).capacity() == old(self).capacity(),
            final(self).membership() == old(self).membership(),
    {
        cache_get_mut(&mut self.all, id)
    }

    /// The peers that are reachable and not quarantined.
    pub fn available_nodes(&self) -> (ids: &HashSet<Id>)
        ensures
            ids@ == self.membership().available,
    {
        &self.available
    }

    /// The peers that are connected to us but cannot be reached from
    /// outside, for instance behind a firewall or a NAT.
    pub fn unreachable_nodes(&self) -> (ids: &HashSet<Id>)
        ensures
            ids@ == self.membership().not_reachable,
    {
        &self.not_reachable
    }

    /// The peers that are excluded from the topology for now.
    pub fn quarantined_nodes(&self) -> (ids: &HashSet<Id>)
        ensures
            ids@ == self.membership().quarantined,
    {
        &self.quarantined
    }

    /// The sizes of the registry and of its three sets.
    pub fn node_count(&self) -> (count: Count)
        ensures
            count.all_count == self.entries().len(),
            count.available_count == self.membership().available.len(),
            count.not_reachable_count == self.membership().not_reachable.len(),
            count.quarantined_count == self.membership().quarantined.len(),
    {
        Count {
            all_count: cache_len(&self.all),
            available_count: self.available.len(),
            not_reachable_count: self.not_reachable.len(),
            quarantined_count: self.quarantined.len(),
        }
    }

    /// Resolves a set of identifiers into the records held for them; an
    /// identifier without a record is skipped. The order is that in which the
    /// set hands out its members.
    fn resolve<'a>(&'a self, ids: &HashSet<Id>) -> (nodes: Vec<&'a Node>)
        ensures
            exists|order: Seq<Id>|
                is_listing(order, ids@) && nodes@.unref() == #[trigger] resolved(
                    self.entries(),
                    order,
                ),
            self.wf() ==> lists_records(self.entries(), ids@, nodes@.unref()),
    {
        let mut nodes: Vec<&'a Node> = Vec::new();
        let ghost order: Seq<Id> = spec_hash_keys_iter(ids).remaining().unref();
        for id in it: ids.iter()
            invariant
                it.seq().unref() == order,
                nodes@.unref() == resolved(self.entries(), order.take(it.index())),
        {
            proof {
                let next = order.take(it.index() + 1);
                assert(next.drop_last() == order.take(it.index()));
                assert(next.last() == *id);
            }
            if let Some(node) = cache_peek(&self.all, id) {
                nodes.push(node);
                assert(nodes@.unref() == resolved(self.entries(), order.take(it.index())).push(
                    *node,
                ));
            }
        }
        proof {
            assert(order.take(order.len() as int) == order);
            if self.wf() {
                lemma_resolved(self.entries(), order);
                let found = resolved(self.entries(), order);
                assert forall|i: int| 0 <= i < found.len() implies ids@.contains(
                    (#[trigger] found[i])@.id(),
                ) by {
                    assert(order.to_set().contains(found[i]@.id()));
                }
                assert forall|id: Id|
                    ids@.contains(id) && #[trigger] has_key(
                        self.entries(),
                        id,
                    ) implies found.contains(node_of(self.entries(), id)) by {
                    assert(order.to_set().contains(id));
                }
            }
        }
        nodes
    }

    /// Lists the records of all available peers: those that are not
    /// quarantined and are publicly reachable.
    ///
    /// This walks the whole set with one lookup per peer; keep it off the
    /// hot paths.
    pub fn all_available_nodes(&self) -> (nodes: Vec<&Node>)
        ensures
            exists|order: Seq<Id>|
                is_listing(order, self.membership().available) && nodes@.unref()
                    == #[trigger] resolved(self.entries(), order),
            self.wf() ==> lists_records(self.entries(), self.membership().available, nodes@.unref()),
    {
        self.resolve(&self.available)
    }

    /// Lists the records of all quarantined peers: those that are not used
    /// in the topology but may become available or be removed soon.
    ///
    /// This walks the whole set with one lookup per peer; keep it off the
    /// hot paths.
    pub fn all_quarantined_nodes(&self) -> (nodes: Vec<&Node>)
        ensures
            exists|order: Seq<Id>|
                is_listing(order, self.membership().quarantined) && nodes@.unref()
                    == #[trigger] resolved(self.entries(), order),
            self.wf() ==> lists_records(self.entries(), self.membership().quarantined, nodes@.unref()),
    {
        self.resolve(&self.quarantined)
    }

    /// Lists the records of all peers that are not publicly reachable: they
    /// are connected to us directly and are not gossiped about.
    ///
    /// This walks the whole set with one lookup per peer; keep it off the
    /// hot paths.
    pub fn all_unreachable_nodes(&self) -> (nodes: Vec<&Node>)
        ensures
            exists|order: Seq<Id>|
                is_listing(order, self.membership().not_reachable) && nodes@.unref()
                    == #[trigger] resolved(self.entries(), order),
            self.wf() ==> lists_records(self.entries(), self.membership().not_reachable, nodes@.unref()),
    {
        self.resolve(&self.not_reachable)
    }

    /// Files a record that is not tracked yet. Its address decides whether
    /// it joins the available or the not reachable peers. When the registry
    /// is full, the least recently used record is dropped first, from the
    /// store and from whichever set held it.
    fn insert(&mut self, node: Node) -> (former: Option<Node>)
        requires
            old(self).wf(),
            !old(self).tracks(node@.id()),
        ensures
            former is None,
            final(self).wf(),
            final(self).capacity() == old(self).capacity(),
            final(self).entries() == seq![(node@.id(), node)] + old(self).kept_on_insert(),
            final(self).membership() == old(self).membership_on_insert(
                node@.id(),
                node@.reachable(),
            ),
            final(self).tracks(node@.id()),
            final(self).node(node@.id()) == node,
            old(self).partitioned() ==> final(self).partitioned(),
            old(self).partitioned() ==> final(self).membership().status(node@.id()) == (
                node@.reachable(),
                !node@.reachable(),
                false,
            ),
    {
        let id = *node.id();
        if node.address().is_some() {
            self.available.insert(id);
        } else {
            self.not_reachable.insert(id);
        }
        let ghost admitted = self.membership();

        // `put` would evict by itself without telling which record left, so
        // make room first and strip the sets of what is dropped.
        while cache_len(&self.all) >= cache_cap(&self.all)
            invariant
                old(self).wf(),
                !old(self).tracks(id),
                admitted == old(self).membership().admitted(id, node@.reachable()),
                self.capacity() == old(self).capacity(),
                self.membership().finite(),
                self.entries() == old(self).entries() && self.membership() == admitted
                    || self.entries() == old(self).kept_on_insert() && self.entries().len()
                    < self.capacity() && self.membership() == old(self).membership_on_insert(
                    id,
                    node@.reachable(),
                ),
            decreases self.entries().len(),
        {
            if let Some((k, _)) = cache_pop_lru(&mut self.all) {
                self.available.remove(&k);
                self.quarantined.remove(&k);
                self.not_reachable.remove(&k);
                proof {
                    assert(old(self).entries().last().0 != id);
                }
            }
        }
        proof {
            old(self).lemma_insert_keeps_order(node);
        }
        let former = cache_put(&mut self.all, id, node);
        proof {
            crate::cache::lemma_push_front(old(self).kept_on_insert(), id, node);
            if old(self).partitioned() {
                old(self).lemma_insert_partitioned(self, node);
                assert(!old(self).membership().contains(id));
            }
        }
        former
    }
}

impl Nodes {
    /// The records that stay when one more is filed: all of them, or all
    /// but the least recently used when the registry is full.
    pub open spec fn kept_on_insert(&self) -> Seq<(Id, Node)> {
        if self.entries().len() >= self.capacity() {
            self.entries().drop_last()
        } else {
            self.entries()
        }
    }

    /// The sets after `id` was filed by reachability and, when the registry
    /// was full, the least recently used peer was dropped.
    pub open spec fn membership_on_insert(&self, id: Id, reachable: bool) -> Membership {
        if self.entries().len() >= self.capacity() {
            self.membership().admitted(id, reachable).without(self.entries().last().0)
        } else {
            self.membership().admitted(id, reachable)
        }
    }

    proof fn lemma_insert_partitioned(&self, after: &Nodes, node: Node)
        requires
            self.wf(),
            self.partitioned(),
            !self.tracks(node@.id()),
            after.entries() == seq![(node@.id(), node)] + self.kept_on_insert(),
            after.membership() == self.membership_on_insert(node@.id(), node@.reachable()),
        ensures
            after.partitioned(),
    {
        let id = node@.id();
        let before = self.entries();
        let kept = self.kept_on_insert();
        let now = after.entries();
        let full = before.len() >= self.capacity();
        self.lemma_insert_keeps_order(node);
        assert(!self.membership().contains(id));
        if full {
            lemma_index_of_unique(before, before.len() - 1);
            assert(self.membership().contains(before.last().0));
        }
        // A peer tracked afterwards is the new one or one that was kept.
        assert forall|x: Id| after.tracks(x) implies (x == id && after.node(x) == node) || (x != id
            && self.tracks(x) && after.node(x) == self.node(x) && !(full && x
            == before.last().0)) by {
            lemma_index_of_held(now, x);
            let at = index_of(now, x);
            lemma_index_of_unique(now, at);
            if at > 0 {
                assert(now[at] == before[at - 1]);
                lemma_index_of_unique(before, at - 1);
            }
        }
        // A peer that was kept is tracked afterwards.
        assert forall|x: Id| self.tracks(x) && !(full && x == before.last().0) implies after.tracks(
            x,
        ) by {
            lemma_index_of_held(before, x);
            let at = index_of(before, x);
            assert(now[at + 1] == before[at]);
        }
        assert(now[0].0 == id);
        assert(after.tracks(id));
        let m0 = self.membership();
        let m1 = after.membership();
        let reachable = node@.reachable();
        assert(m1 == if full {
            m0.admitted(id, reachable).without(before.last().0)
        } else {
            m0.admitted(id, reachable)
        });
        assert(m1.contains(id));
        assert forall|x: Id| after.tracks(x) <==> #[trigger] m1.contains(x) by {
            if x != id {
                assert(m0.contains(x) <==> self.tracks(x));
                if after.tracks(x) {
                    assert(self.tracks(x) && !(full && x == before.last().0));
                    assert(m1.contains(x));
                }
                if m1.contains(x) {
                    assert(m0.contains(x));
                    assert(!(full && x == before.last().0));
                    assert(after.tracks(x));
                }
            }
        }
        assert(m1.disjoint()) by {
            assert(m0.disjoint());
        }
        assert forall|x: Id| #[trigger] m1.available.contains(x) implies after.node(x)@.reachable() by {
            assert(m1.contains(x));
            assert(after.tracks(x));
            if x != id {
                assert(m0.available.contains(x));
            }
        }
        assert forall|x: Id| #[trigger] m1.not_reachable.contains(x) implies !after.node(
            x,
        )@.reachable() by {
            assert(m1.contains(x));
            assert(after.tracks(x));
            if x != id {
                assert(m0.not_reachable.contains(x));
            }
        }
    }

    proof fn lemma_insert_keeps_order(&self, node: Node)
        requires
            self.wf(),
            !self.tracks(node@.id()),
        ensures
            distinct_keys(seq![(node@.id(), node)] + self.kept_on_insert()),
            !has_key(self.kept_on_insert(), node@.id()),
    {
        let kept = self.kept_on_insert();
        let all = seq![(node@.id(), node)] + kept;
        assert forall|i: int| 0 <= i < kept.len() implies (#[trigger] kept[i]).0 != node@.id() by {
            assert(kept[i] == self.entries()[i]);
        }
        assert forall|i: int, j: int|
            0 <= i < all.len() && 0 <= j < all.len() && i != j implies (#[trigger] all[i]).0 != (
        #[trigger] all[j]).0 by {
            if i > 0 {
                assert(all[i] == self.entries()[i - 1]);
            }
            if j > 0 {
                assert(all[j] == self.entries()[j - 1]);
            }
        }
    }
}

/// Applies `report` to one peer: moves its identifier between the three sets
/// as the report asks and notes a quarantine, or its end, in the peer's log.
/// A reinstated peer is filed as available or as not reachable by the
/// address it has now, and leaves whichever other set held it, so that it is
/// in one set only even if its reachability changed since it was last filed.
/// A forgotten peer leaves all three sets; taking its record out of the store
/// is left to the caller.
pub fn apply_report(
    available: &mut HashSet<Id>,
    not_reachable: &mut HashSet<Id>,
    quarantined: &mut HashSet<Id>,
    id: &Id,
    node: &mut Node,
    report: PolicyReport,
)
    ensures
        (Membership {
            available: final(available)@,
            not_reachable: final(not_reachable)@,
            quarantined: final(quarantined)@,
        }) == (Membership {
            available: old(available)@,
            not_reachable: old(not_reachable)@,
            quarantined: old(quarantined)@,
        }).after(*id, report, old(node)@.reachable()),
        final(node)@ == logged_for(old(node)@, report),
{
    match report {
        PolicyReport::NoChange => (),
        PolicyReport::Forget => {
            available.remove(id);
            not_reachable.remove(id);
            quarantined.remove(id);
        },
        PolicyReport::Quarantine => {
            available.remove(id);
            not_reachable.remove(id);
            quarantined.insert(*id);
            node.logs_mut().quarantine();
        },
        PolicyReport::LiftQuarantine => {
            available.remove(id);
            not_reachable.remove(id);
            quarantined.remove(id);
            if node.address().is_some() {
                available.insert(*id);
            } else {
                not_reachable.insert(*id);
            }
            node.logs_mut().lift_quarantine();
        },
    }
}

/// A place in the registry for one identifier: either nothing is filed
/// there yet, or a record is.
pub enum Entry<'a> {
    Vacant(VacantEntry<'a>),
    Occupied(OccupiedEntry<'a>),
}

/// The place of an identifier the registry does not track. One is had from
/// [`Nodes::entry`] only, so it always stands for an identifier that is not
/// tracked.
pub struct VacantEntry<'a> {
    nodes: &'a mut Nodes,
    id: Id,
}

/// The place of an identifier the registry tracks. One is had from
/// [`Nodes::entry`] only, so it always stands for an identifier that is
/// tracked.
pub struct OccupiedEntry<'a> {
    id: Id,
    nodes: &'a mut Nodes,
}

impl<'a> VacantEntry<'a> {
    fn new(nodes: &'a mut Nodes, id: Id) -> (entry: Self)
        ensures
            entry.id() == id,
            *entry.registry() == *old(nodes),
            *final(entry.registry()) == *final(nodes),
    {
        VacantEntry { nodes, id }
    }

    /// The registry this entry belongs to.
    pub closed spec fn registry(self) -> &'a mut Nodes {
        self.nodes
    }

    /// The identifier this entry stands for.
    pub closed spec fn id(self) -> Id {
        self.id
    }

    /// An entry that is no longer used leaves its registry as it is.
    pub proof fn done(self)
        requires
            has_resolved(self),
        ensures
            *final(self.registry()) == *self.registry(),
    {
    }

    /// The registry is sound and does not track the identifier.
    pub open spec fn wf(self) -> bool {
        self.registry().wf() && !self.registry().tracks(self.id())
    }

    /// Files `default` at this place; see [`Nodes::kept_on_insert`] for what
    /// a full registry drops to make room.
    pub(crate) fn insert(&mut self, default: Node)
        requires
            old(self).wf(),
            default@.id() == old(self).id(),
        ensures
            final(self).id() == old(self).id(),
            *final(final(self).registry()) == *final(old(self).registry()),
            final(self).registry().wf(),
            final(self).registry().capacity() == old(self).registry().capacity(),
            final(self).registry().entries() == seq![(default@.id(), default)] + old(self).registry().kept_on_insert(),
            final(self).registry().membership() == old(self).registry().membership_on_insert(
                default@.id(),
                default@.reachable(),
            ),
            final(self).registry().tracks(default@.id()),
            final(self).registry().node(default@.id()) == default,
            old(self).registry().partitioned() ==> final(self).registry().partitioned(),
            old(self).registry().partitioned() ==> final(self).registry().membership().status(
                default@.id(),
            ) == (default@.reachable(), !default@.reachable(), false),
    {
        self.nodes.insert(default);
    }

    fn key(&self) -> (id: &Id)
        ensures
            *id == self.id(),
    {
        &self.id
    }
}

impl<'a> OccupiedEntry<'a> {
    fn new(nodes: &'a mut Nodes, id: Id) -> (entry: Self)
        ensures
            entry.id() == id,
            *entry.registry() == *old(nodes),
            *final(entry.registry()) == *final(nodes),
    {
        OccupiedEntry { nodes, id }
    }

    /// The registry this entry belongs to.
    pub closed spec fn registry(self) -> &'a mut Nodes {
        self.nodes
    }

    /// The identifier this entry stands for.
    pub closed spec fn id(self) -> Id {
        self.id
    }

    /// An entry that is no longer used leaves its registry as it is.
    pub proof fn done(self)
        requires
            has_resolved(self),
        ensures
            *final(self.registry()) == *self.registry(),
    {
    }

    /// The registry is sound and tracks the identifier.
    pub open spec fn wf(self) -> bool {
        self.registry().wf() && self.registry().tracks(self.id())
    }

    fn key(&self) -> (id: &Id)
        ensures
            *id == self.id(),
    {
        &self.id
    }

    /// Lets `f` change the record, asks `policy` about the changed record
    /// and applies its report, which is returned.
    ///
    /// The access counts as a use: unless the peer is forgotten, its record
    /// is the most recently used one afterwards. On `NoChange`, a peer whose
    /// reachability `f` changed moves between the available and the not
    /// reachable peers; the other reports are applied as by
    /// [`apply_report`], and `Forget` also takes the record out of the store.
    /// Whatever `f` did to the address and whatever the report, the peer ends
    /// in one set at most.
    pub(crate) fn modify<P, F>(&mut self, policy: &mut P, f: F) -> (report: PolicyReport) where
        F: FnOnce(&mut Node),
        P: Policy,

        requires
            old(self).wf(),
            forall|node: &mut Node|
                *node == old(self).registry().node(old(self).id()) ==> call_requires(f, (node,)),
            forall|node: &mut Node|
                *node == old(self).registry().node(old(self).id()) && call_ensures(f, (node,), ())
                    ==> final(node)@.id() == node@.id(),
        ensures
            final(self).id() == old(self).id(),
            *final(final(self).registry()) == *final(old(self).registry()),
            final(self).registry().wf(),
            final(self).registry().capacity() == old(self).registry().capacity(),
            modified(*old(self).registry(), *final(self).registry(), old(self).id(), report),
            exists|given: &mut Node, asked: &mut Node, by: &mut P|
                {
                    &&& *given == old(self).registry().node(old(self).id())
                    &&& #[trigger] call_ensures(f, (given,), ())
                    &&& *asked == *final(given)
                    &&& *by == *old(policy)
                    &&& #[trigger] call_ensures(P::check, (by, asked), report)
                    &&& *final(by) == *final(policy)
                    &&& report != PolicyReport::Forget ==> final(self).registry().entries()[0].1@
                        == logged_for(final(asked)@, report)
                },
            old(self).registry().partitioned() ==> final(self).registry().partitioned(),
    {
        let id = self.id;
        let ghost before = *self.nodes;
        let ghost at = index_of(before.entries(), id);
        proof {
            lemma_index_of_held(before.entries(), id);
            lemma_index_of_unique(before.entries(), at);
        }
        let node = cache_get_mut(&mut self.nodes.all, &id).unwrap();
        let was_reachable = node.address().is_some();
        f(node);
        let report = policy.check(node);
        match report {
            PolicyReport::NoChange => {
                let now_reachable = node.address().is_some();
                if was_reachable && !now_reachable {
                    if self.nodes.available.remove(&id) {
                        self.nodes.not_reachable.insert(id);
                    }
                } else if !was_reachable && now_reachable && self.nodes.not_reachable.remove(&id) {
                    self.nodes.available.insert(id);
                }
            },
            PolicyReport::Forget => {
                apply_report(
                    &mut self.nodes.available,
                    &mut self.nodes.not_reachable,
                    &mut self.nodes.quarantined,
                    &id,
                    node,
                    report,
                );
                cache_pop(&mut self.nodes.all, &id);
            },
            _ => {
                apply_report(
                    &mut self.nodes.available,
                    &mut self.nodes.not_reachable,
                    &mut self.nodes.quarantined,
                    &id,
                    node,
                    report,
                );
            },
        }
        proof {
            let mid = promoted(before.entries(), at, *node);
            if report == PolicyReport::Forget {
                assert(mid[0].0 == id);
                assert(self.nodes.entries() == before.entries().remove(at));
            } else {
                assert(self.nodes.entries() == mid);
                assert(before.entries()[at].1@.id() == id);
                if report == PolicyReport::NoChange {
                    let moved = before.membership().migrated(
                        id,
                        before.entries()[at].1@.reachable(),
                        node@.reachable(),
                    );
                    assert(self.nodes.membership().available =~= moved.available);
                    assert(self.nodes.membership().not_reachable =~= moved.not_reachable);
                }
            }
            if before.partitioned() {
                lemma_modified_partitioned(before, *self.nodes, id, report);
            }
        }
        report
    }
}

/// How a registry looks after the record of `id` was changed and `report`
/// was applied to it.
pub open spec fn modified(before: Nodes, after: Nodes, id: Id, report: PolicyReport) -> bool {
    let at = index_of(before.entries(), id);
    let was = before.entries()[at].1@;
    if report == PolicyReport::Forget {
        &&& after.entries() == before.entries().remove(at)
        &&& after.membership() == before.membership().without(id)
    } else {
        let now = after.entries()[0].1@;
        &&& after.entries() == promoted(before.entries(), at, after.entries()[0].1)
        &&& now.id() == id
        &&& after.membership() == if report == PolicyReport::NoChange {
            before.membership().migrated(id, was.reachable(), now.reachable())
        } else {
            before.membership().after(id, report, now.reachable())
        }
        &&& report == PolicyReport::Quarantine ==> now.logs.len() > 0 && now.logs.last()
            == LogEvent::Quarantined
        &&& report == PolicyReport::LiftQuarantine ==> now.logs.len() > 0 && now.logs.last()
            == LogEvent::QuarantineLifted
    }
}

/// Changing a record keeps the partition, whatever the mutation did to the
/// peer's address and whatever the policy reported.
pub proof fn lemma_modified_partitioned(before: Nodes, after: Nodes, id: Id, report: PolicyReport)
    requires
        before.wf(),
        before.partitioned(),
        before.tracks(id),
        modified(before, after, id, report),
    ensures
        after.partitioned(),
{
    let e0 = before.entries();
    let e1 = after.entries();
    let m0 = before.membership();
    let m1 = after.membership();
    let at = index_of(e0, id);
    lemma_index_of_held(e0, id);
    lemma_index_of_unique(e0, at);
    assert(m0.contains(id));
    if report == PolicyReport::Forget {
        lemma_remove(e0, at);
        assert forall|x: Id| after.tracks(x) <==> #[trigger] m1.contains(x) by {
            if x != id {
                assert(m0.contains(x) <==> before.tracks(x));
            }
        }
        assert forall|x: Id| #[trigger] m1.available.contains(x) implies after.node(
            x,
        )@.reachable() by {
            assert(m0.available.contains(x));
            assert(m0.contains(x));
        }
        assert forall|x: Id| #[trigger] m1.not_reachable.contains(x) implies !after.node(
            x,
        )@.reachable() by {
            assert(m0.not_reachable.contains(x));
            assert(m0.contains(x));
        }
    } else {
        let node = e1[0].1;
        lemma_promoted(e0, at, node);
        assert(after.node(id) == node);
        assert forall|x: Id| after.tracks(x) <==> #[trigger] m1.contains(x) by {
            assert(m0.contains(x) <==> before.tracks(x));
        }
        assert forall|x: Id| #[trigger] m1.available.contains(x) implies after.node(
            x,
        )@.reachable() by {
            assert(m1.contains(x));
            if x != id {
                assert(m0.available.contains(x));
                assert(m0.contains(x));
            }
        }
        assert forall|x: Id| #[trigger] m1.not_reachable.contains(x) implies !after.node(
            x,
        )@.reachable() by {
            assert(m1.contains(x));
            if x != id {
                assert(m0.not_reachable.contains(x));
                assert(m0.contains(x));
            }
        }
    }
    assert(m1.disjoint()) by {
        assert(m0.disjoint());
    }
}

/// `entries` without the pairs whose key is in `gone`; the others keep their
/// order.
pub open spec fn survivors(entries: Seq<(Id, Node)>, gone: Set<Id>) -> Seq<(Id, Node)>
    decreases entries.len(),
{
    if entries.len() == 0 {
        Seq::empty()
    } else if gone.contains(entries.last().0) {
        survivors(entries.drop_last(), gone)
    } else {
        survivors(entries.drop_last(), gone).push(entries.last())
    }
}

/// What a policy's check followed by `report` leaves of a record: its
/// profile and address are as they `was`, and a quarantine or its end is
/// the last event of its log.
pub open spec fn checked(was: NodeView, now: NodeView, report: PolicyReport) -> bool {
    &&& now.profile == was.profile
    &&& now.address == was.address
    &&& report == PolicyReport::Quarantine ==> now.logs.len() > 0 && now.logs.last()
        == LogEvent::Quarantined
    &&& report == PolicyReport::LiftQuarantine ==> now.logs.len() > 0 && now.logs.last()
        == LogEvent::QuarantineLifted
}

/// The peers that `reports` asks to forget.
pub open spec fn forgotten(reports: Map<Id, PolicyReport>) -> Set<Id> {
    Set::new(|id: Id| reports.dom().contains(id) && reports[id] == PolicyReport::Forget)
}

/// How a registry looks after one pass in which the policy gave
/// `reports[id]` for each tracked peer `id`: the forgotten peers are gone,
/// the others keep their order of use and what identifies them, and each
/// peer sits in the sets where its report puts it.
pub open spec fn swept(before: Nodes, reports: Map<Id, PolicyReport>, after: Nodes) -> bool {
    &&& forall|id: Id| reports.dom().contains(id) <==> before.tracks(id)
    &&& keys_of(after.entries()) == keys_of(survivors(before.entries(), forgotten(reports)))
    &&& forall|id: Id| #[trigger]
        after.tracks(id) <==> before.tracks(id) && reports[id] != PolicyReport::Forget
    &&& forall|id: Id| #[trigger]
        after.tracks(id) ==> checked(before.node(id)@, after.node(id)@, reports[id])
    &&& forall|id: Id| #[trigger]
        after.membership().status(id) == if before.tracks(id) {
            before.membership().after(id, reports[id], before.node(id)@.reachable()).status(id)
        } else {
            before.membership().status(id)
        }
}

pub proof fn lemma_survivors(entries: Seq<(Id, Node)>, gone: Set<Id>)
    requires
        distinct_keys(entries),
    ensures
        distinct_keys(survivors(entries, gone)),
        survivors(entries, gone).len() <= entries.len(),
        forall|key: Id| #[trigger]
            has_key(survivors(entries, gone), key) <==> has_key(entries, key) && !gone.contains(
                key,
            ),
        forall|key: Id|
            has_key(survivors(entries, gone), key) ==> #[trigger] node_of(
                survivors(entries, gone),
                key,
            ) == node_of(entries, key),
    decreases entries.len(),
{
    let kept = survivors(entries, gone);
    if entries.len() > 0 {
        let init = entries.drop_last();
        let last = entries.last();
        let rest = survivors(init, gone);
        assert(distinct_keys(init)) by {
            assert forall|i: int, j: int|
                0 <= i < init.len() && 0 <= j < init.len() && i != j implies (#[trigger] init[i]).0
                != (#[trigger] init[j]).0 by {
                assert(init[i] == entries[i] && init[j] == entries[j]);
            }
        }
        lemma_survivors(init, gone);
        lemma_index_of_unique(entries, entries.len() - 1);
        assert(!has_key(init, last.0)) by {
            if has_key(init, last.0) {
                let i = index_of(init, last.0);
                assert(init[i] == entries[i]);
            }
        }
        assert forall|key: Id| has_key(init, key) implies has_key(entries, key) && node_of(
            entries,
            key,
        ) == node_of(init, key) by {
            let i = index_of(init, key);
            lemma_index_of_unique(init, i);
            assert(init[i] == entries[i]);
            lemma_index_of_unique(entries, i);
        }
        assert forall|key: Id| has_key(entries, key) && key != last.0 implies has_key(
            init,
            key,
        ) by {
            let i = index_of(entries, key);
            assert(init[i] == entries[i]);
        }
        if gone.contains(last.0) {
            assert(kept == rest);
        } else {
            assert(kept == rest.push(last));
            assert forall|i: int| 0 <= i < rest.len() implies #[trigger] kept[i] == rest[i] by {}
            assert(distinct_keys(kept)) by {
                assert forall|i: int, j: int|
                    0 <= i < kept.len() && 0 <= j < kept.len() && i != j implies (
                #[trigger] kept[i]).0 != (#[trigger] kept[j]).0 by {
                    if i < rest.len() {
                        assert(kept[i] == rest[i]);
                        assert(has_key(rest, rest[i].0));
                    }
                    if j < rest.len() {
                        assert(kept[j] == rest[j]);
                        assert(has_key(rest, rest[j].0));
                    }
                }
            }
            assert(kept[rest.len() as int] == last);
            lemma_index_of_unique(kept, rest.len() as int);
            assert forall|key: Id| has_key(rest, key) implies has_key(kept, key) && node_of(
                kept,
                key,
            ) == node_of(rest, key) by {
                let i = index_of(rest, key);
                lemma_index_of_unique(rest, i);
                assert(kept[i] == rest[i]);
                lemma_index_of_unique(kept, i);
            }
            assert forall|key: Id| has_key(kept, key) && key != last.0 implies has_key(
                rest,
                key,
            ) by {
                let i = index_of(kept, key);
                assert(kept[i] == rest[i]);
            }
        }
    }
}

pub proof fn lemma_survivors_of_all(entries: Seq<(Id, Node)>)
    ensures
        survivors(entries, Set::empty()) == entries,
    decreases entries.len(),
{
    if entries.len() > 0 {
        lemma_survivors_of_all(entries.drop_last());
        assert(entries.drop_last().push(entries.last()) == entries);
    }
}

/// A key that is not held can join or leave `gone` without effect.
pub proof fn lemma_survivors_absent(entries: Seq<(Id, Node)>, gone: Set<Id>, key: Id)
    requires
        !has_key(entries, key),
    ensures
        survivors(entries, gone.insert(key)) == survivors(entries, gone),
    decreases entries.len(),
{
    if entries.len() > 0 {
        let init = entries.drop_last();
        assert(!has_key(init, key)) by {
            if has_key(init, key) {
                let i = index_of(init, key);
                assert(init[i] == entries[i]);
            }
        }
        assert(entries[entries.len() - 1].0 != key);
        lemma_survivors_absent(init, gone, key);
    }
}

/// Dropping one more key from the survivors is the same as surviving the
/// larger set.
pub proof fn lemma_survivors_step(entries: Seq<(Id, Node)>, gone: Set<Id>, key: Id)
    requires
        distinct_keys(entries),
    ensures
        without(survivors(entries, gone), key) == survivors(entries, gone.insert(key)),
    decreases entries.len(),
{
    let kept = survivors(entries, gone);
    lemma_survivors(entries, gone);
    if entries.len() > 0 {
        let init = entries.drop_last();
        let last = entries.last();
        let rest = survivors(init, gone);
        assert(distinct_keys(init)) by {
            assert forall|i: int, j: int|
                0 <= i < init.len() && 0 <= j < init.len() && i != j implies (#[trigger] init[i]).0
                != (#[trigger] init[j]).0 by {
                assert(init[i] == entries[i] && init[j] == entries[j]);
            }
        }
        lemma_survivors(init, gone);
        lemma_survivors_step(init, gone, key);
        assert(!has_key(init, last.0)) by {
            if has_key(init, last.0) {
                let i = index_of(init, last.0);
                assert(init[i] == entries[i]);
            }
        }
        if last.0 == key {
            lemma_survivors_absent(init, gone, key);
            if !gone.contains(key) {
                assert(kept == rest.push(last));
                assert(kept[rest.len() as int] == last);
                lemma_index_of_unique(kept, rest.len() as int);
                assert(kept.remove(rest.len() as int) == rest);
            }
        } else if gone.contains(last.0) {
        } else {
            assert(kept == rest.push(last));
            if has_key(rest, key) {
                let i = index_of(rest, key);
                lemma_index_of_unique(rest, i);
                assert(kept[i] == rest[i]);
                lemma_index_of_unique(kept, i);
                assert(kept.remove(i) == rest.remove(i).push(last));
            } else {
                assert(!has_key(kept, key)) by {
                    if has_key(kept, key) {
                        let i = index_of(kept, key);
                        if i < rest.len() {
                            assert(kept[i] == rest[i]);
                        }
                    }
                }
            }
        }
    } else {
        assert(!has_key(kept, key));
    }
}

/// Which keys survive depends on the keys alone.
pub proof fn lemma_survivors_keys(left: Seq<(Id, Node)>, right: Seq<(Id, Node)>, gone: Set<Id>)
    requires
        keys_of(left) == keys_of(right),
    ensures
        keys_of(survivors(left, gone)) == keys_of(survivors(right, gone)),
    decreases left.len(),
{
    assert(left.len() == keys_of(left).len());
    assert(right.len() == keys_of(right).len());
    if left.len() > 0 {
        let l = left.drop_last();
        let r = right.drop_last();
        assert(keys_of(l) =~= keys_of(left).drop_last());
        assert(keys_of(r) =~= keys_of(right).drop_last());
        lemma_survivors_keys(l, r, gone);
        assert(left.last().0 == keys_of(left).last());
        assert(right.last().0 == keys_of(right).last());
        assert(keys_of(survivors(left, gone)) =~= keys_of(survivors(right, gone))) by {
            if !gone.contains(left.last().0) {
                assert(keys_of(survivors(l, gone).push(left.last())) =~= keys_of(
                    survivors(l, gone),
                ).push(left.last().0));
                assert(keys_of(survivors(r, gone).push(right.last())) =~= keys_of(
                    survivors(r, gone),
                ).push(right.last().0));
            }
        }
    } else {
        assert(keys_of(survivors(left, gone)) =~= keys_of(survivors(right, gone)));
    }
}

impl Nodes {
    /// The place of `public_id` in the registry, vacant or occupied.
    pub fn entry(&mut self, public_id: Id) -> (entry: Entry<'_>)
        ensures
            match entry {
                Entry::Vacant(vacant) => !old(self).tracks(public_id) && vacant.id() == public_id
                    && *vacant.registry() == *old(self) && *final(vacant.registry()) == *final(self),
                Entry::Occupied(occupied) => old(self).tracks(public_id) && occupied.id()
                    == public_id && *occupied.registry() == *old(self) && *final(occupied.registry())
                    == *final(self),
            },
    {
        if cache_contains(&self.all, &public_id) {
            Entry::Occupied(OccupiedEntry::new(self, public_id))
        } else {
            Entry::Vacant(VacantEntry::new(self, public_id))
        }
    }

    /// Asks `policy` about every tracked peer, from the most recently used
    /// to the least recently used, and applies each report as by
    /// [`apply_report`]. The records of forgotten peers are taken out of the
    /// store once the pass is over. Looking at a record here does not count
    /// as a use.
    ///
    /// Unlike [`Entry::and_modify`], the pass does not look for peers
    /// whose reachability changed: on `NoChange` a peer stays where it is.
    ///
    /// The contract goes by the reports the policy gave, peer by peer, and
    /// by the states the policy went through from one check to the next:
    /// what [`swept`] says of the reports holds, and each record that stays
    /// is what the check left of it, with the report noted in its log. A
    /// policy whose check always answers `NoChange` and leaves the record as
    /// it is therefore leaves the whole registry as it is.
    pub fn reset<P>(&mut self, policy: &mut P) where P: Policy
        requires
            old(self).wf(),
        ensures
            final(self).wf(),
            final(self).capacity() == old(self).capacity(),
            exists|reports: Map<Id, PolicyReport>, states: Seq<P>|
                {
                    &&& #[trigger] swept(*old(self), reports, *final(self))
                    &&& #[trigger] states.len() == old(self).entries().len() + 1
                    &&& states[0] == *old(policy)
                    &&& states.last() == *final(policy)
                    &&& forall|j: int| #[trigger]
                        within(j, old(self).entries().len()) ==> exists|
                            asked: &mut Node,
                            by: &mut P,
                        |
                            {
                                &&& *asked == old(self).entries()[j].1
                                &&& *by == states[j]
                                &&& #[trigger] call_ensures(
                                    P::check,
                                    (by, asked),
                                    reports[old(self).entries()[j].0],
                                )
                                &&& *final(by) == states[j + 1]
                                &&& final(self).tracks(old(self).entries()[j].0) ==> final(self).node(
                                    old(self).entries()[j].0,
                                )@ == logged_for(final(asked)@, reports[old(self).entries()[j].0])
                            }
                },
            old(self).partitioned() ==> final(self).partitioned(),
            (forall|by: &mut P, asked: &mut Node, report: PolicyReport| #[trigger]
                call_ensures(P::check, (by, asked), report) ==> report == PolicyReport::NoChange
                    && final(asked)@ == asked@) ==> {
                &&& final(self).membership() == old(self).membership()
                &&& final(self).entries().len() == old(self).entries().len()
                &&& forall|j: int|
                    0 <= j < old(self).entries().len() ==> {
                        &&& (#[trigger] final(self).entries()[j]).0 == old(self).entries()[j].0
                        &&& final(self).entries()[j].1@ == old(self).entries()[j].1@
                    }
            },
    {
        let keys = cache_keys(&self.all);
        let mut to_remove: Vec<Id> = Vec::new();
        let ghost before = *self;
        let ghost e0 = before.entries();
        let ghost m0 = before.membership();
        let ghost mut reports: Map<Id, PolicyReport> = Map::empty();
        let ghost mut states: Seq<P> = seq![*policy];
        let ghost mut told: Seq<PolicyReport> = Seq::empty();
        let ghost mut seen: Seq<NodeView> = Seq::empty();

        let mut i: usize = 0;
        while i < keys.len()
            invariant
                states.len() == i + 1,
                told.len() == i,
                seen.len() == i,
                states[0] == *old(policy),
                states[i as int] == *policy,
                forall|j: int|
                    0 <= j < i ==> (#[trigger] self.entries()[j]).1@ == seen[j] && reports[e0[j].0]
                        == told[j],
                forall|j: int| #[trigger]
                    within(j, i as nat) ==> exists|asked: &mut Node, by: &mut P|
                        {
                            &&& *asked == e0[j].1
                            &&& *by == states[j]
                            &&& #[trigger] call_ensures(P::check, (by, asked), told[j])
                            &&& *final(by) == states[j + 1]
                            &&& seen[j] == logged_for(final(asked)@, told[j])
                        },
                before == *old(self),
                before.wf(),
                e0 == before.entries(),
                m0 == before.membership(),
                keys@ == keys_of(e0),
                i <= keys.len(),
                self.capacity() == before.capacity(),
                self.membership().finite(),
                self.entries().len() == e0.len(),
                forall|j: int|
                    0 <= j < e0.len() ==> (#[trigger] self.entries()[j]).0 == e0[j].0,
                forall|j: int| i <= j < e0.len() ==> (#[trigger] self.entries()[j]).1 == e0[j].1,
                checked_up_to(e0, self.entries(), reports, i as int),
                forall|id: Id| #[trigger]
                    reports.dom().contains(id) ==> has_key(e0, id) && index_of(e0, id) < i,
                forall|id: Id| #[trigger]
                    self.membership().status(id) == if reports.dom().contains(id) {
                        m0.after(id, reports[id], node_of(e0, id)@.reachable()).status(id)
                    } else {
                        m0.status(id)
                    },
                forall|t: int|
                    0 <= t < to_remove.len() ==> forgotten(reports).contains(
                        #[trigger] to_remove@[t],
                    ),
                forall|id: Id| #[trigger]
                    forgotten(reports).contains(id) ==> to_remove@.contains(id),
            decreases keys.len() - i,
        {
            let k = keys[i];
            let ghost current = self.entries();
            let ghost sets = self.membership();
            let ghost chosen = to_remove@;
            let ghost prior = reports;
            let ghost told_before = told;
            let ghost states_before = states;
            let ghost seen_before = seen;
            proof {
                assert(k == e0[i as int].0);
                lemma_index_of_unique(e0, i as int);
                assert(distinct_keys(current)) by {
                    assert forall|a: int, b: int|
                        0 <= a < current.len() && 0 <= b < current.len() && a != b implies (
                    #[trigger] current[a]).0 != (#[trigger] current[b]).0 by {
                        assert(current[a].0 == e0[a].0 && current[b].0 == e0[b].0);
                    }
                }
                assert(current[i as int].0 == k);
                lemma_index_of_unique(current, i as int);
                assert(!reports.dom().contains(k));
            }
            let node = cache_peek_mut(&mut self.all, &k).unwrap();
            let report = policy.check(node);
            apply_report(
                &mut self.available,
                &mut self.not_reachable,
                &mut self.quarantined,
                &k,
                node,
                report,
            );
            if let PolicyReport::Forget = report {
                to_remove.push(k);
            }
            proof {
                reports = reports.insert(k, report);
                states = states.push(*policy);
                told = told.push(report);
                seen = seen.push(node@);
                assert(self.entries() == current.update(i as int, (k, *node)));
                assert forall|j: int| 0 <= j < i + 1 implies (#[trigger] self.entries()[j]).1@
                    == seen[j] && reports[e0[j].0] == told[j] by {
                    if j < i {
                        assert(e0[j].0 != e0[i as int].0);
                        assert(self.entries()[j] == current[j]);
                    }
                }
                assert(checked(e0[i as int].1@, node@, report));
                assert(self.membership() == sets.after(k, report, node@.reachable()));
                let changed = self.entries();
                assert forall|j: int| 0 <= j < i + 1 implies reports.dom().contains(
                    (#[trigger] e0[j]).0,
                ) && checked(e0[j].1@, changed[j].1@, reports[e0[j].0]) by {
                    if j < i {
                        assert(e0[j].0 != e0[i as int].0);
                        assert(changed[j] == current[j]);
                        assert(prior.dom().contains(e0[j].0));
                        assert(checked(e0[j].1@, current[j].1@, prior[e0[j].0]));
                    }
                }
                assert(checked_up_to(e0, changed, reports, i + 1));
                assert forall|id: Id| #[trigger]
                    self.membership().status(id) == if reports.dom().contains(id) {
                        m0.after(id, reports[id], node_of(e0, id)@.reachable()).status(id)
                    } else {
                        m0.status(id)
                    } by {
                    assert(sets.status(id) == if prior.dom().contains(id) {
                        m0.after(id, prior[id], node_of(e0, id)@.reachable()).status(id)
                    } else {
                        m0.status(id)
                    });
                }
                assert forall|t: int| 0 <= t < to_remove.len() implies forgotten(
                    reports,
                ).contains(#[trigger] to_remove@[t]) by {
                    if t < chosen.len() {
                        assert(forgotten(prior).contains(chosen[t]));
                    }
                }
                assert forall|id: Id| #[trigger]
                    forgotten(reports).contains(id) implies to_remove@.contains(id) by {
                    if id == k {
                        assert(to_remove@[chosen.len() as int] == k);
                    } else {
                        assert(forgotten(prior).contains(id));
                        let t = choose|t: int| 0 <= t < chosen.len() && chosen[t] == id;
                        assert(to_remove@[t] == id);
                    }
                }
            }
            i += 1;
            proof {
                assert forall|j: int| #[trigger] within(j, i as nat) implies exists|
                    asked: &mut Node,
                    by: &mut P,
                |
                    {
                        &&& *asked == e0[j].1
                        &&& *by == states[j]
                        &&& #[trigger] call_ensures(P::check, (by, asked), told[j])
                        &&& *final(by) == states[j + 1]
                        &&& seen[j] == logged_for(final(asked)@, told[j])
                    } by {
                    if j < i - 1 {
                        assert(within(j, (i - 1) as nat));
                        assert(told_before[j] == told[j]);
                        assert(states_before[j] == states[j]);
                        assert(states_before[j + 1] == states[j + 1]);
                        assert(seen_before[j] == seen[j]);
                    } else {
                        assert(told[j] == report);
                        assert(states[j] == states_before[j]);
                        assert(states[j + 1] == *policy);
                        assert(seen[j] == node@);
                        assert(e0[j].1 == current[j].1);
                    }
                }
            }
        }

        let ghost e1 = self.entries();
        let ghost gone_all = forgotten(reports);
        let ghost swept_sets = self.membership();
        proof {
            assert(distinct_keys(e1)) by {
                assert forall|a: int, b: int|
                    0 <= a < e1.len() && 0 <= b < e1.len() && a != b implies (#[trigger] e1[a]).0
                    != (#[trigger] e1[b]).0 by {
                    assert(e1[a].0 == e0[a].0 && e1[b].0 == e0[b].0);
                }
            }
            lemma_survivors_of_all(e1);
            assert(to_remove@.take(0).to_set() =~= Set::empty());
            assert(passed_over(before, e1, reports, swept_sets));
            assert(to_remove@.to_set() =~= gone_all);
            assert forall|j: int| #[trigger] within(j, e0.len()) implies exists|
                asked: &mut Node,
                by: &mut P,
            |
                {
                    &&& *asked == e0[j].1
                    &&& *by == states[j]
                    &&& #[trigger] call_ensures(P::check, (by, asked), told[j])
                    &&& *final(by) == states[j + 1]
                    &&& seen[j] == logged_for(final(asked)@, told[j])
                } by {
                assert(within(j, i as nat));
            }
        }
        let mut t: usize = 0;
        while t < to_remove.len()
            invariant
                t <= to_remove.len(),
                distinct_keys(e1),
                self.capacity() == before.capacity(),
                self.membership() == swept_sets,
                self.membership().finite(),
                before == *old(self),
                before.wf(),
                passed_over(before, e1, reports, swept_sets),
                states.len() == e0.len() + 1,
                told.len() == e0.len(),
                seen.len() == e0.len(),
                e0 == before.entries(),
                states[0] == *old(policy),
                states.last() == *policy,
                forall|j: int|
                    0 <= j < e0.len() ==> (#[trigger] e1[j]).1@ == seen[j] && reports[e0[j].0]
                        == told[j],
                forall|j: int| #[trigger]
                    within(j, e0.len()) ==> exists|asked: &mut Node, by: &mut P|
                        {
                            &&& *asked == e0[j].1
                            &&& *by == states[j]
                            &&& #[trigger] call_ensures(P::check, (by, asked), told[j])
                            &&& *final(by) == states[j + 1]
                            &&& seen[j] == logged_for(final(asked)@, told[j])
                        },
                to_remove@.to_set() == gone_all,
                gone_all == forgotten(reports),
                self.entries() == survivors(e1, to_remove@.take(t as int).to_set()),
            decreases to_remove.len() - t,
        {
            proof {
                lemma_survivors_step(e1, to_remove@.take(t as int).to_set(), to_remove@[t as int]);
                assert(to_remove@.take(t + 1).to_set() =~= to_remove@.take(t as int).to_set().insert(
                    to_remove@[t as int],
                )) by {
                    let longer = to_remove@.take(t + 1);
                    let shorter = to_remove@.take(t as int);
                    assert forall|id: Id| longer.to_set().contains(id) implies shorter.to_set().insert(
                        to_remove@[t as int],
                    ).contains(id) by {
                        let a = choose|a: int| 0 <= a < longer.len() && longer[a] == id;
                        if a < t {
                            assert(shorter[a] == id);
                        }
                    }
                    assert forall|id: Id|
                        shorter.to_set().insert(to_remove@[t as int]).contains(
                            id,
                        ) implies longer.to_set().contains(id) by {
                        if shorter.to_set().contains(id) {
                            let a = choose|a: int| 0 <= a < shorter.len() && shorter[a] == id;
                            assert(longer[a] == id);
                        } else {
                            assert(longer[t as int] == id);
                        }
                    }
                }
            }
            cache_pop(&mut self.all, &to_remove[t]);
            t += 1;
        }
        proof {
            assert(to_remove@.take(to_remove.len() as int) == to_remove@);
            lemma_swept(before, e1, reports, *self);
            if before.partitioned() {
                lemma_swept_partitioned(before, reports, *self);
            }
            assert forall|j: int| #[trigger] within(j, e0.len()) implies exists|
                asked: &mut Node,
                by: &mut P,
            |
                {
                    &&& *asked == e0[j].1
                    &&& *by == states[j]
                    &&& #[trigger] call_ensures(P::check, (by, asked), reports[e0[j].0])
                    &&& *final(by) == states[j + 1]
                    &&& self.tracks(e0[j].0) ==> self.node(e0[j].0)@ == logged_for(
                        final(asked)@,
                        reports[e0[j].0],
                    )
                } by {
                let report = told[j];
                assert(e1[j].1@ == seen[j] && reports[e0[j].0] == report);
                lemma_index_of_unique(e0, j);
                assert(self.tracks(e0[j].0) ==> self.node(e0[j].0) == e1[j].1);
            }
            assert(swept(before, reports, *self) && states.len() == e0.len() + 1);
            assert forall|j: int|
                #[trigger] within(j, e0.len()) && (forall|
                    by: &mut P,
                    asked: &mut Node,
                    report: PolicyReport,
                | #[trigger]
                    call_ensures(P::check, (by, asked), report) ==> report
                        == PolicyReport::NoChange && final(asked)@ == asked@) implies told[j]
                == PolicyReport::NoChange && e1[j].1@ == e0[j].1@ && reports[e0[j].0]
                == PolicyReport::NoChange by {}
            assert forall|id: Id| #[trigger]
                reports.dom().contains(id) implies within(index_of(e0, id), e0.len()) && e0[index_of(
                e0,
                id,
            )].0 == id by {}
            lemma_survivors_of_none(e1, gone_all);
            lemma_quiet_pass(before, *self, reports);
        }
    }
}

/// `j` is a position in a sequence of length `len`.
pub open spec fn within(j: int, len: nat) -> bool {
    0 <= j < len
}

/// The first `done` records of `entries` are what the policy's check and its
/// report have left of those of `was`.
spec fn checked_up_to(
    was: Seq<(Id, Node)>,
    entries: Seq<(Id, Node)>,
    reports: Map<Id, PolicyReport>,
    done: int,
) -> bool {
    forall|j: int|
        0 <= j < done ==> reports.dom().contains((#[trigger] was[j]).0) && checked(
            was[j].1@,
            entries[j].1@,
            reports[was[j].0],
        )
}

/// What holds once the policy has seen every record and nothing was taken
/// out of the store yet: `passed` holds the records as the policy left them
/// and `sets` the three sets.
spec fn passed_over(
    before: Nodes,
    passed: Seq<(Id, Node)>,
    reports: Map<Id, PolicyReport>,
    sets: Membership,
) -> bool {
    &&& passed.len() == before.entries().len()
    &&& forall|j: int| 0 <= j < passed.len() ==> (#[trigger] passed[j]).0 == before.entries()[j].0
    &&& checked_up_to(before.entries(), passed, reports, passed.len() as int)
    &&& forall|id: Id| #[trigger] reports.dom().contains(id) ==> has_key(before.entries(), id)
    &&& forall|id: Id| #[trigger]
        sets.status(id) == if reports.dom().contains(id) {
            before.membership().after(
                id,
                reports[id],
                node_of(before.entries(), id)@.reachable(),
            ).status(id)
        } else {
            before.membership().status(id)
        }
}

/// Puts together what a pass has established record by record.
proof fn lemma_swept(before: Nodes, passed: Seq<(Id, Node)>, reports: Map<Id, PolicyReport>, after: Nodes)
    requires
        before.wf(),
        passed_over(before, passed, reports, after.membership()),
        after.entries() == survivors(passed, forgotten(reports)),
        after.capacity() == before.capacity(),
        after.membership().finite(),
    ensures
        swept(before, reports, after),
        after.wf(),
        forall|j: int|
            0 <= j < passed.len() && after.tracks(before.entries()[j].0) ==> after.node(
                before.entries()[j].0,
            ) == (#[trigger] passed[j]).1,
{
    let e0 = before.entries();
    let e2 = after.entries();
    let gone = forgotten(reports);
    assert(distinct_keys(passed)) by {
        assert forall|a: int, b: int|
            0 <= a < passed.len() && 0 <= b < passed.len() && a != b implies (
        #[trigger] passed[a]).0 != (#[trigger] passed[b]).0 by {
            assert(passed[a].0 == e0[a].0 && passed[b].0 == e0[b].0);
        }
    }
    lemma_survivors(passed, gone);
    assert(keys_of(passed) =~= keys_of(e0));
    lemma_survivors_keys(passed, e0, gone);
    // Each key is held by both stores at one position.
    assert forall|id: Id| has_key(e0, id) implies has_key(passed, id) && index_of(passed, id)
        == index_of(e0, id) && reports.dom().contains(id) by {
        let j = index_of(e0, id);
        lemma_index_of_unique(e0, j);
        assert(passed[j].0 == id);
        lemma_index_of_unique(passed, j);
    }
    assert forall|id: Id| has_key(passed, id) implies has_key(e0, id) by {
        let j = index_of(passed, id);
        assert(e0[j].0 == id);
    }
    assert forall|id: Id| reports.dom().contains(id) <==> before.tracks(id) by {}
    assert forall|id: Id| #[trigger]
        after.tracks(id) <==> before.tracks(id) && reports[id] != PolicyReport::Forget by {
        assert(has_key(e2, id) <==> has_key(passed, id) && !gone.contains(id));
    }
    assert forall|id: Id| #[trigger] after.tracks(id) implies checked(
        before.node(id)@,
        after.node(id)@,
        reports[id],
    ) by {
        assert(has_key(e2, id) <==> has_key(passed, id) && !gone.contains(id));
        assert(node_of(e2, id) == node_of(passed, id));
        let j = index_of(e0, id);
        assert(checked(e0[j].1@, passed[j].1@, reports[e0[j].0]));
    }
    assert forall|i: int| 0 <= i < e2.len() implies (#[trigger] e2[i]).1@.id() == e2[i].0 by {
        let id = e2[i].0;
        lemma_index_of_unique(e2, i);
        assert(after.tracks(id));
        let j = index_of(e0, id);
        lemma_index_of_held(e0, id);
        assert(e0[j].1@.id() == e0[j].0);
    }
    assert forall|j: int|
        0 <= j < passed.len() && after.tracks(before.entries()[j].0) implies after.node(
        before.entries()[j].0,
    ) == (#[trigger] passed[j]).1 by {
        let id = e0[j].0;
        lemma_index_of_unique(e0, j);
        lemma_index_of_unique(passed, j);
        assert(has_key(e2, id) <==> has_key(passed, id) && !gone.contains(id));
        assert(node_of(e2, id) == node_of(passed, id));
    }
}

/// A pass keeps the partition.
pub proof fn lemma_swept_partitioned(before: Nodes, reports: Map<Id, PolicyReport>, after: Nodes)
    requires
        before.wf(),
        before.partitioned(),
        swept(before, reports, after),
    ensures
        after.partitioned(),
{
    let m0 = before.membership();
    let m1 = after.membership();
    assert forall|id: Id|
        {
            let (a, n, q) = #[trigger] m1.status(id);
            &&& !(a && n) && !(a && q) && !(n && q)
            &&& after.tracks(id) <==> a || n || q
            &&& a ==> after.node(id)@.reachable()
            &&& n ==> !after.node(id)@.reachable()
        } by {
        assert(m0.contains(id) <==> before.tracks(id));
        assert(m0.disjoint());
        let s0 = m0.status(id);
        if before.tracks(id) {
            assert(after.tracks(id) <==> reports[id] != PolicyReport::Forget);
            if after.tracks(id) {
                assert(checked(before.node(id)@, after.node(id)@, reports[id]));
            }
            if s0.0 {
                assert(m0.available.contains(id));
            }
            if s0.1 {
                assert(m0.not_reachable.contains(id));
            }
        }
    }
    assert(m1.disjoint()) by {
        assert forall|id: Id|
            !(m1.available.contains(id) && m1.not_reachable.contains(id)) && !(
            m1.available.contains(id) && m1.quarantined.contains(id)) && !(
            m1.not_reachable.contains(id) && m1.quarantined.contains(id)) by {
            let s = m1.status(id);
        }
    }
    assert forall|id: Id| after.tracks(id) <==> #[trigger] m1.contains(id) by {
        let s = m1.status(id);
    }
    assert forall|id: Id| #[trigger] m1.available.contains(id) implies after.node(
        id,
    )@.reachable() by {
        let s = m1.status(id);
    }
    assert forall|id: Id| #[trigger] m1.not_reachable.contains(id) implies !after.node(
        id,
    )@.reachable() by {
        let s = m1.status(id);
    }
}

impl<'a> Entry<'a> {
    /// The identifier this entry stands for.
    pub open spec fn id(&self) -> Id {
        match self {
            Entry::Vacant(vacant) => vacant.id(),
            Entry::Occupied(occupied) => occupied.id(),
        }
    }

    /// The entry agrees with its registry: a vacant one stands for an
    /// untracked identifier, an occupied one for a tracked one.
    pub open spec fn wf(&self) -> bool {
        match self {
            Entry::Vacant(vacant) => vacant.wf(),
            Entry::Occupied(occupied) => occupied.wf(),
        }
    }

    /// An entry that is no longer used leaves its registry as it is.
    pub proof fn done(self)
        requires
            has_resolved(self),
        ensures
            match self {
                Entry::Vacant(vacant) => *final(vacant.registry()) == *vacant.registry(),
                Entry::Occupied(occupied) => *final(occupied.registry()) == *occupied.registry(),
            },
    {
    }

    /// Files `default` if nothing is filed here yet; an occupied entry is
    /// left as it is.
    pub fn or_insert(self, default: Node)
        requires
            self.wf(),
            self is Vacant ==> default@.id() == self.id(),
        ensures
            match self {
                Entry::Vacant(vacant) => {
                    &&& final(vacant.registry()).wf()
                    &&& final(vacant.registry()).capacity() == vacant.registry().capacity()
                    &&& final(vacant.registry()).entries() == seq![(default@.id(), default)]
                        + vacant.registry().kept_on_insert()
                    &&& final(vacant.registry()).membership()
                        == vacant.registry().membership_on_insert(
                        default@.id(),
                        default@.reachable(),
                    )
                    &&& final(vacant.registry()).tracks(default@.id())
                    &&& final(vacant.registry()).node(default@.id()) == default
                    &&& vacant.registry().partitioned() ==> final(vacant.registry()).partitioned()
                    &&& vacant.registry().partitioned() ==> final(vacant.registry()).membership().status(default@.id()) == (
                        default@.reachable(),
                        !default@.reachable(),
                        false,
                    )
                },
                Entry::Occupied(occupied) => *final(occupied.registry()) == *occupied.registry(),
            },
    {
        match self {
            Entry::Vacant(mut node_entry) => node_entry.insert(default),
            Entry::Occupied(_node_entry) => {},
        }
    }

    /// Files what `default` returns if nothing is filed here yet; `default`
    /// is called only then. An occupied entry is left as it is.
    pub fn or_insert_with<F>(self, default: F) where F: FnOnce() -> Node
        requires
            self.wf(),
            self is Vacant ==> call_requires(default, ()),
            self is Vacant ==> forall|node: Node|
                call_ensures(default, (), node) ==> node@.id() == self.id(),
        ensures
            match self {
                Entry::Vacant(vacant) => exists|node: Node|
                    {
                        &&& call_ensures(default, (), node)
                        &&& final(vacant.registry()).wf()
                        &&& final(vacant.registry()).capacity() == vacant.registry().capacity()
                        &&& #[trigger] final(vacant.registry()).entries() == seq![(vacant.id(), node)]
                            + vacant.registry().kept_on_insert()
                        &&& final(vacant.registry()).membership()
                            == vacant.registry().membership_on_insert(
                            vacant.id(),
                            node@.reachable(),
                        )
                        &&& final(vacant.registry()).tracks(vacant.id())
                        &&& final(vacant.registry()).node(vacant.id()) == node
                        &&& vacant.registry().partitioned() ==> final(vacant.registry()).partitioned()
                        &&& vacant.registry().partitioned() ==> final(vacant.registry()).membership().status(vacant.id()) == (
                            node@.reachable(),
                            !node@.reachable(),
                            false,
                        )
                    },
                Entry::Occupied(occupied) => *final(occupied.registry()) == *occupied.registry(),
            },
    {
        match self {
            Entry::Vacant(mut node_entry) => node_entry.insert(default()),
            Entry::Occupied(_node_entry) => {},
        }
    }

    pub fn key(&self) -> (id: &Id)
        ensures
            *id == self.id(),
    {
        match self {
            Entry::Vacant(node_entry) => node_entry.key(),
            Entry::Occupied(node_entry) => node_entry.key(),
        }
    }

    /// Lets `f` change the record filed here, asks `policy` about the
    /// changed record, applies its report and returns it; a vacant entry is
    /// left as it is and gives `None`.
    ///
    /// The access counts as a use: unless the peer is forgotten, its record
    /// is the most recently used one afterwards. On `NoChange`, a peer whose
    /// reachability `f` changed moves between the available and the not
    /// reachable peers; the other reports are applied as by
    /// [`apply_report`], and `Forget` also takes the record out of the store.
    /// Whatever `f` did to the address and whatever the report, the peer ends
    /// in one set at most.
    pub fn and_modify<P, F>(self, policy: &mut P, f: F) -> (report: Option<PolicyReport>) where
        F: FnOnce(&mut Node),
        P: Policy,

        requires
            self.wf(),
            match self {
                Entry::Occupied(occupied) => {
                    &&& forall|node: &mut Node|
                        *node == occupied.registry().node(occupied.id()) ==> call_requires(f, (node,))
                    &&& forall|node: &mut Node|
                        *node == occupied.registry().node(occupied.id()) && call_ensures(f, (node,), ())
                            ==> final(node)@.id() == node@.id()
                },
                Entry::Vacant(_) => true,
            },
        ensures
            match self {
                Entry::Occupied(occupied) => {
                    &&& report is Some
                    &&& final(occupied.registry()).wf()
                    &&& final(occupied.registry()).capacity() == occupied.registry().capacity()
                    &&& modified(
                        *occupied.registry(),
                        *final(occupied.registry()),
                        occupied.id(),
                        report->0,
                    )
                    &&& exists|given: &mut Node, asked: &mut Node, by: &mut P|
                        {
                            &&& *given == occupied.registry().node(occupied.id())
                            &&& #[trigger] call_ensures(f, (given,), ())
                            &&& *asked == *final(given)
                            &&& *by == *old(policy)
                            &&& #[trigger] call_ensures(P::check, (by, asked), report->0)
                            &&& *final(by) == *final(policy)
                            &&& report->0 != PolicyReport::Forget ==> final(occupied.registry()).entries()[0].1@
                                == logged_for(final(asked)@, report->0)
                        }
                    &&& occupied.registry().partitioned() ==> final(occupied.registry()).partitioned()
                },
                Entry::Vacant(vacant) => report is None && *final(vacant.registry()) == *vacant.registry()
                    && *final(policy) == *old(policy),
            },
    {
        match self {
            Entry::Occupied(mut node_entry) => Some(node_entry.modify(policy, f)),
            Entry::Vacant(_) => None,
        }
    }
}

/// Using records keeps the keys distinct and changes neither which keys are
/// held nor the nodes filed under them.
pub proof fn lemma_touched(entries: Seq<(Id, Node)>, ids: Seq<Id>)
    requires
        distinct_keys(entries),
    ensures
        distinct_keys(touched(entries, ids)),
        same_records(entries, touched(entries, ids)),
        (forall|i: int| 0 <= i < entries.len() ==> (#[trigger] entries[i]).1@.id() == entries[i].0)
            ==> (forall|i: int|
            0 <= i < touched(entries, ids).len() ==> (#[trigger] touched(entries, ids)[i]).1@.id()
                == touched(entries, ids)[i].0),
    decreases ids.len(),
{
    if ids.len() > 0 {
        let earlier = touched(entries, ids.drop_last());
        let now = touched(entries, ids);
        lemma_touched(entries, ids.drop_last());
        let id = ids.last();
        if has_key(earlier, id) {
            let at = index_of(earlier, id);
            lemma_index_of_held(earlier, id);
            lemma_index_of_unique(earlier, at);
            lemma_promoted(earlier, at, node_of(earlier, id));
            assert forall|key: Id| has_key(entries, key) implies #[trigger] node_of(entries, key)
                == node_of(now, key) by {
                assert(has_key(earlier, key));
                assert(node_of(entries, key) == node_of(earlier, key));
            }
            if forall|i: int|
                0 <= i < entries.len() ==> (#[trigger] entries[i]).1@.id() == entries[i].0 {
                assert forall|i: int| 0 <= i < now.len() implies (#[trigger] now[i]).1@.id()
                    == now[i].0 by {
                    if i > 0 {
                        let rest = earlier.remove(at);
                        assert(now[i] == rest[i - 1]);
                        assert(rest[i - 1] == earlier[if i - 1 < at {
                            i - 1
                        } else {
                            i
                        }]);
                    } else {
                        assert(now[0] == (id, earlier[at].1));
                    }
                }
            }
        }
    }
}

/// The partition speaks of the records only through which keys are held
/// and what is filed under them.
pub proof fn lemma_same_records_partitioned(before: Nodes, entries: Seq<(Id, Node)>)
    requires
        before.partitioned(),
        same_records(before.entries(), entries),
    ensures
        forall|after: Nodes|
            after.entries() == entries && after.membership() == before.membership()
                ==> #[trigger] after.partitioned(),
{
    assert forall|after: Nodes|
        after.entries() == entries && after.membership() == before.membership()
        implies #[trigger] after.partitioned() by {
        let m = before.membership();
        assert forall|id: Id| after.tracks(id) <==> #[trigger] m.contains(id) by {
            assert(before.tracks(id) <==> m.contains(id));
        }
        assert forall|id: Id| #[trigger] m.available.contains(id) implies after.node(
            id,
        )@.reachable() by {
            assert(m.contains(id));
            assert(before.tracks(id));
        }
        assert forall|id: Id| #[trigger] m.not_reachable.contains(id) implies !after.node(
            id,
        )@.reachable() by {
            assert(m.contains(id));
            assert(before.tracks(id));
        }
    }
}

/// What resolving a duplicate-free list of identifiers gives: the record of
/// each identifier that is held, once, and nothing else.
pub proof fn lemma_resolved(entries: Seq<(Id, Node)>, order: Seq<Id>)
    requires
        distinct_keys(entries),
        forall|i: int| 0 <= i < entries.len() ==> (#[trigger] entries[i]).1@.id() == entries[i].0,
        order.no_duplicates(),
    ensures
        resolved(entries, order).len() <= order.len(),
        forall|i: int|
            0 <= i < resolved(entries, order).len() ==> {
                let node = #[trigger] resolved(entries, order)[i];
                &&& order.contains(node@.id())
                &&& has_key(entries, node@.id())
                &&& node_of(entries, node@.id()) == node
            },
        forall|i: int, j: int|
            0 <= i < resolved(entries, order).len() && 0 <= j < resolved(entries, order).len() && i
                != j ==> (#[trigger] resolved(entries, order)[i])@.id() != (#[trigger] resolved(
                entries,
                order,
            )[j])@.id(),
        forall|id: Id|
            order.contains(id) && #[trigger] has_key(entries, id) ==> resolved(
                entries,
                order,
            ).contains(node_of(entries, id)),
        (forall|k: int| 0 <= k < order.len() ==> has_key(entries, #[trigger] order[k]))
            ==> resolved(entries, order).len() == order.len(),
    decreases order.len(),
{
    let all = resolved(entries, order);
    if order.len() > 0 {
        let init = order.drop_last();
        let last = order.last();
        let rest = resolved(entries, init);
        lemma_resolved(entries, init);
        assert forall|x: Id| init.contains(x) implies order.contains(x) && x != last by {
            let k = choose|k: int| 0 <= k < init.len() && init[k] == x;
            assert(order[k] == x);
        }
        assert(order[order.len() - 1] == last);
        if has_key(entries, last) {
            let node = node_of(entries, last);
            lemma_index_of_held(entries, last);
            assert(node@.id() == last);
            assert(all == rest.push(node));
            assert forall|i: int| 0 <= i < all.len() implies {
                let found = #[trigger] all[i];
                &&& order.contains(found@.id())
                &&& has_key(entries, found@.id())
                &&& node_of(entries, found@.id()) == found
            } by {
                if i < rest.len() {
                    assert(all[i] == rest[i]);
                }
            }
            assert forall|i: int, j: int|
                0 <= i < all.len() && 0 <= j < all.len() && i != j implies (#[trigger] all[i])@.id()
                != (#[trigger] all[j])@.id() by {
                if i < rest.len() {
                    assert(all[i] == rest[i]);
                    assert(init.contains(rest[i]@.id()));
                }
                if j < rest.len() {
                    assert(all[j] == rest[j]);
                    assert(init.contains(rest[j]@.id()));
                }
            }
            assert forall|id: Id| order.contains(id) && #[trigger] has_key(
                entries,
                id,
            ) implies all.contains(node_of(entries, id)) by {
                if id == last {
                    assert(all[rest.len() as int] == node);
                } else {
                    let k = choose|k: int| 0 <= k < order.len() && order[k] == id;
                    assert(init[k] == id);
                    assert(rest.contains(node_of(entries, id)));
                    let a = choose|a: int| 0 <= a < rest.len() && rest[a] == node_of(entries, id);
                    assert(all[a] == rest[a]);
                }
            }
        } else {
            assert(all == rest);
            assert forall|id: Id| order.contains(id) && #[trigger] has_key(
                entries,
                id,
            ) implies all.contains(node_of(entries, id)) by {
                let k = choose|k: int| 0 <= k < order.len() && order[k] == id;
                assert(init[k] == id);
            }
        }
        if forall|k: int| 0 <= k < order.len() ==> has_key(entries, #[trigger] order[k]) {
            assert forall|k: int| 0 <= k < init.len() implies has_key(
                entries,
                #[trigger] init[k],
            ) by {
                assert(init[k] == order[k]);
            }
        }
    }
}

/// Nothing is forgotten, so every record survives.
proof fn lemma_survivors_of_none(entries: Seq<(Id, Node)>, gone: Set<Id>)
    ensures
        (forall|id: Id| !gone.contains(id)) ==> survivors(entries, gone) == entries,
{
    if forall|id: Id| !gone.contains(id) {
        assert(gone =~= Set::<Id>::empty());
        lemma_survivors_of_all(entries);
    }
}

/// A pass in which every report is `NoChange` leaves the three sets as they
/// were.
proof fn lemma_quiet_pass(before: Nodes, after: Nodes, reports: Map<Id, PolicyReport>)
    requires
        swept(before, reports, after),
    ensures
        (forall|id: Id| reports.dom().contains(id) ==> #[trigger] reports[id] == PolicyReport::NoChange)
            ==> after.membership() == before.membership(),
{
    if forall|id: Id| reports.dom().contains(id) ==> #[trigger] reports[id] == PolicyReport::NoChange {
        pass_without_change(before, after, reports);
    }
}

} // verus!
