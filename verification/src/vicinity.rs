//! The vicinity layer: links to peers chosen for their closeness in
//! interests.
use vstd::prelude::*;
use rand::seq::SliceRandom;
use rayon::slice::ParallelSliceMut;
use std::cmp::Ordering;
use vstd::std_specs::hash::spec_hash_keys_iter;
use vstd::std_specs::iter::IteratorSpec;
use crate::cache::{
    distinct_keys, has_key, index_of, keys_of, lemma_index_of_held, lemma_index_of_unique, node_of,
};
use crate::layer::{lemma_only_logs_differ, only_logs_differ, GossipsBuilder, Layer};
use crate::node::{Id, Node, NodeProfile, NodeView, ProfileView};
use crate::nodes::{is_listing, lemma_resolved, resolved, Nodes};
use crate::view::{selected, Selection, ViewBuilder};

verus! {

/// The most peers a vicinity view holds.
pub const VICINITY_MAX_VIEW_SIZE: usize = 20;

/// The most peers the vicinity layer tells one recipient about.
pub const VICINITY_MAX_GOSSIP_LENGTH: usize = 10;

/// The identifiers of `nodes`, in order.
pub open spec fn ids_of(nodes: Seq<Node>) -> Seq<Id> {
    Seq::new(nodes.len(), |i: int| nodes[i]@.id())
}

/// `nodes` go from the closest to `to` to the farthest.
pub open spec fn by_proximity(to: ProfileView, nodes: Seq<Node>) -> bool {
    forall|i: int, j: int|
        0 <= i <= j < nodes.len() ==> to.proximity((#[trigger] nodes[i])@.profile) <= to.proximity(
            (#[trigger] nodes[j])@.profile,
        )
}

/// `ranked` holds the `candidates`, each as often as it came, from the
/// closest to `to` to the farthest.
pub open spec fn ranks(to: ProfileView, candidates: Seq<Node>, ranked: Seq<Node>) -> bool {
    ranked.to_multiset() == candidates.to_multiset() && by_proximity(to, ranked)
}

/// `closest` names the first `max` of the candidates in some ranking by
/// proximity to `to`, or all of them if they are fewer. Which of several
/// candidates at the same distance come first is left open.
pub open spec fn closest_of(
    to: ProfileView,
    candidates: Seq<Node>,
    max: nat,
    closest: Seq<Id>,
) -> bool {
    exists|ranked: Seq<Node>| #[trigger]
        ranks(to, candidates, ranked) && closest == ids_of(
            ranked.take(
                if max < ranked.len() {
                    max as int
                } else {
                    ranked.len() as int
                },
            ),
        )
}

/// Calls `SliceRandom::shuffle` with the thread's random number generator:
/// the same records in an order left to chance.
#[verifier::external_body]
fn shuffle<'a>(profiles: &mut Vec<&'a Node>)
    ensures
        final(profiles)@.unref().to_multiset() == old(profiles)@.unref().to_multiset(),
{
    profiles.shuffle(&mut rand::thread_rng());
}

/// Calls `ParallelSliceMut::par_sort_unstable_by` with [`closer`] as the
/// comparator: the same records, from the closest to `to` to the farthest.
/// The sort is not stable, so nothing is said of the order among records at
/// the same distance.
#[verifier::external_body]
fn sort_by_proximity<'a>(to: &NodeProfile, profiles: &mut Vec<&'a Node>)
    ensures
        ranks(to@, old(profiles)@.unref(), final(profiles)@.unref()),
{
    profiles.par_sort_unstable_by(|left, right| closer(to, left, right));
}

/// Compares two peers by their distance from `to`.
pub fn closer(to: &NodeProfile, left: &Node, right: &Node) -> (order: Ordering)
    ensures
        match order {
            Ordering::Less => to@.proximity(left@.profile) < to@.proximity(right@.profile),
            Ordering::Equal => to@.proximity(left@.profile) == to@.proximity(right@.profile),
            Ordering::Greater => to@.proximity(left@.profile) > to@.proximity(right@.profile),
        },
{
    let near = to.proximity(left.profile());
    let far = to.proximity(right.profile());
    if near < far {
        Ordering::Less
    } else if near == far {
        Ordering::Equal
    } else {
        Ordering::Greater
    }
}

/// `candidates` are the records of the available peers of `nodes` other than
/// `excluded`, each once, in some order.
pub open spec fn candidates_for(nodes: Nodes, excluded: Id, candidates: Seq<Node>) -> bool {
    exists|order: Seq<Id>|
        is_listing(order, nodes.membership().available.remove(excluded)) && candidates
            == #[trigger] resolved(nodes.entries(), order)
}

/// `closest` names the `max` available peers of `nodes` closest to `to`,
/// `excluded` left aside, closest first.
pub open spec fn closest_available(
    nodes: Nodes,
    to: ProfileView,
    excluded: Id,
    max: nat,
    closest: Seq<Id>,
) -> bool {
    exists|candidates: Seq<Node>| #[trigger]
        candidates_for(nodes, excluded, candidates) && closest_of(to, candidates, max, closest)
}

/// Those of `ids` that `entries` holds.
pub open spec fn held_among(entries: Seq<(Id, Node)>, ids: Seq<Id>) -> Set<Id> {
    Set::new(|id: Id| ids.contains(id) && has_key(entries, id))
}

/// How often `id` occurs in `ids`.
pub open spec fn occurrences(ids: Seq<Id>, id: Id) -> nat
    decreases ids.len(),
{
    if ids.len() == 0 {
        0
    } else {
        occurrences(ids.drop_last(), id) + if ids.last() == id {
            1nat
        } else {
            0nat
        }
    }
}

/// A record after it entered `times` views made under `selection`.
pub open spec fn used_for(node: NodeView, selection: Selection, times: nat) -> NodeView
    decreases times,
{
    if times == 0 {
        node
    } else {
        selected(used_for(node, selection, (times - 1) as nat), selection)
    }
}

/// The registry after the peers named by `links` entered a view made under
/// `selection`: the same records in the same order, those named with the
/// use noted in their log once for each time they are named.
pub open spec fn viewed(before: Nodes, after: Nodes, links: Seq<Id>, selection: Selection) -> bool {
    &&& after.entries().len() == before.entries().len()
    &&& forall|i: int|
        0 <= i < before.entries().len() ==> {
            &&& (#[trigger] after.entries()[i]).0 == before.entries()[i].0
            &&& after.entries()[i].1@ == used_for(
                before.entries()[i].1@,
                selection,
                occurrences(links, before.entries()[i].0),
            )
        }
}

/// Interest-induced random links: peers picked among those that are closest
/// to the local peer in what they subscribe to.
#[derive(Clone, Debug)]
pub struct Vicinity {
    view: Vec<Id>,
}

impl Vicinity {
    /// The peers of the layer's own view, closest first.
    pub closed spec fn links(&self) -> Seq<Id> {
        self.view@
    }

    /// The peers of the layer's own view, closest first.
    pub fn peers(&self) -> (peers: &Vec<Id>)
        ensures
            peers@ == self.links(),
    {
        &self.view
    }

    /// Picks, among `profiles`, the `max` peers closest to `to` and returns
    /// their identifiers, closest first.
    ///
    /// The candidates are shuffled before they are sorted. They arrive in an
    /// order that is much the same for every peer, and sorting that order by
    /// distance alone would lead every peer to the same choice among
    /// candidates at the same distance; the shuffle makes that choice differ
    /// from peer to peer and from round to round.
    pub fn select_closest_nodes(
        &self,
        to: &NodeProfile,
        profiles: Vec<&Node>,
        max: usize,
    ) -> (closest: Vec<Id>)
        ensures
            closest_of(to@, profiles@.unref(), max as nat, closest@),
            closest@.len() == if max < profiles@.len() {
                max as nat
            } else {
                profiles@.len()
            },
    {
        let mut profiles = profiles;
        let ghost candidates = profiles@.unref();
        shuffle(&mut profiles);
        let ghost shuffled = profiles@.unref();
        // The candidates can be many: sort them in parallel.
        sort_by_proximity(to, &mut profiles);
        let ghost ranked = profiles@.unref();
        proof {
            vstd::seq_lib::to_multiset_len(candidates);
            vstd::seq_lib::to_multiset_len(shuffled);
            vstd::seq_lib::to_multiset_len(ranked);
            assert(ranks(to@, candidates, ranked));
        }
        let mut closest: Vec<Id> = Vec::new();
        let mut i: usize = 0;
        while i < profiles.len() && i < max
            invariant
                i <= profiles.len(),
                i <= max,
                ranked == profiles@.unref(),
                closest@ == ids_of(ranked.take(i as int)),
            decreases profiles.len() - i,
        {
            closest.push(*profiles[i].id());
            proof {
                assert(ranked.take(i + 1) == ranked.take(i as int).push(ranked[i as int]));
                assert(closest@ =~= ids_of(ranked.take(i + 1)));
            }
            i += 1;
        }
        closest
    }

    /// The records of the available peers other than `excluded`.
    fn candidates<'a>(all_nodes: &'a Nodes, excluded: &Id) -> (found: Vec<&'a Node>)
        ensures
            candidates_for(*all_nodes, *excluded, found@.unref()),
    {
        let available = all_nodes.available_nodes();
        let mut found: Vec<&'a Node> = Vec::new();
        let ghost order: Seq<Id> = spec_hash_keys_iter(available).remaining().unref();
        let ghost mut kept: Seq<Id> = Seq::empty();
        for id in it: available.iter()
            invariant
                it.seq().unref() == order,
                order.no_duplicates(),
                kept.no_duplicates(),
                kept.to_set() == order.take(it.index()).to_set().remove(*excluded),
                found@.unref() == resolved(all_nodes.entries(), kept),
        {
            proof {
                let next = order.take(it.index() + 1);
                assert(next.drop_last() == order.take(it.index()));
                assert(next.last() == *id);
                assert(next.to_set() =~= order.take(it.index()).to_set().insert(*id)) by {
                    assert forall|x: Id| next.to_set().contains(x) implies order.take(
                        it.index(),
                    ).to_set().insert(*id).contains(x) by {
                        let a = choose|a: int| 0 <= a < next.len() && next[a] == x;
                        if a < it.index() {
                            assert(order.take(it.index())[a] == x);
                        }
                    }
                    assert forall|x: Id|
                        order.take(it.index()).to_set().insert(*id).contains(
                            x,
                        ) implies next.to_set().contains(x) by {
                        if x == *id {
                            assert(next[it.index()] == x);
                        } else {
                            let a = choose|a: int|
                                0 <= a < order.take(it.index()).len() && order.take(it.index())[a]
                                    == x;
                            assert(next[a] == x);
                        }
                    }
                }
                assert(!order.take(it.index()).to_set().contains(*id)) by {
                    if order.take(it.index()).to_set().contains(*id) {
                        let a = choose|a: int|
                            0 <= a < order.take(it.index()).len() && order.take(it.index())[a]
                                == *id;
                        assert(order[a] == order[it.index()]);
                    }
                }
            }
            if *id != *excluded {
                proof {
                    let longer = kept.push(*id);
                    assert(longer.drop_last() == kept);
                    assert(longer.last() == *id);
                    assert(longer.to_set() =~= kept.to_set().insert(*id)) by {
                        assert forall|x: Id| longer.to_set().contains(x) implies kept.to_set().insert(
                            *id,
                        ).contains(x) by {
                            let a = choose|a: int| 0 <= a < longer.len() && longer[a] == x;
                            if a < kept.len() {
                                assert(kept[a] == x);
                            }
                        }
                        assert forall|x: Id|
                            kept.to_set().insert(*id).contains(x) implies longer.to_set().contains(
                            x,
                        ) by {
                            if x == *id {
                                assert(longer[kept.len() as int] == x);
                            } else {
                                let a = choose|a: int| 0 <= a < kept.len() && kept[a] == x;
                                assert(longer[a] == x);
                            }
                        }
                    }
                    assert(longer.no_duplicates()) by {
                        assert forall|a: int, b: int|
                            0 <= a < longer.len() && 0 <= b < longer.len() && a != b implies longer[a]
                            != longer[b] by {
                            if a == kept.len() {
                                assert(kept.to_set().contains(kept[b]));
                            }
                            if b == kept.len() {
                                assert(kept.to_set().contains(kept[a]));
                            }
                        }
                    }
                    kept = longer;
                }
                if let Some(node) = all_nodes.peek(id) {
                    found.push(node);
                    assert(found@.unref() == resolved(all_nodes.entries(), kept.drop_last()).push(
                        *node,
                    ));
                }
            }
        }
        proof {
            assert(order.take(order.len() as int) == order);
            assert(is_listing(kept, all_nodes.membership().available.remove(*excluded)));
        }
        found
    }
}

impl Default for Vicinity {
    fn default() -> (vicinity: Self)
        ensures
            vicinity.links() == Seq::<Id>::empty(),
    {
        Vicinity { view: Vec::new() }
    }
}

impl Layer for Vicinity {
    fn alias(&self) -> (alias: &'static str)
        ensures
            alias@ == "vicinity"@,
    {
        "vicinity"
    }

    /// Empties the view; called once per round, before `populate`.
    fn reset(&mut self)
        ensures
            final(self).links() == Seq::<Id>::empty(),
    {
        self.view.clear()
    }

    /// Rebuilds the view: the available peers closest to `identity`, the
    /// local peer itself left aside, at most [`VICINITY_MAX_VIEW_SIZE`] of
    /// them, closest first.
    fn populate(&mut self, identity: &NodeProfile, all_nodes: &Nodes)
        ensures
            closest_available(
                *all_nodes,
                identity@,
                identity@.id,
                VICINITY_MAX_VIEW_SIZE as nat,
                final(self).links(),
            ),
            picks_closest(
                *all_nodes,
                identity@,
                identity@.id,
                VICINITY_MAX_VIEW_SIZE as nat,
                final(self).links(),
            ),
    {
        self.view =
        self.select_closest_nodes(
            identity,
            Self::candidates(all_nodes, identity.id()),
            VICINITY_MAX_VIEW_SIZE,
        );
        proof {
            lemma_closest_available(
                *all_nodes,
                identity@,
                identity@.id,
                VICINITY_MAX_VIEW_SIZE as nat,
                self.links(),
            );
        }
    }

    /// Tells the builder's recipient about the available peers closest to
    /// the recipient, itself left aside, at most
    /// [`VICINITY_MAX_GOSSIP_LENGTH`] of them, closest first. Nothing is
    /// added for a recipient the registry does not track.
    fn gossips(
        &mut self,
        _identity: &NodeProfile,
        gossips_builder: &mut GossipsBuilder,
        all_nodes: &Nodes,
    )
        ensures
            final(self).links() == old(self).links(),
            !all_nodes.tracks(old(gossips_builder).to()) ==> final(gossips_builder).told() == old(
                gossips_builder,
            ).told(),
            all_nodes.tracks(old(gossips_builder).to()) ==> exists|added: Seq<Id>|
                {
                    &&& #[trigger] closest_available(
                        *all_nodes,
                        all_nodes.node(old(gossips_builder).to())@.profile,
                        old(gossips_builder).to(),
                        VICINITY_MAX_GOSSIP_LENGTH as nat,
                        added,
                    )
                    &&& picks_closest(
                        *all_nodes,
                        all_nodes.node(old(gossips_builder).to())@.profile,
                        old(gossips_builder).to(),
                        VICINITY_MAX_GOSSIP_LENGTH as nat,
                        added,
                    )
                    &&& final(gossips_builder).told() == old(gossips_builder).told() + added
                },
    {
        if let Some(recipient) = all_nodes.peek(gossips_builder.recipient()) {
            let gossips = self.select_closest_nodes(
                recipient.profile(),
                Self::candidates(all_nodes, gossips_builder.recipient()),
                VICINITY_MAX_GOSSIP_LENGTH,
            );
            proof {
                lemma_closest_available(
                    *all_nodes,
                    recipient@.profile,
                    gossips_builder.to(),
                    VICINITY_MAX_GOSSIP_LENGTH as nat,
                    gossips@,
                );
            }
            let mut i: usize = 0;
            while i < gossips.len()
                invariant
                    i <= gossips.len(),
                    gossips_builder.to() == old(gossips_builder).to(),
                    gossips_builder.told() == old(gossips_builder).told() + gossips@.take(i as int),
                    all_nodes.tracks(old(gossips_builder).to()),
                    recipient@.profile == all_nodes.node(old(gossips_builder).to())@.profile,
                    closest_available(
                        *all_nodes,
                        recipient@.profile,
                        old(gossips_builder).to(),
                        VICINITY_MAX_GOSSIP_LENGTH as nat,
                        gossips@,
                    ),
                    picks_closest(
                        *all_nodes,
                        recipient@.profile,
                        old(gossips_builder).to(),
                        VICINITY_MAX_GOSSIP_LENGTH as nat,
                        gossips@,
                    ),
                decreases gossips.len() - i,
            {
                gossips_builder.add(gossips[i]);
                proof {
                    assert(gossips@.take(i + 1) == gossips@.take(i as int).push(gossips@[i as int]));
                    assert(gossips_builder.told() == old(gossips_builder).told() + gossips@.take(
                        i + 1,
                    ));
                }
                i += 1;
            }
            proof {
                assert(gossips@.take(gossips.len() as int) == gossips@);
            }
        }
    }

    /// Contributes the view to `view_builder`: every peer of the view that
    /// the registry still tracks is added by its record; a peer that was
    /// dropped since the view was built is passed over.
    fn view(&mut self, view_builder: &mut ViewBuilder, all_nodes: &mut Nodes)
        ensures
            final(self).links() == old(self).links(),
            viewed(*old(all_nodes), *final(all_nodes), old(self).links(), old(view_builder).chosen()),
            final(view_builder).pending() == old(view_builder).pending().union(
                held_among(old(all_nodes).entries(), old(self).links()),
            ),
            final(view_builder).ready() == old(view_builder).ready(),
    {
        let ghost before = *all_nodes;
        let ghost e0 = before.entries();
        let ghost selection = view_builder.chosen();
        let ghost links = self.view@;
        let mut i: usize = 0;
        while i < self.view.len()
            invariant
                i <= self.view.len(),
                links == self.view@,
                before == *old(all_nodes),
                e0 == before.entries(),
                before.wf(),
                selection == old(view_builder).chosen(),
                view_builder.chosen() == selection,
                view_builder.event_origin() == old(view_builder).event_origin(),
                view_builder.ready() == old(view_builder).ready(),
                view_builder.pending() == old(view_builder).pending().union(
                    held_among(e0, links.take(i as int)),
                ),
                all_nodes.capacity() == before.capacity(),
                all_nodes.membership() == before.membership(),
                viewed(before, *all_nodes, links.take(i as int), selection),
            decreases self.view.len() - i,
        {
            let id = self.view[i];
            let ghost current = all_nodes.entries();
            let ghost pending = view_builder.pending();
            proof {
                let next = links.take(i + 1);
                assert(next.drop_last() == links.take(i as int));
                assert(next.last() == id);
                assert(distinct_keys(current)) by {
                    assert forall|a: int, b: int|
                        0 <= a < current.len() && 0 <= b < current.len() && a != b implies (
                    #[trigger] current[a]).0 != (#[trigger] current[b]).0 by {
                        assert(current[a].0 == e0[a].0 && current[b].0 == e0[b].0);
                    }
                }
                assert(has_key(current, id) <==> has_key(e0, id)) by {
                    if has_key(current, id) {
                        let a = index_of(current, id);
                        assert(e0[a].0 == id);
                    }
                    if has_key(e0, id) {
                        let a = index_of(e0, id);
                        assert(current[a].0 == id);
                    }
                }
                if has_key(current, id) {
                    lemma_index_of_held(current, id);
                }
                assert forall|x: Id| next.contains(x) <==> links.take(i as int).contains(x) || x
                    == id by {
                    let shorter = links.take(i as int);
                    if next.contains(x) {
                        let a = choose|a: int| 0 <= a < next.len() && next[a] == x;
                        if a < i {
                            assert(shorter[a] == x);
                        }
                    }
                    if shorter.contains(x) {
                        let a = choose|a: int| 0 <= a < shorter.len() && shorter[a] == x;
                        assert(next[a] == x);
                    }
                    if x == id {
                        assert(next[i as int] == x);
                    }
                }
                assert(held_among(e0, next) =~= held_among(e0, links.take(i as int)).union(
                    if has_key(e0, id) {
                        set![id]
                    } else {
                        Set::empty()
                    },
                ));
            }
            if let Some(node) = all_nodes.peek_mut(&id) {
                view_builder.add(node);
            }
            proof {
                let now = all_nodes.entries();
                let next = links.take(i + 1);
                assert forall|j: int| 0 <= j < e0.len() implies (#[trigger] now[j]).0 == e0[j].0
                    && now[j].1@ == used_for(e0[j].1@, selection, occurrences(next, e0[j].0)) by {
                    assert(current[j].0 == e0[j].0);
                    assert(current[j].1@ == used_for(
                        e0[j].1@,
                        selection,
                        occurrences(links.take(i as int), e0[j].0),
                    ));
                    if has_key(current, id) {
                        let at = index_of(current, id);
                        lemma_index_of_unique(current, j);
                    }
                }
                if has_key(e0, id) {
                    lemma_index_of_held(e0, id);
                    assert(current[index_of(e0, id)].1@.id() == id) by {
                        lemma_used_for(
                            e0[index_of(e0, id)].1@,
                            selection,
                            occurrences(links.take(i as int), id),
                        );
                    }
                }
                assert(view_builder.pending() =~= old(view_builder).pending().union(
                    held_among(e0, next),
                ));
            }
            i += 1;
        }
        proof {
            assert(links.take(links.len() as int) == links);
            lemma_viewed(before, *all_nodes, links, selection);
            lemma_only_logs_differ(before, *all_nodes);
            assert(old(view_builder).pending().subset_of(view_builder.pending()));
        }
    }
}

/// What the peers named by `closest` are to the registry: at most `max`
/// available peers, none named twice and none of them `excluded`, from the
/// closest to `to` to the farthest, and no available peer left out is
/// closer than one that is named. When the sets partition the tracked
/// peers, as many are named as `max` and the number of available peers
/// allow.
pub open spec fn picks_closest(
    nodes: Nodes,
    to: ProfileView,
    excluded: Id,
    max: nat,
    closest: Seq<Id>,
) -> bool {
    let available = nodes.membership().available;
    &&& closest.len() <= max
    &&& closest.no_duplicates()
    &&& forall|i: int|
        0 <= i < closest.len() ==> {
            &&& #[trigger] closest[i] != excluded
            &&& available.contains(closest[i])
            &&& nodes.tracks(closest[i])
        }
    &&& forall|i: int, j: int|
        0 <= i <= j < closest.len() ==> to.proximity(nodes.node(#[trigger] closest[i])@.profile)
            <= to.proximity(nodes.node(#[trigger] closest[j])@.profile)
    &&& forall|i: int, id: Id|
        0 <= i < closest.len() && #[trigger] available.contains(id) && id != excluded
            && nodes.tracks(id) && !closest.contains(id) ==> to.proximity(
            nodes.node(#[trigger] closest[i])@.profile,
        ) <= to.proximity(nodes.node(id)@.profile)
    &&& nodes.partitioned() ==> closest.len() == if max < available.remove(excluded).len() {
        max
    } else {
        available.remove(excluded).len()
    }
}

/// Noting a use in the log leaves a record's profile and address alone.
pub proof fn lemma_used_for(node: NodeView, selection: Selection, times: nat)
    ensures
        used_for(node, selection, times).profile == node.profile,
        used_for(node, selection, times).address == node.address,
    decreases times,
{
    if times > 0 {
        lemma_used_for(node, selection, (times - 1) as nat);
    }
}

/// Contributing a view touches nothing but logs.
pub proof fn lemma_viewed(before: Nodes, after: Nodes, links: Seq<Id>, selection: Selection)
    requires
        viewed(before, after, links, selection),
        after.capacity() == before.capacity(),
        after.membership() == before.membership(),
    ensures
        only_logs_differ(before, after),
{
    assert(keys_of(after.entries()) =~= keys_of(before.entries()));
    assert forall|i: int| 0 <= i < before.entries().len() implies (#[trigger] after.entries()[i]).1@.profile
        == before.entries()[i].1@.profile && after.entries()[i].1@.address
        == before.entries()[i].1@.address by {
        lemma_used_for(
            before.entries()[i].1@,
            selection,
            occurrences(links, before.entries()[i].0),
        );
    }
}

/// The closest available peers, as chosen through a ranking of their
/// records, are what [`picks_closest`] says of them.
pub proof fn lemma_closest_available(
    nodes: Nodes,
    to: ProfileView,
    excluded: Id,
    max: nat,
    closest: Seq<Id>,
)
    requires
        nodes.wf(),
        closest_available(nodes, to, excluded, max, closest),
    ensures
        picks_closest(nodes, to, excluded, max, closest),
{
    let entries = nodes.entries();
    let available = nodes.membership().available;
    let pool = available.remove(excluded);
    let candidates = choose|candidates: Seq<Node>| #[trigger]
        candidates_for(nodes, excluded, candidates) && closest_of(to, candidates, max, closest);
    let order = choose|order: Seq<Id>|
        is_listing(order, pool) && candidates == #[trigger] resolved(entries, order);
    let ranked = choose|ranked: Seq<Node>| #[trigger]
        ranks(to, candidates, ranked) && closest == ids_of(
            ranked.take(
                if max < ranked.len() {
                    max as int
                } else {
                    ranked.len() as int
                },
            ),
        );
    let taken = if max < ranked.len() {
        max as int
    } else {
        ranked.len() as int
    };
    lemma_resolved(entries, order);
    vstd::seq_lib::to_multiset_len(candidates);
    vstd::seq_lib::to_multiset_len(ranked);
    assert(ranked.len() == candidates.len());
    // The candidates are distinct records, so the ranking holds each once.
    assert(candidates.no_duplicates());
    candidates.lemma_multiset_has_no_duplicates();
    ranked.lemma_multiset_has_no_duplicates_conv();
    assert forall|i: int| 0 <= i < ranked.len() implies candidates.contains(
        #[trigger] ranked[i],
    ) by {
        assert(ranked.contains(ranked[i]));
        vstd::seq_lib::to_multiset_contains(ranked, ranked[i]);
        vstd::seq_lib::to_multiset_contains(candidates, ranked[i]);
    }
    // A ranked record is the record the registry holds for its identifier.
    assert forall|i: int| 0 <= i < ranked.len() implies {
        let id = (#[trigger] ranked[i])@.id();
        &&& pool.contains(id)
        &&& has_key(entries, id)
        &&& node_of(entries, id) == ranked[i]
    } by {
        let a = choose|a: int| 0 <= a < candidates.len() && candidates[a] == ranked[i];
        assert(order.contains(candidates[a]@.id()));
    }
    assert forall|i: int| 0 <= i < closest.len() implies (#[trigger] closest[i]) == ranked[i]@.id()
        && nodes.node(closest[i]) == ranked[i] by {
        assert(ranked.take(taken)[i] == ranked[i]);
    }
    assert(closest.no_duplicates()) by {
        assert forall|i: int, j: int|
            0 <= i < closest.len() && 0 <= j < closest.len() && i != j implies closest[i]
            != closest[j] by {
            if closest[i] == closest[j] {
                assert(nodes.node(closest[i]) == ranked[i]);
                assert(nodes.node(closest[j]) == ranked[j]);
            }
        }
    }
    assert forall|i: int, j: int| 0 <= i <= j < closest.len() implies to.proximity(
        nodes.node(#[trigger] closest[i])@.profile,
    ) <= to.proximity(nodes.node(#[trigger] closest[j])@.profile) by {
        assert(nodes.node(closest[i]) == ranked[i]);
        assert(nodes.node(closest[j]) == ranked[j]);
    }
    assert forall|i: int, id: Id|
        0 <= i < closest.len() && #[trigger] available.contains(id) && id != excluded
            && nodes.tracks(id) && !closest.contains(id) implies to.proximity(
        nodes.node(#[trigger] closest[i])@.profile,
    ) <= to.proximity(nodes.node(id)@.profile) by {
        assert(pool.contains(id));
        assert(order.contains(id));
        let node = node_of(entries, id);
        assert(candidates.contains(node));
        vstd::seq_lib::to_multiset_contains(candidates, node);
        vstd::seq_lib::to_multiset_contains(ranked, node);
        let k = choose|k: int| 0 <= k < ranked.len() && ranked[k] == node;
        lemma_index_of_held(entries, id);
        assert(node@.id() == id);
        if k < taken {
            assert(closest[k] == id);
        }
        assert(nodes.node(closest[i]) == ranked[i]);
    }
    if nodes.partitioned() {
        assert forall|k: int| 0 <= k < order.len() implies has_key(entries, #[trigger] order[k]) by {
            assert(order.to_set().contains(order[k]));
            assert(nodes.membership().contains(order[k]));
        }
        order.unique_seq_to_set();
    }
}

} // verus!
