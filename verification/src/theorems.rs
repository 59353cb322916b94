//! What holds of the registry and of the choice of closest peers across
//! operations, stated over the models the contracts use.
use vstd::prelude::*;
use crate::cache::{
    index_of, keys_of, lemma_index_of_held, lemma_index_of_unique, lemma_promoted,
    lemma_push_front, lemma_remove, lemma_update, promoted,
};
use crate::node::{Id, Node, ProfileView};
use crate::nodes::{forgotten, lemma_survivors_of_all, modified, swept, Membership, Nodes};
use crate::policy::PolicyReport;
use crate::vicinity::{closest_of, ids_of, ranks};

verus! {

/// A registry in which the record of `id` was rewritten in place, or
/// rewritten and made the most recently used one, and nothing else changed:
/// what [`Nodes::peek_mut`] and [`Nodes::get_mut`] leave once the caller is
/// done with the reference.
pub open spec fn rewritten(before: Nodes, after: Nodes, id: Id, node: Node, used: bool) -> bool {
    let at = index_of(before.entries(), id);
    &&& after.capacity() == before.capacity()
    &&& after.membership() == before.membership()
    &&& after.entries() == if used {
        promoted(before.entries(), at, node)
    } else {
        before.entries().update(at, (id, node))
    }
}

/// Rewriting a record keeps the registry sound as long as the record keeps
/// its identifier, and keeps the partition as long as the peer is as
/// reachable as before. A caller that changes a peer's reachability must go
/// through [`crate::nodes::Entry::and_modify`], which moves the peer
/// between the sets.
pub proof fn rewriting_keeps_partition(before: Nodes, after: Nodes, id: Id, node: Node, used: bool)
    requires
        before.wf(),
        before.tracks(id),
        rewritten(before, after, id, node, used),
        node@.id() == id,
    ensures
        after.wf(),
        before.partitioned() && node@.reachable() == before.node(id)@.reachable()
            ==> after.partitioned(),
{
    let e0 = before.entries();
    let e1 = after.entries();
    let at = index_of(e0, id);
    lemma_index_of_held(e0, id);
    lemma_index_of_unique(e0, at);
    if used {
        lemma_promoted(e0, at, node);
        assert forall|i: int| 0 <= i < e1.len() implies (#[trigger] e1[i]).1@.id() == e1[i].0 by {
            if i > 0 {
                let rest = e0.remove(at);
                assert(e1[i] == rest[i - 1]);
                assert(rest[i - 1] == e0[if i - 1 < at {
                    i - 1
                } else {
                    i
                }]);
            }
        }
    } else {
        lemma_update(e0, at, node);
        assert forall|i: int| 0 <= i < e1.len() implies (#[trigger] e1[i]).1@.id() == e1[i].0 by {
            if i != at {
                assert(e1[i] == e0[i]);
            }
        }
    }
    assert(after.node(id) == node);
    if before.partitioned() && node@.reachable() == before.node(id)@.reachable() {
        let m = before.membership();
        assert forall|x: Id| after.tracks(x) <==> #[trigger] m.contains(x) by {
            assert(before.tracks(x) <==> m.contains(x));
        }
        assert forall|x: Id| #[trigger] m.available.contains(x) implies after.node(
            x,
        )@.reachable() by {
            assert(m.contains(x));
            assert(before.tracks(x));
        }
        assert forall|x: Id| #[trigger] m.not_reachable.contains(x) implies !after.node(
            x,
        )@.reachable() by {
            assert(m.contains(x));
            assert(before.tracks(x));
        }
    }
}

/// Filing a new peer in a full registry drops exactly the least recently
/// used record: that peer is tracked no more and is in none of the three
/// sets, every other peer is tracked as before, the new one is tracked, and
/// the registry is as full as it was.
pub proof fn insertion_evicts_least_recently_used(before: Nodes, after: Nodes, node: Node)
    requires
        before.wf(),
        before.entries().len() == before.capacity(),
        !before.tracks(node@.id()),
        after.entries() == seq![(node@.id(), node)] + before.kept_on_insert(),
        after.membership() == before.membership_on_insert(node@.id(), node@.reachable()),
        after.capacity() == before.capacity(),
    ensures
        after.entries().len() == after.capacity(),
        !after.tracks(before.entries().last().0),
        !after.membership().contains(before.entries().last().0),
        after.tracks(node@.id()),
        forall|id: Id|
            id != before.entries().last().0 && before.tracks(id) ==> #[trigger] after.tracks(id)
                && after.node(id) == before.node(id),
        forall|id: Id| #[trigger]
            after.tracks(id) ==> id == node@.id() || (before.tracks(id) && id
                != before.entries().last().0),
{
    let e0 = before.entries();
    let e1 = after.entries();
    let last = e0.len() - 1;
    let kept = before.kept_on_insert();
    lemma_index_of_unique(e0, last);
    assert(kept == e0.remove(last));
    lemma_remove(e0, last);
    lemma_push_front(kept, node@.id(), node);
}

/// A report decides alone where the peer it is about sits afterwards,
/// wherever the peer sat before: nowhere when it is forgotten, among the
/// quarantined peers only when it is quarantined, and when its quarantine is
/// lifted among the available peers only if it has an address, among the not
/// reachable ones only if it has none. No other peer moves, so sets that
/// were disjoint stay disjoint.
pub proof fn report_files_the_peer_once(
    sets: Membership,
    id: Id,
    report: PolicyReport,
    reachable: bool,
)
    ensures
        sets.after(id, report, reachable).status(id) == match report {
            PolicyReport::NoChange => sets.status(id),
            PolicyReport::Forget => (false, false, false),
            PolicyReport::Quarantine => (false, false, true),
            PolicyReport::LiftQuarantine => (reachable, !reachable, false),
        },
        forall|other: Id|
            other != id ==> #[trigger] sets.after(id, report, reachable).status(other)
                == sets.status(other),
        sets.disjoint() ==> sets.after(id, report, reachable).disjoint(),
{
    let after = sets.after(id, report, reachable);
    if sets.disjoint() {
        assert forall|x: Id|
            !(after.available.contains(x) && after.not_reachable.contains(x)) && !(
            after.available.contains(x) && after.quarantined.contains(x)) && !(
            after.not_reachable.contains(x) && after.quarantined.contains(x)) by {
            assert(!(sets.available.contains(x) && sets.not_reachable.contains(x)));
            assert(!(sets.available.contains(x) && sets.quarantined.contains(x)));
            assert(!(sets.not_reachable.contains(x) && sets.quarantined.contains(x)));
        }
    }
}

/// The three reports, one after another, on a peer that is available:
/// quarantine moves it to the quarantined peers and out of the available
/// ones; lifting the quarantine then files it as available if it has an
/// address and as not reachable if it has none; forgetting it takes it out
/// of every set.
pub proof fn reports_move_a_peer(sets: Membership, id: Id, reachable: bool)
    requires
        sets.disjoint(),
        sets.available.contains(id),
    ensures
        ({
            let held = sets.after(id, PolicyReport::Quarantine, reachable);
            &&& held.status(id) == (false, false, true)
            &&& held.disjoint()
        }),
        ({
            let held = sets.after(id, PolicyReport::Quarantine, reachable);
            let lifted = held.after(id, PolicyReport::LiftQuarantine, reachable);
            &&& lifted.status(id) == (reachable, !reachable, false)
            &&& lifted.disjoint()
        }),
        ({
            let held = sets.after(id, PolicyReport::Quarantine, reachable);
            let lifted = held.after(id, PolicyReport::LiftQuarantine, reachable);
            &&& !sets.after(id, PolicyReport::Forget, reachable).contains(id)
            &&& !held.after(id, PolicyReport::Forget, reachable).contains(id)
            &&& !lifted.after(id, PolicyReport::Forget, reachable).contains(id)
        }),
        forall|other: Id, report: PolicyReport|
            other != id ==> #[trigger] sets.after(id, report, reachable).status(other)
                == sets.status(other),
{
}

/// Forgetting a peer through its entry removes its record from the store
/// and its identifier from every set; every other peer stays tracked, with
/// its record.
pub proof fn forgetting_removes_the_peer(before: Nodes, after: Nodes, id: Id)
    requires
        before.wf(),
        before.tracks(id),
        modified(before, after, id, PolicyReport::Forget),
    ensures
        !after.tracks(id),
        !after.membership().contains(id),
        after.entries().len() == before.entries().len() - 1,
        forall|other: Id|
            other != id && before.tracks(other) ==> #[trigger] after.tracks(other) && after.node(
                other,
            ) == before.node(other),
{
    let e0 = before.entries();
    let at = index_of(e0, id);
    lemma_index_of_held(e0, id);
    lemma_index_of_unique(e0, at);
    lemma_remove(e0, at);
}

/// Two passes in a row in which the policy reports `NoChange` for every
/// peer leave the registry as it was: the same peers in the same order of
/// use, each with the profile and the address it had, and the same three
/// sets.
pub proof fn passes_without_change(
    first: Nodes,
    second: Nodes,
    third: Nodes,
    reports: Map<Id, PolicyReport>,
    again: Map<Id, PolicyReport>,
)
    requires
        swept(first, reports, second),
        swept(second, again, third),
        forall|id: Id| reports.dom().contains(id) ==> #[trigger] reports[id] == PolicyReport::NoChange,
        forall|id: Id| again.dom().contains(id) ==> #[trigger] again[id] == PolicyReport::NoChange,
    ensures
        keys_of(third.entries()) == keys_of(first.entries()),
        third.membership() == first.membership(),
        forall|id: Id| #[trigger] third.tracks(id) <==> first.tracks(id),
        forall|id: Id| #[trigger]
            first.tracks(id) ==> third.node(id)@.profile == first.node(id)@.profile && third.node(
                id,
            )@.address == first.node(id)@.address,
{
    pass_without_change(first, second, reports);
    pass_without_change(second, third, again);
    assert forall|id: Id| #[trigger] first.tracks(id) implies third.node(id)@.profile == first.node(
        id,
    )@.profile && third.node(id)@.address == first.node(id)@.address by {
        assert(second.tracks(id));
        assert(third.tracks(id));
    }
}

/// One pass in which the policy reports `NoChange` for every peer.
pub proof fn pass_without_change(before: Nodes, after: Nodes, reports: Map<Id, PolicyReport>)
    requires
        swept(before, reports, after),
        forall|id: Id| reports.dom().contains(id) ==> #[trigger] reports[id] == PolicyReport::NoChange,
    ensures
        keys_of(after.entries()) == keys_of(before.entries()),
        after.membership() == before.membership(),
        forall|id: Id| #[trigger] after.tracks(id) <==> before.tracks(id),
        forall|id: Id| #[trigger]
            before.tracks(id) ==> after.node(id)@.profile == before.node(id)@.profile && after.node(
                id,
            )@.address == before.node(id)@.address,
{
    assert(forgotten(reports) =~= Set::<Id>::empty());
    lemma_survivors_of_all(before.entries());
    let m0 = before.membership();
    let m1 = after.membership();
    assert forall|id: Id| #[trigger] after.tracks(id) <==> before.tracks(id) by {
        if before.tracks(id) {
            assert(reports.dom().contains(id));
            assert(reports[id] == PolicyReport::NoChange);
        }
    }
    assert forall|id: Id| m1.status(id) == m0.status(id) by {
        if before.tracks(id) {
            assert(reports.dom().contains(id));
            assert(reports[id] == PolicyReport::NoChange);
        }
    }
    assert(m1.available =~= m0.available) by {
        assert forall|id: Id| m1.available.contains(id) == m0.available.contains(id) by {
            assert(m1.status(id) == m0.status(id));
        }
    }
    assert(m1.not_reachable =~= m0.not_reachable) by {
        assert forall|id: Id| m1.not_reachable.contains(id) == m0.not_reachable.contains(id) by {
            assert(m1.status(id) == m0.status(id));
        }
    }
    assert(m1.quarantined =~= m0.quarantined) by {
        assert forall|id: Id| m1.quarantined.contains(id) == m0.quarantined.contains(id) by {
            assert(m1.status(id) == m0.status(id));
        }
    }
    assert forall|id: Id| #[trigger] before.tracks(id) implies after.node(id)@.profile
        == before.node(id)@.profile && after.node(id)@.address == before.node(id)@.address by {
        assert(after.tracks(id));
    }
}

/// Some candidate goes by the identifier `id`.
pub open spec fn names_candidate(candidates: Seq<Node>, id: Id) -> bool {
    exists|k: int| 0 <= k < candidates.len() && (#[trigger] candidates[k])@.id() == id
}

/// Some candidate that goes by `near` is at most as far from `to` as some
/// candidate that goes by `far`.
pub open spec fn not_farther(to: ProfileView, candidates: Seq<Node>, near: Id, far: Id) -> bool {
    exists|a: int, b: int|
        {
            &&& 0 <= a < candidates.len() && 0 <= b < candidates.len()
            &&& (#[trigger] candidates[a])@.id() == near
            &&& (#[trigger] candidates[b])@.id() == far
            &&& to.proximity(candidates[a]@.profile) <= to.proximity(candidates[b]@.profile)
        }
}

/// The closest peers are chosen among the candidates: as many as `max` and
/// the number of candidates allow, each the identifier of a candidate, from
/// the closest to `to` to the farthest. So a peer that is not among the
/// candidates, such as the target itself once the caller has left it out, is
/// never chosen.
pub proof fn closest_come_from_candidates(
    to: ProfileView,
    candidates: Seq<Node>,
    max: nat,
    closest: Seq<Id>,
    target: Id,
)
    requires
        closest_of(to, candidates, max, closest),
    ensures
        closest.len() == if max < candidates.len() {
            max
        } else {
            candidates.len()
        },
        forall|i: int| 0 <= i < closest.len() ==> names_candidate(candidates, #[trigger] closest[i]),
        !names_candidate(candidates, target) ==> !closest.contains(target),
        forall|i: int, j: int|
            0 <= i <= j < closest.len() ==> not_farther(
                to,
                candidates,
                #[trigger] closest[i],
                #[trigger] closest[j],
            ),
{
    let ranked = choose|ranked: Seq<Node>| #[trigger]
        ranks(to, candidates, ranked) && closest == ids_of(
            ranked.take(
                if max < ranked.len() {
                    max as int
                } else {
                    ranked.len() as int
                },
            ),
        );
    let taken = if max < ranked.len() {
        max as int
    } else {
        ranked.len() as int
    };
    vstd::seq_lib::to_multiset_len(candidates);
    vstd::seq_lib::to_multiset_len(ranked);
    assert forall|i: int| 0 <= i < closest.len() implies closest[i] == ranked[i]@.id()
        && candidates.contains(#[trigger] ranked[i]) by {
        assert(ranked.take(taken)[i] == ranked[i]);
        assert(ranked.contains(ranked[i]));
        vstd::seq_lib::to_multiset_contains(ranked, ranked[i]);
        vstd::seq_lib::to_multiset_contains(candidates, ranked[i]);
    }
    assert forall|i: int| 0 <= i < closest.len() implies names_candidate(
        candidates,
        #[trigger] closest[i],
    ) by {
        assert(candidates.contains(ranked[i]));
        let k = choose|k: int| 0 <= k < candidates.len() && candidates[k] == ranked[i];
        assert(candidates[k]@.id() == closest[i]);
    }
    if closest.contains(target) {
        let i = choose|i: int| 0 <= i < closest.len() && closest[i] == target;
        assert(names_candidate(candidates, closest[i]));
    }
    assert forall|i: int, j: int| 0 <= i <= j < closest.len() implies not_farther(
        to,
        candidates,
        #[trigger] closest[i],
        #[trigger] closest[j],
    ) by {
        assert(candidates.contains(ranked[i]));
        assert(candidates.contains(ranked[j]));
        let a = choose|a: int| 0 <= a < candidates.len() && candidates[a] == ranked[i];
        let b = choose|b: int| 0 <= b < candidates.len() && candidates[b] == ranked[j];
        assert(candidates[a]@.id() == closest[i]);
        assert(candidates[b]@.id() == closest[j]);
        assert(to.proximity(ranked[i]@.profile) <= to.proximity(ranked[j]@.profile));
    }
}

} // verus!
