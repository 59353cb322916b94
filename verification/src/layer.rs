//! What every view-construction strategy offers, and the builder of the
//! gossips sent to one recipient.
use vstd::prelude::*;
use crate::cache::{distinct_keys, has_key, index_of, keys_of, lemma_index_of_held, lemma_index_of_unique};
use crate::node::{Id, NodeProfile};
use crate::nodes::Nodes;
use crate::view::ViewBuilder;

verus! {

/// Collects the peers to tell one recipient about.
pub struct GossipsBuilder {
    recipient: Id,
    gossips: Vec<Id>,
}

impl GossipsBuilder {
    /// The peer the gossips are meant for.
    pub closed spec fn to(&self) -> Id {
        self.recipient
    }

    /// The peers added so far, in the order in which they came.
    pub closed spec fn told(&self) -> Seq<Id> {
        self.gossips@
    }

    pub fn new(recipient: Id) -> (builder: Self)
        ensures
            builder.to() == recipient,
            builder.told() == Seq::<Id>::empty(),
    {
        GossipsBuilder { recipient, gossips: Vec::new() }
    }

    pub fn recipient(&self) -> (recipient: &Id)
        ensures
            *recipient == self.to(),
    {
        &self.recipient
    }

    /// Adds one peer to tell the recipient about.
    pub fn add(&mut self, node: Id)
        ensures
            final(self).to() == old(self).to(),
            final(self).told() == old(self).told().push(node),
    {
        self.gossips.push(node);
    }

    /// The peers added so far.
    pub fn gossips(&self) -> (gossips: &Vec<Id>)
        ensures
            gossips@ == self.told(),
    {
        &self.gossips
    }
}

/// What a layer may do to the registry while it contributes to a view: it
/// may write to the logs of the records, and nothing else.
pub open spec fn only_logs_differ(before: Nodes, after: Nodes) -> bool {
    &&& after.capacity() == before.capacity()
    &&& after.membership() == before.membership()
    &&& keys_of(after.entries()) == keys_of(before.entries())
    &&& forall|i: int|
        0 <= i < before.entries().len() ==> {
            &&& (#[trigger] after.entries()[i]).1@.profile == before.entries()[i].1@.profile
            &&& after.entries()[i].1@.address == before.entries()[i].1@.address
        }
}

/// A strategy that keeps a view of its own over the registry and rebuilds
/// it every round: `reset`, then `populate`, then any number of `gossips`
/// and `view`.
pub trait Layer {
    /// A short name for the layer.
    fn alias(&self) -> &'static str;

    /// Empties the layer's own view.
    fn reset(&mut self);

    /// Rebuilds the layer's own view for the local peer `identity`.
    fn populate(&mut self, identity: &NodeProfile, all_nodes: &Nodes)
        requires
            all_nodes.wf(),
    ;

    /// Adds to `gossips_builder` the peers this layer would tell its
    /// recipient about.
    fn gossips(
        &mut self,
        identity: &NodeProfile,
        gossips_builder: &mut GossipsBuilder,
        all_nodes: &Nodes,
    )
        requires
            all_nodes.wf(),
        ensures
            final(gossips_builder).to() == old(gossips_builder).to(),
            old(gossips_builder).told().is_prefix_of(final(gossips_builder).told()),
    ;

    /// Adds the layer's own view to `view_builder`.
    fn view(&mut self, view_builder: &mut ViewBuilder, all_nodes: &mut Nodes)
        requires
            old(all_nodes).wf(),
        ensures
            final(all_nodes).wf(),
            only_logs_differ(*old(all_nodes), *final(all_nodes)),
            old(all_nodes).partitioned() ==> final(all_nodes).partitioned(),
            final(view_builder).chosen() == old(view_builder).chosen(),
            final(view_builder).event_origin() == old(view_builder).event_origin(),
            old(view_builder).pending().subset_of(final(view_builder).pending()),
            old(view_builder).ready().is_prefix_of(final(view_builder).ready()),
    ;
}

/// Writing to logs alone keeps the registry sound and partitioned.
pub proof fn lemma_only_logs_differ(before: Nodes, after: Nodes)
    requires
        before.wf(),
        only_logs_differ(before, after),
    ensures
        after.wf(),
        before.partitioned() ==> after.partitioned(),
{
    let e0 = before.entries();
    let e1 = after.entries();
    assert(e1.len() == keys_of(e1).len());
    assert(e0.len() == keys_of(e0).len());
    assert forall|i: int| 0 <= i < e0.len() implies (#[trigger] e1[i]).0 == e0[i].0 by {
        assert(keys_of(e1)[i] == keys_of(e0)[i]);
    }
    assert(distinct_keys(e1)) by {
        assert forall|a: int, b: int|
            0 <= a < e1.len() && 0 <= b < e1.len() && a != b implies (#[trigger] e1[a]).0 != (
        #[trigger] e1[b]).0 by {
            assert(e1[a].0 == e0[a].0 && e1[b].0 == e0[b].0);
        }
    }
    assert forall|i: int| 0 <= i < e1.len() implies (#[trigger] e1[i]).1@.id() == e1[i].0 by {
        assert(e0[i].1@.id() == e0[i].0);
    }
    assert forall|id: Id| has_key(e0, id) implies has_key(e1, id) && index_of(e1, id)
        == index_of(e0, id) by {
        let i = index_of(e0, id);
        assert(e1[i].0 == id);
        lemma_index_of_unique(e1, i);
    }
    assert forall|id: Id| has_key(e1, id) implies has_key(e0, id) by {
        let i = index_of(e1, id);
        assert(e0[i].0 == id);
    }
    if before.partitioned() {
        let m = before.membership();
        assert forall|id: Id| after.tracks(id) <==> #[trigger] m.contains(id) by {
            assert(before.tracks(id) <==> m.contains(id));
        }
        assert forall|id: Id| #[trigger] m.available.contains(id) implies after.node(
            id,
        )@.reachable() by {
            assert(m.contains(id));
            assert(before.tracks(id));
            lemma_index_of_held(e0, id);
        }
        assert forall|id: Id| #[trigger] m.not_reachable.contains(id) implies !after.node(
            id,
        )@.reachable() by {
            assert(m.contains(id));
            assert(before.tracks(id));
            lemma_index_of_held(e0, id);
        }
    }
}

} // verus!
