//! Assembling the peer list handed to one requesting peer.
use vstd::prelude::*;
use std::collections::HashSet;
use vstd::std_specs::hash::spec_hash_keys_iter;
use vstd::std_specs::iter::IteratorSpec;
use crate::cache::{has_key, node_of};
use crate::node::{Id, LogEvent, Node, NodeInfo, Topic};
use crate::nodes::{
    is_listing, lemma_resolved, lemma_same_records_partitioned, lemma_touched, resolved,
    same_records, touched, Nodes,
};

verus! {

/// Which peers a view is made of.
#[derive(Debug, Copy, Clone, PartialEq, Eq, Structural)]
pub enum Selection {
    /// Peers used for `topic`; a peer that enters the view has the use
    /// noted in its log.
    Topic { topic: Topic },
    /// Any peer.
    Any,
}

/// Collects the peers of one view: identifiers still to be resolved against
/// the registry, and snapshots that are ready as they are.
pub struct ViewBuilder {
    event_origin: Option<Id>,
    selection: Selection,
    view: HashSet<Id>,
    view_info: Vec<NodeInfo>,
}

/// The snapshots of `nodes`, in order.
pub open spec fn infos_of(nodes: Seq<Node>) -> Seq<NodeInfo> {
    Seq::new(nodes.len(), |i: int| nodes[i]@.info())
}

/// What a peer's record is after it entered a view made under `selection`.
pub open spec fn selected(node: crate::node::NodeView, selection: Selection) -> crate::node::NodeView {
    match selection {
        Selection::Topic { topic } => node.logged(LogEvent::TopicUsed { topic }),
        Selection::Any => node,
    }
}

impl ViewBuilder {
    /// The peer the view is built for an event of, if one was named.
    pub closed spec fn event_origin(&self) -> Option<Id> {
        self.event_origin
    }

    pub closed spec fn chosen(&self) -> Selection {
        self.selection
    }

    /// The identifiers added so far, still to be resolved.
    pub closed spec fn pending(&self) -> Set<Id> {
        self.view@
    }

    /// The snapshots added so far, in the order in which they came.
    pub closed spec fn ready(&self) -> Seq<NodeInfo> {
        self.view_info@
    }

    pub fn new(selection: Selection) -> (builder: Self)
        ensures
            builder.event_origin() is None,
            builder.chosen() == selection,
            builder.pending() == Set::<Id>::empty(),
            builder.ready() == Seq::<NodeInfo>::empty(),
    {
        Self { event_origin: None, selection, view: HashSet::new(), view_info: Vec::new() }
    }

    /// Names the peer an event came from.
    pub fn with_origin(&mut self, origin: Id) -> (builder: &Self)
        ensures
            final(self).event_origin() == Some(origin),
            final(self).chosen() == old(self).chosen(),
            final(self).pending() == old(self).pending(),
            final(self).ready() == old(self).ready(),
            *builder == *final(self),
    {
        self.event_origin = Some(origin);
        self
    }

    pub fn origin(&self) -> (origin: Option<&Id>)
        ensures
            match origin {
                Some(id) => self.event_origin() == Some(*id),
                None => self.event_origin() is None,
            },
    {
        self.event_origin.as_ref()
    }

    pub fn selection(&self) -> (selection: &Selection)
        ensures
            *selection == self.chosen(),
    {
        &self.selection
    }

    /// Adds a peer by its record. Under a topic selection the use of the
    /// topic is noted in the peer's log first. Adding a peer twice is the
    /// same as adding it once, but for the log.
    pub fn add(&mut self, node: &mut Node)
        ensures
            final(node)@ == selected(old(node)@, old(self).chosen()),
            final(self).pending() == old(self).pending().insert(old(node)@.id()),
            final(self).event_origin() == old(self).event_origin(),
            final(self).chosen() == old(self).chosen(),
            final(self).ready() == old(self).ready(),
    {
        if let Selection::Topic { topic } = self.selection() {
            node.logs_mut().use_of(*topic);
        }
        self.view.insert(*node.id());
    }

    /// Adds a snapshot that needs no resolving.
    pub fn add_info(&mut self, node_info: NodeInfo)
        ensures
            final(self).ready() == old(self).ready().push(node_info),
            final(self).pending() == old(self).pending(),
            final(self).event_origin() == old(self).event_origin(),
            final(self).chosen() == old(self).chosen(),
    {
        self.view_info.push(node_info)
    }

    /// Finishes the view: the snapshots added directly, in their order,
    /// followed by those of the pending peers that `nodes` still tracks, in
    /// no particular order. A pending peer that is no longer tracked is
    /// left out. Each peer that is resolved counts as used.
    pub fn build(self, nodes: &mut Nodes) -> (view: Vec<NodeInfo>)
        requires
            old(nodes).wf(),
        ensures
            exists|order: Seq<Id>|
                {
                    &&& is_listing(order, self.pending())
                    &&& view@ == self.ready() + infos_of(
                        #[trigger] resolved(old(nodes).entries(), order),
                    )
                    &&& final(nodes).entries() == touched(old(nodes).entries(), order)
                },
            self.ready().is_prefix_of(view@),
            forall|i: int|
                self.ready().len() <= i < view@.len() ==> {
                    let info = #[trigger] view@[i];
                    &&& self.pending().contains(info.id)
                    &&& old(nodes).tracks(info.id)
                    &&& info == old(nodes).node(info.id)@.info()
                },
            forall|id: Id|
                self.pending().contains(id) && #[trigger] old(nodes).tracks(id) ==> view@.contains(
                    old(nodes).node(id)@.info(),
                ),
            same_records(old(nodes).entries(), final(nodes).entries()),
            final(nodes).wf(),
            final(nodes).capacity() == old(nodes).capacity(),
            final(nodes).membership() == old(nodes).membership(),
            old(nodes).partitioned() ==> final(nodes).partitioned(),
    {
        let mut view = self.view_info;
        let ghost ready = view@;
        let ghost before = *nodes;
        let ghost e0 = before.entries();
        let ghost order: Seq<Id> = spec_hash_keys_iter(&self.view).remaining().unref();
        for id in it: self.view.iter()
            invariant
                it.seq().unref() == order,
                before == *old(nodes),
                e0 == before.entries(),
                before.wf(),
                nodes.wf(),
                nodes.capacity() == before.capacity(),
                nodes.membership() == before.membership(),
                nodes.entries() == touched(e0, order.take(it.index())),
                view@ == ready + infos_of(resolved(e0, order.take(it.index()))),
        {
            proof {
                let next = order.take(it.index() + 1);
                assert(next.drop_last() == order.take(it.index()));
                assert(next.last() == *id);
                lemma_touched(e0, next.drop_last());
                let seen = resolved(e0, next.drop_last());
                if has_key(e0, *id) {
                    assert(infos_of(seen.push(node_of(e0, *id))) == infos_of(seen).push(
                        node_of(e0, *id)@.info(),
                    ));
                }
                let once = seq![*id];
                assert(once.drop_last() == Seq::<Id>::empty());
                assert(once.last() == *id);
                assert(touched(nodes.entries(), once.drop_last()) == nodes.entries());
            }
            if let Some(node) = nodes.get(id) {
                view.push(node.info());
            }
        }
        proof {
            assert(order.take(order.len() as int) == order);
            lemma_touched(e0, order);
            if before.partitioned() {
                lemma_same_records_partitioned(before, touched(e0, order));
            }
            let found = resolved(e0, order);
            lemma_resolved(e0, order);
            assert forall|i: int| ready.len() <= i < view@.len() implies {
                let info = #[trigger] view@[i];
                &&& self.pending().contains(info.id)
                &&& before.tracks(info.id)
                &&& info == before.node(info.id)@.info()
            } by {
                let node = found[i - ready.len()];
                assert(view@[i] == node@.info());
                assert(order.to_set().contains(node@.id()));
            }
            assert forall|id: Id|
                self.pending().contains(id) && #[trigger] before.tracks(id) implies view@.contains(
                before.node(id)@.info(),
            ) by {
                assert(order.to_set().contains(id));
                assert(found.contains(node_of(e0, id)));
                let k = choose|k: int| 0 <= k < found.len() && found[k] == node_of(e0, id);
                assert(view@[ready.len() + k] == found[k]@.info());
            }
        }
        view
    }
}

} // verus!
