//! Peer records: identity, interest profile, address and lifecycle log.
use vstd::prelude::*;

verus! {

/// Identifier of a peer. Fixed for the lifetime of a peer record.
pub type Id = u64;

/// A topic a peer may subscribe to.
pub type Topic = u32;

/// Public network address of a reachable peer.
#[derive(Clone, Copy, Debug, PartialEq, Eq, Hash, Structural)]
pub struct Address {
    pub host: u32,
    pub port: u16,
}

/// One entry of a peer's lifecycle log.
#[derive(Clone, Copy, Debug, PartialEq, Eq, Structural)]
pub enum LogEvent {
    /// The peer entered quarantine.
    Quarantined,
    /// The peer's quarantine was lifted.
    QuarantineLifted,
    /// The peer was handed out in a view selected for `topic`.
    TopicUsed { topic: Topic },
}

/// Append-only log of what happened to a peer, oldest event first.
#[derive(Debug)]
pub struct Logs {
    events: Vec<LogEvent>,
}

impl View for Logs {
    type V = Seq<LogEvent>;

    closed spec fn view(&self) -> Seq<LogEvent> {
        self.events@
    }
}

impl Logs {
    pub fn new() -> (logs: Logs)
        ensures
            logs@ == Seq::<LogEvent>::empty(),
    {
        Logs { events: Vec::new() }
    }

    /// Records that the peer entered quarantine.
    pub fn quarantine(&mut self)
        ensures
            final(self)@ == old(self)@.push(LogEvent::Quarantined),
    {
        self.events.push(LogEvent::Quarantined);
    }

    /// Records that the peer left quarantine.
    pub fn lift_quarantine(&mut self)
        ensures
            final(self)@ == old(self)@.push(LogEvent::QuarantineLifted),
    {
        self.events.push(LogEvent::QuarantineLifted);
    }

    /// Records that the peer was selected for `topic`.
    pub fn use_of(&mut self, topic: Topic)
        ensures
            final(self)@ == old(self)@.push(LogEvent::TopicUsed { topic }),
    {
        self.events.push(LogEvent::TopicUsed { topic });
    }

    /// The recorded events, oldest first.
    pub fn events(&self) -> (events: &Vec<LogEvent>)
        ensures
            events@ == self@,
    {
        &self.events
    }
}

/// Number of entries of `own` that do not occur in `other`.
pub open spec fn unshared(own: Seq<Topic>, other: Seq<Topic>) -> nat
    decreases own.len(),
{
    if own.len() == 0 {
        0
    } else {
        unshared(own.drop_last(), other) + if other.contains(own.last()) {
            0nat
        } else {
            1nat
        }
    }
}

/// What a peer announces about itself: its identifier and its subscriptions.
#[derive(Debug)]
pub struct NodeProfile {
    id: Id,
    subscriptions: Vec<Topic>,
}

/// Mathematical value of a [`NodeProfile`].
pub struct ProfileView {
    pub id: Id,
    pub subscriptions: Seq<Topic>,
}

impl View for NodeProfile {
    type V = ProfileView;

    closed spec fn view(&self) -> ProfileView {
        ProfileView { id: self.id, subscriptions: self.subscriptions@ }
    }
}

impl ProfileView {
    /// Distance from this profile to `other`: how many of this profile's
    /// subscriptions `other` does not share. Lower is closer; the measure is
    /// not symmetric.
    pub open spec fn proximity(self, other: ProfileView) -> nat {
        unshared(self.subscriptions, other.subscriptions)
    }
}

fn subscribes(subscriptions: &Vec<Topic>, topic: Topic) -> (found: bool)
    ensures
        found == subscriptions@.contains(topic),
{
    let mut i: usize = 0;
    while i < subscriptions.len()
        invariant
            i <= subscriptions.len(),
            forall|j: int| 0 <= j < i ==> subscriptions@[j] != topic,
        decreases subscriptions.len() - i,
    {
        if subscriptions[i] == topic {
            return true;
        }
        i += 1;
    }
    false
}

impl NodeProfile {
    pub fn new(id: Id, subscriptions: Vec<Topic>) -> (profile: NodeProfile)
        ensures
            profile@ == (ProfileView { id, subscriptions: subscriptions@ }),
    {
        NodeProfile { id, subscriptions }
    }

    pub fn id(&self) -> (id: &Id)
        ensures
            *id == self@.id,
    {
        &self.id
    }

    pub fn subscriptions(&self) -> (subscriptions: &Vec<Topic>)
        ensures
            subscriptions@ == self@.subscriptions,
    {
        &self.subscriptions
    }

    /// Distance from this profile to `other`; see [`ProfileView::proximity`].
    pub fn proximity(&self, other: &NodeProfile) -> (distance: usize)
        ensures
            distance == self@.proximity(other@),
    {
        let mut distance: usize = 0;
        let mut i: usize = 0;
        while i < self.subscriptions.len()
            invariant
                i <= self.subscriptions.len(),
                distance == unshared(self.subscriptions@.take(i as int), other.subscriptions@),
                distance <= i,
            decreases self.subscriptions.len() - i,
        {
            proof {
                let next = self.subscriptions@.take(i + 1);
                assert(next.drop_last() == self.subscriptions@.take(i as int));
                assert(next.last() == self.subscriptions@[i as int]);
            }
            if !subscribes(&other.subscriptions, self.subscriptions[i]) {
                distance += 1;
            }
            i += 1;
        }
        proof {
            assert(self.subscriptions@.take(i as int) == self.subscriptions@);
        }
        distance
    }
}

/// Snapshot of a peer handed out in views: who it is and where to reach it.
#[derive(Clone, Copy, Debug, PartialEq, Eq, Structural)]
pub struct NodeInfo {
    pub id: Id,
    pub address: Option<Address>,
}

/// A known peer: its profile, its address if it is publicly reachable, and
/// its lifecycle log.
#[derive(Debug)]
pub struct Node {
    profile: NodeProfile,
    address: Option<Address>,
    logs: Logs,
}

/// Mathematical value of a [`Node`].
pub struct NodeView {
    pub profile: ProfileView,
    pub address: Option<Address>,
    pub logs: Seq<LogEvent>,
}

impl NodeView {
    pub open spec fn id(self) -> Id {
        self.profile.id
    }

    pub open spec fn reachable(self) -> bool {
        self.address is Some
    }

    pub open spec fn info(self) -> NodeInfo {
        NodeInfo { id: self.profile.id, address: self.address }
    }

    /// This value with `event` appended to its log.
    pub open spec fn logged(self, event: LogEvent) -> NodeView {
        NodeView { logs: self.logs.push(event), ..self }
    }
}

impl View for Node {
    type V = NodeView;

    closed spec fn view(&self) -> NodeView {
        NodeView { profile: self.profile@, address: self.address, logs: self.logs@ }
    }
}

impl Node {
    /// A fresh record with an empty log.
    pub fn new(profile: NodeProfile, address: Option<Address>) -> (node: Node)
        ensures
            node@ == (NodeView { profile: profile@, address, logs: Seq::empty() }),
    {
        Node { profile, address, logs: Logs::new() }
    }

    pub fn id(&self) -> (id: &Id)
        ensures
            *id == self@.id(),
    {
        self.profile.id()
    }

    pub fn profile(&self) -> (profile: &NodeProfile)
        ensures
            profile@ == self@.profile,
    {
        &self.profile
    }

    /// The peer's public address; `None` for a peer that is connected but
    /// cannot be reached from outside.
    pub fn address(&self) -> (address: Option<Address>)
        ensures
            address == self@.address,
    {
        self.address
    }

    pub fn logs(&self) -> (logs: &Logs)
        ensures
            logs@ == self@.logs,
    {
        &self.logs
    }

    /// Mutable access to the log; nothing else of the record can change
    /// through it.
    pub fn logs_mut(&mut self) -> (logs: &mut Logs)
        ensures
            logs@ == old(self)@.logs,
            final(self)@ == (NodeView { logs: final(logs)@, ..old(self)@ }),
    {
        &mut self.logs
    }

    pub fn info(&self) -> (info: NodeInfo)
        ensures
            info == self@.info(),
    {
        NodeInfo { id: *self.profile.id(), address: self.address }
    }

    /// Replaces the address, as when a peer gains or loses public
    /// reachability.
    pub fn set_address(&mut self, address: Option<Address>)
        ensures
            final(self)@ == (NodeView { address, ..old(self)@ }),
    {
        self.address = address;
    }

    /// Replaces the subscriptions announced by the peer; its identifier stays.
    pub fn set_subscriptions(&mut self, subscriptions: Vec<Topic>)
        ensures
            final(self)@ == (NodeView {
                profile: ProfileView { id: old(self)@.id(), subscriptions: subscriptions@ },
                ..old(self)@
            }),
    {
        self.profile.subscriptions = subscriptions;
    }
}

} // verus!
