//! The vocabulary through which a policy tells the registry what to do with a
//! peer.
use vstd::prelude::*;
use crate::node::Node;

verus! {

/// Directive returned by a [`Policy`] for one inspected peer.
#[derive(Clone, Copy, Debug, PartialEq, Eq, Structural)]
pub enum PolicyReport {
    /// Leave the peer where it is.
    NoChange,
    /// Remove the peer for good.
    Forget,
    /// Exclude the peer from the topology.
    Quarantine,
    /// Return the peer to the topology.
    LiftQuarantine,
}

/// Decides, peer by peer, whether a record stays, is quarantined, is
/// reinstated or is forgotten.
///
/// An implementation may keep counters of its own and may append to the
/// peer's log, but it must leave the peer's profile and address as they are:
/// the registry files a peer by its identifier and its reachability, and
/// relies on both being the same after the check as before. Implementations
/// written outside the verified code are not held to this by the verifier.
pub trait Policy {
    fn check(&mut self, node: &mut Node) -> (report: PolicyReport)
        ensures
            final(node)@.profile == old(node)@.profile,
            final(node)@.address == old(node)@.address,
    ;
}

} // verus!
