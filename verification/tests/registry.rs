use poldercast::{
    Address, Count, Id, LogEvent, Node, NodeProfile, Nodes, Policy, PolicyReport,
};
use poldercast::nodes::{apply_report, Entry};
use std::collections::HashSet;

fn address(n: u32) -> Option<Address> {
    Some(Address { host: n, port: 3000 })
}

fn reachable(id: Id) -> Node {
    Node::new(NodeProfile::new(id, vec![1]), address(id as u32))
}

fn unreachable(id: Id) -> Node {
    Node::new(NodeProfile::new(id, vec![1]), None)
}

/// Gives the same report for every peer.
struct Always(PolicyReport);

impl Policy for Always {
    fn check(&mut self, _node: &mut Node) -> PolicyReport {
        self.0
    }
}

/// Gives one report for one peer and `NoChange` for the others.
struct Only(Id, PolicyReport);

impl Policy for Only {
    fn check(&mut self, node: &mut Node) -> PolicyReport {
        if *node.id() == self.0 {
            self.1
        } else {
            PolicyReport::NoChange
        }
    }
}

/// Counts how many peers it was asked about.
struct Counting(usize);

impl Policy for Counting {
    fn check(&mut self, _node: &mut Node) -> PolicyReport {
        self.0 += 1;
        PolicyReport::NoChange
    }
}

const X: Id = 10;
const Y: Id = 20;
const Z: Id = 30;
const W: Id = 40;

fn three_peers() -> Nodes {
    let mut nodes = Nodes::with_capacity(3);
    nodes.entry(X).or_insert(reachable(X));
    nodes.entry(Y).or_insert(unreachable(Y));
    nodes.entry(Z).or_insert(reachable(Z));
    nodes
}

fn counts(nodes: &Nodes) -> (usize, usize, usize, usize) {
    let count = nodes.node_count();
    (
        count.all_count,
        count.available_count,
        count.not_reachable_count,
        count.quarantined_count,
    )
}

fn in_no_set(nodes: &Nodes, id: Id) -> bool {
    !nodes.available_nodes().contains(&id)
        && !nodes.unreachable_nodes().contains(&id)
        && !nodes.quarantined_nodes().contains(&id)
}

/// The three sets are pairwise disjoint and cover exactly the tracked peers,
/// and each peer is filed by its address.
fn is_partitioned(nodes: &Nodes, known: &[Id]) -> bool {
    let count = nodes.node_count();
    let mut held = 0;
    for id in known {
        let a = nodes.available_nodes().contains(id);
        let n = nodes.unreachable_nodes().contains(id);
        let q = nodes.quarantined_nodes().contains(id);
        let sets = a as usize + n as usize + q as usize;
        match nodes.peek(id) {
            Some(node) => {
                held += 1;
                if sets != 1 {
                    return false;
                }
                if a && node.address().is_none() {
                    return false;
                }
                if n && node.address().is_some() {
                    return false;
                }
            }
            None => {
                if sets != 0 {
                    return false;
                }
            }
        }
    }
    held == count.all_count
        && count.all_count
            == count.available_count + count.not_reachable_count + count.quarantined_count
}

#[test]
fn empty_registry_counts_nothing() {
    let nodes = Nodes::with_capacity(5);
    assert_eq!(counts(&nodes), (0, 0, 0, 0));
    assert!(nodes.peek(&X).is_none());
    assert!(nodes.all_available_nodes().is_empty());
}

#[test]
fn three_inserts_fill_the_registry() {
    let nodes = three_peers();
    assert_eq!(counts(&nodes), (3, 2, 1, 0));
    assert!(nodes.available_nodes().contains(&X));
    assert!(nodes.unreachable_nodes().contains(&Y));
    assert!(nodes.available_nodes().contains(&Z));
    assert!(is_partitioned(&nodes, &[X, Y, Z, W]));
}

#[test]
fn fourth_insert_evicts_least_recently_used() {
    let mut nodes = three_peers();
    nodes.entry(W).or_insert(reachable(W));
    assert_eq!(counts(&nodes), (3, 2, 1, 0));
    assert!(nodes.peek(&X).is_none());
    assert!(in_no_set(&nodes, X));
    assert!(nodes.peek(&Y).is_some());
    assert!(nodes.peek(&Z).is_some());
    assert!(nodes.peek(&W).is_some());
    assert!(nodes.available_nodes().contains(&W));
    assert!(is_partitioned(&nodes, &[X, Y, Z, W]));
}

#[test]
fn reset_quarantines_by_report() {
    let mut nodes = three_peers();
    nodes.reset(&mut Only(Y, PolicyReport::Quarantine));
    assert!(nodes.quarantined_nodes().contains(&Y));
    assert!(!nodes.unreachable_nodes().contains(&Y));
    assert_eq!(counts(&nodes), (3, 2, 0, 1));
    let y = nodes.peek(&Y).unwrap();
    assert_eq!(y.logs().events(), &vec![LogEvent::Quarantined]);
    assert!(nodes.peek(&X).unwrap().logs().events().is_empty());
    assert!(is_partitioned(&nodes, &[X, Y, Z, W]));
}

#[test]
fn count_never_exceeds_capacity() {
    let mut nodes = Nodes::with_capacity(4);
    for id in 1..=50u64 {
        let node = if id % 3 == 0 { unreachable(id) } else { reachable(id) };
        nodes.entry(id).or_insert(node);
        let count = nodes.node_count();
        assert!(count.all_count <= 4);
        assert_eq!(
            count.all_count,
            count.available_count + count.not_reachable_count + count.quarantined_count
        );
    }
    assert_eq!(nodes.node_count().all_count, 4);
    for id in 1..=46u64 {
        assert!(nodes.peek(&id).is_none());
        assert!(in_no_set(&nodes, id));
    }
    for id in 47..=50u64 {
        assert!(nodes.peek(&id).is_some());
    }
}

#[test]
fn capacity_one_keeps_the_newest() {
    let mut nodes = Nodes::with_capacity(1);
    nodes.entry(X).or_insert(reachable(X));
    nodes.entry(Y).or_insert(unreachable(Y));
    assert_eq!(counts(&nodes), (1, 0, 1, 0));
    assert!(nodes.peek(&X).is_none());
    assert!(in_no_set(&nodes, X));
}

#[test]
fn eviction_takes_quarantined_peer_out_of_its_set() {
    let mut nodes = three_peers();
    nodes.reset(&mut Only(X, PolicyReport::Quarantine));
    assert!(nodes.quarantined_nodes().contains(&X));
    nodes.entry(W).or_insert(reachable(W));
    assert!(in_no_set(&nodes, X));
    assert_eq!(counts(&nodes), (3, 2, 1, 0));
}

#[test]
fn get_counts_as_use_and_peek_does_not() {
    let mut nodes = three_peers();
    assert!(nodes.peek(&X).is_some());
    nodes.entry(W).or_insert(reachable(W));
    assert!(nodes.peek(&X).is_none());

    let mut nodes = three_peers();
    assert_eq!(*nodes.get(&X).unwrap().id(), X);
    nodes.entry(W).or_insert(reachable(W));
    assert!(nodes.peek(&X).is_some());
    assert!(nodes.peek(&Y).is_none());
    assert!(in_no_set(&nodes, Y));
}

#[test]
fn get_mut_counts_as_use_and_peek_mut_does_not() {
    let mut nodes = three_peers();
    nodes.peek_mut(&X).unwrap().logs_mut().quarantine();
    nodes.entry(W).or_insert(reachable(W));
    assert!(nodes.peek(&X).is_none());

    let mut nodes = three_peers();
    nodes.get_mut(&X).unwrap().logs_mut().quarantine();
    assert_eq!(nodes.peek(&X).unwrap().logs().events(), &vec![LogEvent::Quarantined]);
    nodes.entry(W).or_insert(reachable(W));
    assert!(nodes.peek(&X).is_some());
    assert!(nodes.peek(&Y).is_none());
    assert!(nodes.get(&W).is_some());
    assert!(nodes.get(&Y).is_none());
    assert!(nodes.get_mut(&Y).is_none());
    assert!(nodes.peek_mut(&Y).is_none());
}

#[test]
fn entry_tells_vacant_from_occupied() {
    let mut nodes = three_peers();
    assert!(matches!(nodes.entry(X), Entry::Occupied(_)));
    assert!(matches!(nodes.entry(W), Entry::Vacant(_)));
    assert_eq!(*nodes.entry(X).key(), X);
    assert_eq!(*nodes.entry(W).key(), W);
}

#[test]
fn or_insert_leaves_an_occupied_entry_alone() {
    let mut nodes = three_peers();
    nodes.entry(X).or_insert(unreachable(X));
    assert!(nodes.peek(&X).unwrap().address().is_some());
    assert_eq!(counts(&nodes), (3, 2, 1, 0));
    // Looking at the entry is not a use: X is still the first to go.
    nodes.entry(W).or_insert(reachable(W));
    assert!(nodes.peek(&X).is_none());
}

#[test]
fn or_insert_with_calls_the_default_only_when_vacant() {
    let mut nodes = three_peers();
    let mut called = false;
    nodes.entry(X).or_insert_with(|| {
        called = true;
        reachable(X)
    });
    assert!(!called);
    nodes.entry(W).or_insert_with(|| {
        called = true;
        unreachable(W)
    });
    assert!(called);
    assert!(nodes.unreachable_nodes().contains(&W));
    assert_eq!(counts(&nodes), (3, 1, 2, 0));
}

#[test]
fn and_modify_on_vacant_entry_does_nothing() {
    let mut nodes = three_peers();
    let report = nodes
        .entry(W)
        .and_modify(&mut Always(PolicyReport::Quarantine), |_node: &mut Node| {});
    assert_eq!(report, None);
    assert_eq!(counts(&nodes), (3, 2, 1, 0));
}

#[test]
fn quarantine_then_lift_then_forget() {
    let mut nodes = three_peers();
    let report = nodes
        .entry(X)
        .and_modify(&mut Always(PolicyReport::Quarantine), |_node: &mut Node| {});
    assert_eq!(report, Some(PolicyReport::Quarantine));
    assert!(nodes.quarantined_nodes().contains(&X));
    assert!(!nodes.available_nodes().contains(&X));
    assert!(!nodes.unreachable_nodes().contains(&X));
    assert!(is_partitioned(&nodes, &[X, Y, Z]));

    let report = nodes
        .entry(X)
        .and_modify(&mut Always(PolicyReport::LiftQuarantine), |_node: &mut Node| {});
    assert_eq!(report, Some(PolicyReport::LiftQuarantine));
    assert!(nodes.available_nodes().contains(&X));
    assert!(!nodes.quarantined_nodes().contains(&X));
    assert!(!nodes.unreachable_nodes().contains(&X));
    assert_eq!(
        nodes.peek(&X).unwrap().logs().events(),
        &vec![LogEvent::Quarantined, LogEvent::QuarantineLifted]
    );
    assert!(is_partitioned(&nodes, &[X, Y, Z]));

    let report = nodes
        .entry(X)
        .and_modify(&mut Always(PolicyReport::Forget), |_node: &mut Node| {});
    assert_eq!(report, Some(PolicyReport::Forget));
    assert!(nodes.peek(&X).is_none());
    assert!(in_no_set(&nodes, X));
    assert_eq!(counts(&nodes), (2, 1, 1, 0));
    assert!(is_partitioned(&nodes, &[X, Y, Z]));
}

#[test]
fn lifting_files_a_peer_without_address_as_not_reachable() {
    let mut nodes = three_peers();
    nodes
        .entry(X)
        .and_modify(&mut Always(PolicyReport::Quarantine), |_node: &mut Node| {});
    // The peer loses its address while it is quarantined.
    nodes
        .entry(X)
        .and_modify(&mut Always(PolicyReport::LiftQuarantine), |node: &mut Node| {
            node.set_address(None)
        });
    assert!(nodes.unreachable_nodes().contains(&X));
    assert!(!nodes.available_nodes().contains(&X));
    assert!(!nodes.quarantined_nodes().contains(&X));
    assert!(is_partitioned(&nodes, &[X, Y, Z]));
}

#[test]
fn lifting_after_a_flip_files_the_peer_in_one_set() {
    // The peer is available, loses its address in the change, and the policy
    // lifts a quarantine it was never in: it is filed as not reachable and
    // leaves the available peers.
    let mut nodes = three_peers();
    let report = nodes
        .entry(X)
        .and_modify(&mut Always(PolicyReport::LiftQuarantine), |node: &mut Node| {
            node.set_address(None)
        });
    assert_eq!(report, Some(PolicyReport::LiftQuarantine));
    assert!(nodes.unreachable_nodes().contains(&X));
    assert!(!nodes.available_nodes().contains(&X));
    assert!(!nodes.quarantined_nodes().contains(&X));
    assert_eq!(counts(&nodes), (3, 1, 2, 0));
    assert!(is_partitioned(&nodes, &[X, Y, Z]));

    // The other way round: a peer that was not reachable gains an address.
    let report = nodes
        .entry(Y)
        .and_modify(&mut Always(PolicyReport::LiftQuarantine), |node: &mut Node| {
            node.set_address(address(5))
        });
    assert_eq!(report, Some(PolicyReport::LiftQuarantine));
    assert!(nodes.available_nodes().contains(&Y));
    assert!(!nodes.unreachable_nodes().contains(&Y));
    assert_eq!(counts(&nodes), (3, 2, 1, 0));
    assert!(is_partitioned(&nodes, &[X, Y, Z]));
}

#[test]
fn any_report_after_any_change_keeps_the_sets_apart() {
    let reports = [
        PolicyReport::NoChange,
        PolicyReport::Quarantine,
        PolicyReport::LiftQuarantine,
        PolicyReport::Forget,
    ];
    for first in reports {
        for second in reports {
            for flip_first in [false, true] {
                for flip_second in [false, true] {
                    for id in [X, Y] {
                        let mut nodes = three_peers();
                        for (report, flip) in [(first, flip_first), (second, flip_second)] {
                            nodes.entry(id).and_modify(&mut Always(report), |node: &mut Node| {
                                if flip {
                                    let flipped = match node.address() {
                                        Some(_) => None,
                                        None => address(9),
                                    };
                                    node.set_address(flipped);
                                }
                            });
                            assert!(is_partitioned(&nodes, &[X, Y, Z]));
                        }
                    }
                }
            }
        }
    }
}

#[test]
fn reset_lifts_a_peer_into_one_set() {
    // The address went away behind the registry's back; lifting files the
    // peer by the address it has now and takes it out of its former set.
    let mut nodes = three_peers();
    nodes.peek_mut(&X).unwrap().set_address(None);
    nodes.reset(&mut Only(X, PolicyReport::LiftQuarantine));
    assert!(nodes.unreachable_nodes().contains(&X));
    assert!(!nodes.available_nodes().contains(&X));
    assert_eq!(counts(&nodes), (3, 1, 2, 0));
    assert!(is_partitioned(&nodes, &[X, Y, Z]));
}

#[test]
fn modify_moves_a_peer_whose_reachability_changed() {
    let mut nodes = three_peers();
    let report = nodes
        .entry(X)
        .and_modify(&mut Always(PolicyReport::NoChange), |node: &mut Node| {
            node.set_address(None)
        });
    assert_eq!(report, Some(PolicyReport::NoChange));
    assert!(nodes.unreachable_nodes().contains(&X));
    assert!(!nodes.available_nodes().contains(&X));
    assert_eq!(counts(&nodes), (3, 1, 2, 0));

    nodes
        .entry(Y)
        .and_modify(&mut Always(PolicyReport::NoChange), |node: &mut Node| {
            node.set_address(address(7))
        });
    assert!(nodes.available_nodes().contains(&Y));
    assert!(!nodes.unreachable_nodes().contains(&Y));
    assert_eq!(counts(&nodes), (3, 2, 1, 0));
    assert!(nodes.peek(&X).unwrap().logs().events().is_empty());
    assert!(is_partitioned(&nodes, &[X, Y, Z]));
}

#[test]
fn modify_leaves_a_quarantined_peer_quarantined_when_reachability_changes() {
    let mut nodes = three_peers();
    nodes
        .entry(X)
        .and_modify(&mut Always(PolicyReport::Quarantine), |_node: &mut Node| {});
    nodes
        .entry(X)
        .and_modify(&mut Always(PolicyReport::NoChange), |node: &mut Node| {
            node.set_address(None)
        });
    assert!(nodes.quarantined_nodes().contains(&X));
    assert!(!nodes.available_nodes().contains(&X));
    assert!(!nodes.unreachable_nodes().contains(&X));
}

#[test]
fn modify_counts_as_use() {
    let mut nodes = three_peers();
    nodes
        .entry(X)
        .and_modify(&mut Always(PolicyReport::NoChange), |_node: &mut Node| {});
    nodes.entry(W).or_insert(reachable(W));
    assert!(nodes.peek(&X).is_some());
    assert!(nodes.peek(&Y).is_none());
}

#[test]
fn modify_shows_the_policy_the_changed_record() {
    struct ByAddress;
    impl Policy for ByAddress {
        fn check(&mut self, node: &mut Node) -> PolicyReport {
            if node.address().is_none() {
                PolicyReport::Quarantine
            } else {
                PolicyReport::NoChange
            }
        }
    }
    let mut nodes = three_peers();
    let report = nodes
        .entry(X)
        .and_modify(&mut ByAddress, |node: &mut Node| node.set_address(None));
    assert_eq!(report, Some(PolicyReport::Quarantine));
    assert!(nodes.quarantined_nodes().contains(&X));
}

#[test]
fn reset_without_reports_changes_nothing() {
    let mut nodes = three_peers();
    nodes.reset(&mut Only(Z, PolicyReport::Quarantine));
    let before = nodes.node_count();
    let available: HashSet<Id> = nodes.available_nodes().clone();
    let unreachable: HashSet<Id> = nodes.unreachable_nodes().clone();
    let quarantined: HashSet<Id> = nodes.quarantined_nodes().clone();

    nodes.reset(&mut Always(PolicyReport::NoChange));
    nodes.reset(&mut Always(PolicyReport::NoChange));

    assert_eq!(nodes.node_count(), before);
    assert_eq!(nodes.available_nodes(), &available);
    assert_eq!(nodes.unreachable_nodes(), &unreachable);
    assert_eq!(nodes.quarantined_nodes(), &quarantined);
    assert_eq!(nodes.peek(&Z).unwrap().logs().events(), &vec![LogEvent::Quarantined]);
    // The order of use is as it was: X is still the first to go.
    nodes.entry(W).or_insert(reachable(W));
    assert!(nodes.peek(&X).is_none());
}

#[test]
fn reset_asks_about_every_peer_once() {
    let mut nodes = three_peers();
    let mut policy = Counting(0);
    nodes.reset(&mut policy);
    assert_eq!(policy.0, 3);
}

#[test]
fn reset_forgets() {
    let mut nodes = three_peers();
    nodes.reset(&mut Only(Y, PolicyReport::Forget));
    assert!(nodes.peek(&Y).is_none());
    assert!(in_no_set(&nodes, Y));
    assert_eq!(counts(&nodes), (2, 2, 0, 0));

    nodes.reset(&mut Always(PolicyReport::Forget));
    assert_eq!(counts(&nodes), (0, 0, 0, 0));
    assert!(nodes.peek(&X).is_none());
    assert!(nodes.peek(&Z).is_none());
}

#[test]
fn reset_lifts_by_address() {
    let mut nodes = three_peers();
    nodes.reset(&mut Always(PolicyReport::Quarantine));
    assert_eq!(counts(&nodes), (3, 0, 0, 3));
    nodes.reset(&mut Always(PolicyReport::LiftQuarantine));
    assert_eq!(counts(&nodes), (3, 2, 1, 0));
    assert!(nodes.available_nodes().contains(&X));
    assert!(nodes.unreachable_nodes().contains(&Y));
    assert!(nodes.available_nodes().contains(&Z));
    assert_eq!(
        nodes.peek(&Y).unwrap().logs().events(),
        &vec![LogEvent::Quarantined, LogEvent::QuarantineLifted]
    );
    assert!(is_partitioned(&nodes, &[X, Y, Z]));
}

#[test]
fn reset_does_not_look_for_changed_reachability() {
    let mut nodes = three_peers();
    nodes.peek_mut(&X).unwrap().set_address(None);
    nodes.reset(&mut Always(PolicyReport::NoChange));
    assert!(nodes.available_nodes().contains(&X));
    assert!(!nodes.unreachable_nodes().contains(&X));
}

#[test]
fn reset_is_not_a_use() {
    let mut nodes = three_peers();
    nodes.reset(&mut Always(PolicyReport::NoChange));
    nodes.entry(W).or_insert(reachable(W));
    assert!(nodes.peek(&X).is_none());
    assert!(nodes.peek(&Y).is_some());
}

#[test]
fn listing_resolves_each_set() {
    let mut nodes = three_peers();
    nodes.reset(&mut Only(Z, PolicyReport::Quarantine));
    let mut available: Vec<Id> = nodes.all_available_nodes().iter().map(|n| *n.id()).collect();
    available.sort();
    assert_eq!(available, vec![X]);
    let unreachable: Vec<Id> = nodes.all_unreachable_nodes().iter().map(|n| *n.id()).collect();
    assert_eq!(unreachable, vec![Y]);
    let quarantined: Vec<Id> = nodes.all_quarantined_nodes().iter().map(|n| *n.id()).collect();
    assert_eq!(quarantined, vec![Z]);

    let nodes = three_peers();
    let mut available: Vec<Id> = nodes.all_available_nodes().iter().map(|n| *n.id()).collect();
    available.sort();
    assert_eq!(available, vec![X, Z]);
    assert!(nodes.all_quarantined_nodes().is_empty());
}

#[test]
fn apply_report_follows_the_table() {
    let mut available: HashSet<Id> = HashSet::new();
    let mut not_reachable: HashSet<Id> = HashSet::new();
    let mut quarantined: HashSet<Id> = HashSet::new();
    available.insert(X);
    available.insert(Z);
    let mut node = reachable(X);

    apply_report(&mut available, &mut not_reachable, &mut quarantined, &X, &mut node, PolicyReport::NoChange);
    assert!(available.contains(&X) && not_reachable.is_empty() && quarantined.is_empty());
    assert!(node.logs().events().is_empty());

    apply_report(&mut available, &mut not_reachable, &mut quarantined, &X, &mut node, PolicyReport::Quarantine);
    assert!(!available.contains(&X) && available.contains(&Z));
    assert!(quarantined.contains(&X) && not_reachable.is_empty());
    assert_eq!(node.logs().events(), &vec![LogEvent::Quarantined]);

    node.set_address(None);
    apply_report(&mut available, &mut not_reachable, &mut quarantined, &X, &mut node, PolicyReport::LiftQuarantine);
    assert!(not_reachable.contains(&X) && !available.contains(&X) && quarantined.is_empty());
    assert_eq!(
        node.logs().events(),
        &vec![LogEvent::Quarantined, LogEvent::QuarantineLifted]
    );

    apply_report(&mut available, &mut not_reachable, &mut quarantined, &X, &mut node, PolicyReport::Forget);
    assert!(!available.contains(&X) && not_reachable.is_empty() && quarantined.is_empty());
    assert!(available.contains(&Z));
    assert_eq!(node.logs().events().len(), 2);

    // Lifting takes the peer out of whichever set held it.
    not_reachable.insert(X);
    node.set_address(address(3));
    apply_report(&mut available, &mut not_reachable, &mut quarantined, &X, &mut node, PolicyReport::LiftQuarantine);
    assert!(available.contains(&X) && not_reachable.is_empty() && quarantined.is_empty());
    node.set_address(None);
    apply_report(&mut available, &mut not_reachable, &mut quarantined, &X, &mut node, PolicyReport::LiftQuarantine);
    assert!(!available.contains(&X) && not_reachable.contains(&X) && quarantined.is_empty());
    assert!(available.contains(&Z));
}

#[test]
fn count_is_a_plain_record() {
    let count = Count {
        all_count: 3,
        quarantined_count: 0,
        not_reachable_count: 1,
        available_count: 2,
    };
    assert_eq!(three_peers().node_count(), count);
    assert_eq!(count.clone(), count);
}

#[test]
fn proximity_counts_unshared_subscriptions() {
    let me = NodeProfile::new(1, vec![1, 2, 3]);
    assert_eq!(me.proximity(&NodeProfile::new(2, vec![1, 2, 3])), 0);
    assert_eq!(me.proximity(&NodeProfile::new(3, vec![3, 9])), 2);
    assert_eq!(me.proximity(&NodeProfile::new(4, vec![])), 3);
    assert_eq!(NodeProfile::new(5, vec![]).proximity(&me), 0);
    // Not symmetric.
    assert_eq!(NodeProfile::new(6, vec![3]).proximity(&me), 0);
    assert_eq!(me.proximity(&NodeProfile::new(6, vec![3])), 2);
    assert_eq!(*me.id(), 1);
    assert_eq!(me.subscriptions(), &vec![1, 2, 3]);
}

#[test]
fn node_keeps_what_it_was_made_of() {
    let mut node = Node::new(NodeProfile::new(X, vec![4, 5]), address(9));
    assert_eq!(*node.id(), X);
    assert_eq!(node.address(), address(9));
    assert_eq!(node.profile().subscriptions(), &vec![4, 5]);
    assert_eq!(node.info().id, X);
    assert_eq!(node.info().address, address(9));
    assert!(node.logs().events().is_empty());
    node.logs_mut().use_of(4);
    assert_eq!(node.logs().events(), &vec![LogEvent::TopicUsed { topic: 4 }]);
    node.set_subscriptions(vec![6]);
    assert_eq!(node.profile().subscriptions(), &vec![6]);
    assert_eq!(*node.id(), X);
    node.set_address(None);
    assert_eq!(node.info().address, None);
}
