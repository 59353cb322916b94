use poldercast::vicinity::{
    closer, Vicinity, VICINITY_MAX_GOSSIP_LENGTH, VICINITY_MAX_VIEW_SIZE,
};
use poldercast::{
    Address, GossipsBuilder, Id, Layer, LogEvent, Node, NodeProfile, Nodes, Policy, PolicyReport,
    Selection, ViewBuilder,
};
use std::cmp::Ordering;

fn address(n: u64) -> Option<Address> {
    Some(Address { host: n as u32, port: 3000 })
}

fn peer(id: Id, subscriptions: Vec<u32>) -> Node {
    Node::new(NodeProfile::new(id, subscriptions), address(id))
}

fn hidden(id: Id, subscriptions: Vec<u32>) -> Node {
    Node::new(NodeProfile::new(id, subscriptions), None)
}

struct Only(Id, PolicyReport);

impl Policy for Only {
    fn check(&mut self, node: &mut Node) -> PolicyReport {
        if *node.id() == self.0 {
            self.1
        } else {
            PolicyReport::NoChange
        }
    }
}

/// The view of a layer, read through a view builder.
fn links(layer: &mut Vicinity, nodes: &mut Nodes) -> Vec<Id> {
    let mut builder = ViewBuilder::new(Selection::Any);
    layer.view(&mut builder, nodes);
    let mut ids: Vec<Id> = builder.build(nodes).iter().map(|info| info.id).collect();
    ids.sort();
    ids
}

#[test]
fn alias_names_the_layer() {
    assert_eq!(Vicinity::default().alias(), "vicinity");
}

#[test]
fn bounds_are_twenty_and_ten() {
    assert_eq!(VICINITY_MAX_VIEW_SIZE, 20);
    assert_eq!(VICINITY_MAX_GOSSIP_LENGTH, 10);
}

#[test]
fn closer_compares_distances() {
    let me = NodeProfile::new(1, vec![1, 2, 3]);
    let near = peer(2, vec![1, 2, 3]);
    let far = peer(3, vec![1]);
    let also_far = peer(4, vec![2]);
    assert_eq!(closer(&me, &near, &far), Ordering::Less);
    assert_eq!(closer(&me, &far, &near), Ordering::Greater);
    assert_eq!(closer(&me, &far, &also_far), Ordering::Equal);
}

#[test]
fn selection_orders_by_proximity() {
    let me = NodeProfile::new(1, vec![1, 2, 3, 4]);
    let a = peer(10, vec![1]);
    let b = peer(11, vec![1, 2, 3, 4]);
    let c = peer(12, vec![]);
    let d = peer(13, vec![1, 2, 3]);
    let e = peer(14, vec![3, 4]);
    let layer = Vicinity::default();
    for _ in 0..20 {
        let closest = layer.select_closest_nodes(&me, vec![&a, &b, &c, &d, &e], 10);
        assert_eq!(closest, vec![11, 13, 14, 10, 12]);
        let closest = layer.select_closest_nodes(&me, vec![&e, &d, &c, &b, &a], 3);
        assert_eq!(closest, vec![11, 13, 14]);
    }
    assert!(layer.select_closest_nodes(&me, vec![&a, &b], 0).is_empty());
    assert!(layer.select_closest_nodes(&me, vec![], 5).is_empty());
}

#[test]
fn selection_breaks_ties_by_chance() {
    let me = NodeProfile::new(1, vec![1]);
    let peers: Vec<Node> = (10..35).map(|id| peer(id, vec![1])).collect();
    let layer = Vicinity::default();
    let first = layer.select_closest_nodes(&me, peers.iter().collect(), 25);
    let mut sorted = first.clone();
    sorted.sort();
    assert_eq!(sorted, (10..35).collect::<Vec<Id>>());
    let mut differs = false;
    for _ in 0..20 {
        let again = layer.select_closest_nodes(&me, peers.iter().collect(), 25);
        differs = differs || again != first;
    }
    assert!(differs);
}

#[test]
fn populate_keeps_the_twenty_closest() {
    let identity = NodeProfile::new(1, vec![7, 8, 9]);
    let mut nodes = Nodes::with_capacity(100);
    nodes.entry(1).or_insert(peer(1, vec![7, 8, 9]));
    // Twenty-five peers share topic 7; some share more.
    for id in 100..125u64 {
        let subscriptions = match id % 3 {
            0 => vec![7, 8, 9],
            1 => vec![7, 8],
            _ => vec![7],
        };
        nodes.entry(id).or_insert(peer(id, subscriptions));
    }
    let mut layer = Vicinity::default();
    layer.reset();
    layer.populate(&identity, &nodes);

    let chosen = layer.peers().clone();
    assert_eq!(chosen.len(), 20);
    assert!(!chosen.contains(&1));
    let distances: Vec<usize> = chosen
        .iter()
        .map(|id| identity.proximity(nodes.peek(id).unwrap().profile()))
        .collect();
    assert!(distances.windows(2).all(|pair| pair[0] <= pair[1]));
    let mut expected = vec![0usize; 8];
    expected.extend(vec![1usize; 9]);
    expected.extend(vec![2usize; 3]);
    assert_eq!(distances, expected);
    let mut distinct = chosen.clone();
    distinct.sort();
    distinct.dedup();
    assert_eq!(distinct.len(), 20);

    let mut builder = ViewBuilder::new(Selection::Any);
    layer.view(&mut builder, &mut nodes);
    let view = builder.build(&mut nodes);
    assert_eq!(view.len(), 20);
    assert!(view.iter().all(|info| info.id != 1));
    assert!(view.iter().all(|info| (100..125).contains(&info.id)));

    // Eight peers are at distance 0 and nine at distance 1: all of them are
    // in, with three of the eight at distance 2.
    let distance = |id: Id| identity.proximity(nodes.peek(&id).unwrap().profile());
    let at = |d: usize| view.iter().filter(|info| distance(info.id) == d).count();
    assert_eq!(at(0), 8);
    assert_eq!(at(1), 9);
    assert_eq!(at(2), 3);
}

#[test]
fn populate_orders_the_view_by_proximity() {
    let identity = NodeProfile::new(1, vec![1, 2, 3]);
    let mut nodes = Nodes::with_capacity(10);
    nodes.entry(1).or_insert(peer(1, vec![1, 2, 3]));
    nodes.entry(2).or_insert(peer(2, vec![1]));
    nodes.entry(3).or_insert(peer(3, vec![1, 2, 3]));
    nodes.entry(4).or_insert(peer(4, vec![1, 2]));
    nodes.entry(5).or_insert(hidden(5, vec![1, 2, 3]));
    nodes.entry(6).or_insert(peer(6, vec![]));
    let mut layer = Vicinity::default();
    layer.populate(&identity, &nodes);
    assert_eq!(layer.peers(), &vec![3, 4, 2, 6]);

    // A peer with the same interests is told about the same peers.
    let mut gossips = GossipsBuilder::new(1);
    layer.gossips(&identity, &mut gossips, &nodes);
    assert_eq!(gossips.gossips(), &vec![3, 4, 2, 6]);
    assert_eq!(links(&mut layer, &mut nodes), vec![2, 3, 4, 6]);
}

#[test]
fn populate_leaves_out_unreachable_and_quarantined_peers() {
    let identity = NodeProfile::new(1, vec![1]);
    let mut nodes = Nodes::with_capacity(10);
    nodes.entry(2).or_insert(peer(2, vec![1]));
    nodes.entry(3).or_insert(hidden(3, vec![1]));
    nodes.entry(4).or_insert(peer(4, vec![1]));
    nodes.entry(5).or_insert(peer(5, vec![1]));
    nodes.reset(&mut Only(4, PolicyReport::Quarantine));
    let mut layer = Vicinity::default();
    layer.populate(&identity, &nodes);
    assert_eq!(links(&mut layer, &mut nodes), vec![2, 5]);
}

#[test]
fn reset_empties_the_view() {
    let identity = NodeProfile::new(1, vec![1]);
    let mut nodes = Nodes::with_capacity(10);
    nodes.entry(2).or_insert(peer(2, vec![1]));
    let mut layer = Vicinity::default();
    layer.populate(&identity, &nodes);
    assert_eq!(links(&mut layer, &mut nodes), vec![2]);
    layer.reset();
    assert!(layer.peers().is_empty());
    assert!(links(&mut layer, &mut nodes).is_empty());
}

#[test]
fn gossips_leave_out_the_recipient_and_stop_at_ten() {
    let identity = NodeProfile::new(1, vec![1]);
    let mut nodes = Nodes::with_capacity(50);
    for id in 1..=30u64 {
        nodes.entry(id).or_insert(peer(id, vec![1]));
    }
    let mut layer = Vicinity::default();
    let mut gossips = GossipsBuilder::new(7);
    layer.gossips(&identity, &mut gossips, &nodes);
    assert_eq!(*gossips.recipient(), 7);
    assert_eq!(gossips.gossips().len(), 10);
    assert!(!gossips.gossips().contains(&7));
    let mut seen = gossips.gossips().clone();
    seen.sort();
    seen.dedup();
    assert_eq!(seen.len(), 10);
    assert!(seen.iter().all(|id| (1..=30).contains(id)));
}

#[test]
fn gossips_go_by_the_recipient_s_interests() {
    let identity = NodeProfile::new(1, vec![1]);
    let mut nodes = Nodes::with_capacity(50);
    nodes.entry(1).or_insert(peer(1, vec![1]));
    nodes.entry(2).or_insert(peer(2, vec![5, 6]));
    nodes.entry(3).or_insert(peer(3, vec![5]));
    nodes.entry(4).or_insert(peer(4, vec![5, 6]));
    let mut layer = Vicinity::default();
    let mut gossips = GossipsBuilder::new(2);
    gossips.add(99);
    layer.gossips(&identity, &mut gossips, &nodes);
    assert_eq!(gossips.gossips(), &vec![99, 4, 3, 1]);
}

#[test]
fn gossips_skip_an_unknown_recipient() {
    let identity = NodeProfile::new(1, vec![1]);
    let mut nodes = Nodes::with_capacity(50);
    nodes.entry(2).or_insert(peer(2, vec![1]));
    let mut layer = Vicinity::default();
    let mut gossips = GossipsBuilder::new(77);
    layer.gossips(&identity, &mut gossips, &nodes);
    assert!(gossips.gossips().is_empty());
}

#[test]
fn view_passes_over_peers_that_are_gone() {
    let identity = NodeProfile::new(1, vec![1]);
    let mut nodes = Nodes::with_capacity(10);
    nodes.entry(2).or_insert(peer(2, vec![1]));
    nodes.entry(3).or_insert(peer(3, vec![1]));
    let mut layer = Vicinity::default();
    layer.populate(&identity, &nodes);
    nodes.reset(&mut Only(2, PolicyReport::Forget));
    assert_eq!(links(&mut layer, &mut nodes), vec![3]);
}

#[test]
fn view_notes_the_topic_in_the_log() {
    let identity = NodeProfile::new(1, vec![1]);
    let mut nodes = Nodes::with_capacity(10);
    nodes.entry(2).or_insert(peer(2, vec![1]));
    nodes.entry(3).or_insert(hidden(3, vec![1]));
    let mut layer = Vicinity::default();
    layer.populate(&identity, &nodes);

    let mut builder = ViewBuilder::new(Selection::Topic { topic: 42 });
    layer.view(&mut builder, &mut nodes);
    assert_eq!(
        nodes.peek(&2).unwrap().logs().events(),
        &vec![LogEvent::TopicUsed { topic: 42 }]
    );
    assert!(nodes.peek(&3).unwrap().logs().events().is_empty());

    let mut builder = ViewBuilder::new(Selection::Any);
    layer.view(&mut builder, &mut nodes);
    assert_eq!(nodes.peek(&2).unwrap().logs().events().len(), 1);
    assert_eq!(nodes.node_count().all_count, 2);
    assert!(nodes.available_nodes().contains(&2));
}

#[test]
fn view_is_not_a_use() {
    let identity = NodeProfile::new(1, vec![1]);
    let mut nodes = Nodes::with_capacity(2);
    nodes.entry(2).or_insert(peer(2, vec![1]));
    nodes.entry(3).or_insert(hidden(3, vec![1]));
    let mut layer = Vicinity::default();
    layer.populate(&identity, &nodes);
    let mut builder = ViewBuilder::new(Selection::Any);
    layer.view(&mut builder, &mut nodes);
    nodes.entry(4).or_insert(peer(4, vec![1]));
    assert!(nodes.peek(&2).is_none());
    assert!(nodes.peek(&3).is_some());
}

#[test]
fn a_layer_can_be_copied() {
    let identity = NodeProfile::new(1, vec![1]);
    let mut nodes = Nodes::with_capacity(10);
    nodes.entry(2).or_insert(peer(2, vec![1]));
    let mut layer = Vicinity::default();
    layer.populate(&identity, &nodes);
    let mut copy = layer.clone();
    layer.reset();
    assert_eq!(links(&mut copy, &mut nodes), vec![2]);
}
