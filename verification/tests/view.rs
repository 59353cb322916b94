use poldercast::{
    Address, Id, LogEvent, Node, NodeInfo, NodeProfile, Nodes, Selection, ViewBuilder,
};

fn address(n: u64) -> Option<Address> {
    Some(Address { host: n as u32, port: 3000 })
}

fn peer(id: Id) -> Node {
    Node::new(NodeProfile::new(id, vec![1]), address(id))
}

fn three_peers() -> Nodes {
    let mut nodes = Nodes::with_capacity(3);
    nodes.entry(10).or_insert(peer(10));
    nodes.entry(20).or_insert(Node::new(NodeProfile::new(20, vec![1]), None));
    nodes.entry(30).or_insert(peer(30));
    nodes
}

#[test]
fn new_builder_is_empty() {
    let builder = ViewBuilder::new(Selection::Any);
    assert_eq!(builder.origin(), None);
    assert_eq!(*builder.selection(), Selection::Any);
    let mut nodes = three_peers();
    assert!(builder.build(&mut nodes).is_empty());
}

#[test]
fn with_origin_names_the_origin() {
    let mut builder = ViewBuilder::new(Selection::Topic { topic: 3 });
    assert_eq!(builder.with_origin(77).origin(), Some(&77));
    assert_eq!(builder.origin(), Some(&77));
    assert_eq!(*builder.selection(), Selection::Topic { topic: 3 });
    builder.with_origin(78);
    assert_eq!(builder.origin(), Some(&78));
}

#[test]
fn selection_is_a_plain_value() {
    let topic = Selection::Topic { topic: 9 };
    let copy = topic;
    assert_eq!(copy, topic);
    assert_ne!(topic, Selection::Any);
    assert_ne!(topic, Selection::Topic { topic: 8 });
}

#[test]
fn add_under_any_leaves_the_log_alone() {
    let mut builder = ViewBuilder::new(Selection::Any);
    let mut node = peer(10);
    builder.add(&mut node);
    assert!(node.logs().events().is_empty());
}

#[test]
fn add_under_a_topic_notes_the_use() {
    let mut builder = ViewBuilder::new(Selection::Topic { topic: 5 });
    let mut node = peer(10);
    builder.add(&mut node);
    builder.add(&mut node);
    assert_eq!(
        node.logs().events(),
        &vec![LogEvent::TopicUsed { topic: 5 }, LogEvent::TopicUsed { topic: 5 }]
    );
    // Added twice, resolved once.
    let mut nodes = three_peers();
    let view = builder.build(&mut nodes);
    assert_eq!(view, vec![NodeInfo { id: 10, address: address(10) }]);
}

#[test]
fn build_puts_ready_snapshots_first() {
    let mut nodes = three_peers();
    let mut builder = ViewBuilder::new(Selection::Any);
    let first = NodeInfo { id: 500, address: address(500) };
    let second = NodeInfo { id: 400, address: None };
    builder.add(nodes.peek_mut(&30).unwrap());
    builder.add_info(first);
    builder.add(nodes.peek_mut(&20).unwrap());
    builder.add_info(second);
    let view = builder.build(&mut nodes);
    assert_eq!(view.len(), 4);
    assert_eq!(view[0], first);
    assert_eq!(view[1], second);
    let mut resolved: Vec<NodeInfo> = view[2..].to_vec();
    resolved.sort_by_key(|info| info.id);
    assert_eq!(
        resolved,
        vec![
            NodeInfo { id: 20, address: None },
            NodeInfo { id: 30, address: address(30) }
        ]
    );
}

#[test]
fn build_skips_peers_that_are_gone() {
    let mut nodes = three_peers();
    let mut builder = ViewBuilder::new(Selection::Any);
    let mut stranger = peer(99);
    builder.add(&mut stranger);
    builder.add(nodes.peek_mut(&10).unwrap());
    let view = builder.build(&mut nodes);
    assert_eq!(view, vec![NodeInfo { id: 10, address: address(10) }]);
    assert_eq!(nodes.node_count().all_count, 3);
    assert!(nodes.peek(&99).is_none());
}

#[test]
fn build_counts_as_use() {
    let mut nodes = three_peers();
    let mut builder = ViewBuilder::new(Selection::Any);
    builder.add(nodes.peek_mut(&10).unwrap());
    builder.build(&mut nodes);
    // 10 was used last, so 20 is now the first to go.
    nodes.entry(40).or_insert(peer(40));
    assert!(nodes.peek(&10).is_some());
    assert!(nodes.peek(&20).is_none());
    let count = nodes.node_count();
    assert_eq!(
        (count.all_count, count.available_count, count.not_reachable_count, count.quarantined_count),
        (3, 3, 0, 0)
    );
}
