use dataflow::error::Error;
use dataflow::graph::State;
use dataflow::ids::parse_node_id;
use dataflow::node::{Multiply, NodeSettings};

type Frame = Vec<i64>;

#[test]
fn new_state_is_empty() {
    let s: State<Frame> = State::new();
    assert!(s.nodes.is_empty());
    assert!(s.edges.is_empty());
}

#[test]
fn add_node_stores_settings_without_results() {
    let mut s: State<Frame> = State::new();
    let id = s.add_node(NodeSettings::sum());
    assert_eq!(s.nodes.len(), 1);
    let node = &s.nodes[&id];
    assert!(matches!(node.settings, NodeSettings::Sum(_)));
    assert!(node.results.is_none());
    let inner = &node.name[1..node.name.len() - 1];
    assert!(inner.contains('-'), "name {} has no inner hyphen", node.name);
    assert_eq!(id & 0xF000_C000_0000_0000_0000u128, 0x4000_8000_0000_0000_0000u128);
}

#[test]
fn add_node_twice_gives_two_nodes() {
    let mut s: State<Frame> = State::new();
    let a = s.add_node(NodeSettings::sum());
    let b = s.add_node(NodeSettings::head());
    assert_ne!(a, b);
    assert_eq!(s.nodes.len(), 2);
}

#[test]
fn insert_node_replaces_a_node_with_the_same_id() {
    let mut s: State<Frame> = State::new();
    s.insert_node(5, "first-one".to_string(), NodeSettings::sum());
    s.insert_node(5, "second-one".to_string(), NodeSettings::tail());
    assert_eq!(s.nodes.len(), 1);
    assert_eq!(s.nodes[&5].name, "second-one");
    assert!(matches!(s.nodes[&5].settings, NodeSettings::Tail(_)));
}

#[test]
fn add_edge_records_the_source_of_a_destination() {
    let mut s: State<Frame> = State::new();
    s.add_edge(2, 1);
    assert_eq!(s.edges.get(&2), Some(&1));
    s.add_edge(2, 3);
    assert_eq!(s.edges.get(&2), Some(&3));
    assert_eq!(s.edges.len(), 1);
}

#[test]
fn update_node_replaces_settings_of_the_same_kind() {
    let mut s: State<Frame> = State::new();
    s.insert_node(1, "a-b".to_string(), NodeSettings::multiply());
    let r = s.update_node(1, NodeSettings::Multiply(Multiply { times: Some(4) }));
    assert!(r.is_ok());
    assert!(matches!(s.nodes[&1].settings, NodeSettings::Multiply(Multiply { times: Some(4) })));
    assert_eq!(s.nodes[&1].name, "a-b");
}

#[test]
fn update_node_refuses_settings_of_another_kind() {
    let mut s: State<Frame> = State::new();
    s.insert_node(1, "a-b".to_string(), NodeSettings::multiply());
    let r = s.update_node(1, NodeSettings::sum());
    match r {
        Err(Error::SettingsUpdateKindMismatch { node_id, settings }) => {
            assert_eq!(node_id, 1);
            assert!(matches!(settings, NodeSettings::Sum(_)));
        }
        other => panic!("unexpected {:?}", other),
    }
    assert!(matches!(s.nodes[&1].settings, NodeSettings::Multiply(Multiply { times: None })));
}

#[test]
fn parse_node_id_reads_hyphenated_uuids() {
    let id = parse_node_id("67e55044-10b1-426f-9247-bb680e5fe0c8").unwrap();
    assert_eq!(id, 0x67e55044_10b1_426f_9247_bb680e5fe0c8u128);
}

#[test]
fn parse_node_id_reads_simple_and_braced_uuids() {
    let expected = 0x67e55044_10b1_426f_9247_bb680e5fe0c8u128;
    assert_eq!(parse_node_id("67e5504410b1426f9247bb680e5fe0c8").unwrap(), expected);
    assert_eq!(parse_node_id("{67e55044-10b1-426f-9247-bb680e5fe0c8}").unwrap(), expected);
}

#[test]
fn parse_node_id_reports_invalid_text() {
    match parse_node_id("not-a-uuid") {
        Err(Error::InvalidUUID { uuid }) => assert_eq!(uuid, "not-a-uuid"),
        other => panic!("unexpected {:?}", other),
    }
}
