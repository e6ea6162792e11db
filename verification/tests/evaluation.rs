use dataflow::cache_key::{compute_cache_key, compute_input_hash};
use dataflow::compute::{delimiter_of, Plan};
use dataflow::error::Error;
use dataflow::graph::State;
use dataflow::node::{Head, LoadData, Multiply, NodeSettings, Tail};

type Frame = Vec<i64>;

fn loader(path: Option<&str>, sep: Option<&str>) -> NodeSettings {
    NodeSettings::LoadData(LoadData {
        separator: sep.map(|s| s.to_string()),
        path: path.map(|s| s.to_string()),
    })
}

fn field_of(r: Result<Plan, Error>) -> (u128, String) {
    match r {
        Err(Error::MissingFieldData { node_id, field }) => (node_id, field),
        other => panic!("unexpected {:?}", other),
    }
}

#[test]
fn delimiter_is_the_first_character_cut_to_a_byte() {
    assert_eq!(delimiter_of(","), Some(b','));
    assert_eq!(delimiter_of(";x"), Some(b';'));
    assert_eq!(delimiter_of("\t"), Some(b'\t'));
    assert_eq!(delimiter_of(""), None);
    assert_eq!(delimiter_of("€"), Some(0xAC));
}

#[test]
fn plan_for_loader_needs_path_then_separator() {
    let mut s: State<Frame> = State::new();
    s.insert_node(1, "a-b".to_string(), loader(None, None));
    assert_eq!(field_of(s.compute_plan(1)), (1, "path".to_string()));
    s.insert_node(2, "a-b".to_string(), loader(Some("in.csv"), None));
    assert_eq!(field_of(s.compute_plan(2)), (2, "separator".to_string()));
    s.insert_node(3, "a-b".to_string(), loader(Some("in.csv"), Some(";")));
    match s.compute_plan(3) {
        Ok(Plan::Load { path, delimiter }) => {
            assert_eq!(path, "in.csv");
            assert_eq!(delimiter, Some(b';'));
        }
        other => panic!("unexpected {:?}", other),
    }
}

#[test]
fn plan_for_multiply_checks_source_then_factor() {
    let mut s: State<Frame> = State::new();
    s.insert_node(10, "m-n".to_string(), NodeSettings::multiply());
    assert_eq!(field_of(s.compute_plan(10)), (10, "source".to_string()));
    s.add_edge(10, 99);
    assert!(matches!(s.compute_plan(10), Err(Error::InternalError)));
    s.insert_node(99, "s-t".to_string(), NodeSettings::sum());
    assert!(matches!(s.compute_plan(10), Err(Error::MissingResults { node_id: 99 })));
    s.nodes.get_mut(&99).unwrap().results = Some(Err(Error::InternalError));
    assert!(matches!(s.compute_plan(10), Err(Error::MissingResults { node_id: 99 })));
    s.nodes.get_mut(&99).unwrap().results = Some(Ok((vec![1, 2], 0)));
    assert_eq!(field_of(s.compute_plan(10)), (10, "times".to_string()));
    s.update_node(10, NodeSettings::Multiply(Multiply { times: Some(-3) })).unwrap();
    assert!(matches!(s.compute_plan(10), Ok(Plan::Multiply { input: 99, times: -3 })));
}

#[test]
fn plan_for_sum_tail_and_head_read_the_source() {
    let mut s: State<Frame> = State::new();
    s.insert_node(1, "a-b".to_string(), NodeSettings::sum());
    s.insert_node(2, "c-d".to_string(), NodeSettings::Tail(Tail { row_count: Some(2) }));
    s.insert_node(3, "e-f".to_string(), NodeSettings::head());
    s.insert_node(4, "g-h".to_string(), NodeSettings::sum());
    s.nodes.get_mut(&4).unwrap().results = Some(Ok((vec![5], 1)));
    assert_eq!(field_of(s.compute_plan(2)), (2, "source".to_string()));
    s.add_edge(1, 4);
    s.add_edge(2, 4);
    s.add_edge(3, 4);
    assert!(matches!(s.compute_plan(1), Ok(Plan::Sum { input: 4 })));
    assert!(matches!(s.compute_plan(2), Ok(Plan::Tail { input: 4, row_count: Some(2) })));
    assert!(matches!(s.compute_plan(3), Ok(Plan::Head { input: 4, row_count: None })));
}

#[test]
fn cache_key_follows_settings_and_source() {
    let a = NodeSettings::Multiply(Multiply { times: Some(2) });
    let b = NodeSettings::Multiply(Multiply { times: Some(3) });
    let src = loader(Some("x.csv"), Some(","));
    assert_eq!(compute_cache_key(None, &a), compute_cache_key(None, &a));
    assert_eq!(compute_cache_key(Some(&src), &a), compute_cache_key(Some(&src), &a.duplicate()));
    assert_ne!(compute_cache_key(None, &a), compute_cache_key(None, &b));
    assert_ne!(compute_cache_key(None, &a), compute_cache_key(Some(&src), &a));
    let other_src = loader(Some("y.csv"), Some(","));
    assert_ne!(compute_cache_key(Some(&src), &a), compute_cache_key(Some(&other_src), &a));
}

#[test]
fn input_hash_follows_settings_and_digests() {
    let s = NodeSettings::head();
    assert_eq!(compute_input_hash(&s, &[1, 2]), compute_input_hash(&s, &[1, 2]));
    assert_ne!(compute_input_hash(&s, &[1, 2]), compute_input_hash(&s, &[2, 1]));
    assert_ne!(compute_input_hash(&s, &[]), compute_input_hash(&NodeSettings::tail(), &[]));
}

#[test]
fn input_key_needs_the_source_in_the_graph() {
    let mut s: State<Frame> = State::new();
    s.insert_node(1, "a-b".to_string(), NodeSettings::sum());
    let alone = s.input_key(1).unwrap();
    assert_eq!(alone, compute_cache_key(None, &NodeSettings::sum()));
    s.add_edge(1, 2);
    assert!(matches!(s.input_key(1), Err(Error::InternalError)));
    s.insert_node(2, "c-d".to_string(), NodeSettings::head());
    assert_eq!(
        s.input_key(1).unwrap(),
        compute_cache_key(Some(&NodeSettings::head()), &NodeSettings::sum())
    );
}

#[test]
fn up_to_date_needs_a_frame_with_the_same_key() {
    let mut s: State<Frame> = State::new();
    s.insert_node(1, "a-b".to_string(), NodeSettings::sum());
    assert!(!s.has_up_to_date_results(1, 7));
    s.nodes.get_mut(&1).unwrap().results = Some(Err(Error::InternalError));
    assert!(!s.has_up_to_date_results(1, 7));
    s.nodes.get_mut(&1).unwrap().results = Some(Ok((vec![], 7)));
    assert!(s.has_up_to_date_results(1, 7));
    assert!(!s.has_up_to_date_results(1, 8));
}

#[test]
fn output_reports_why_there_is_no_frame() {
    let mut s: State<Frame> = State::new();
    assert!(matches!(s.output(1), Err(Error::InternalError)));
    s.insert_node(1, "a-b".to_string(), NodeSettings::sum());
    assert!(matches!(s.output(1), Err(Error::InternalError)));
    s.nodes.get_mut(&1).unwrap().results = Some(Err(Error::MissingResults { node_id: 9 }));
    assert!(matches!(s.output(1), Err(Error::MissingResults { node_id: 9 })));
    s.nodes.get_mut(&1).unwrap().results = Some(Ok((vec![4, 5], 3)));
    assert_eq!(s.output(1).unwrap(), &vec![4, 5]);
}

#[test]
fn head_plan_defaults_are_kept() {
    let mut s: State<Frame> = State::new();
    s.insert_node(1, "a-b".to_string(), NodeSettings::Head(Head { row_count: Some(3) }));
    s.insert_node(2, "c-d".to_string(), NodeSettings::sum());
    s.nodes.get_mut(&2).unwrap().results = Some(Ok((vec![1], 0)));
    s.add_edge(1, 2);
    assert!(matches!(s.compute_plan(1), Ok(Plan::Head { input: 2, row_count: Some(3) })));
}

#[test]
fn cache_key_compares_paths_by_components() {
    let key = |p: &str| compute_cache_key(None, &loader(Some(p), Some(",")));
    assert_eq!(key("a/b.csv"), key("a//b.csv"));
    assert_eq!(key("a/b.csv"), key("a/./b.csv"));
    assert_eq!(key("a/b.csv"), key("a/b.csv/"));
    assert_eq!(key("/data/x.csv"), key("//data/./x.csv"));
    assert_ne!(key("a/b.csv"), key("./a/b.csv"));
    assert_ne!(key("a/b.csv"), key("a/../b.csv"));
    assert_ne!(key("a/b.csv"), key("a/c.csv"));
    // Like `std::path::Path`'s hash, the key runs the components together
    // and leaves a leading separator out.
    assert_eq!(key("a/b.csv"), key("/a/b.csv"));
    assert_eq!(key("a/b.csv"), key("ab.csv"));
}
