use dataflow::compute::Plan;
use dataflow::error::Error;
use dataflow::graph::State;
use dataflow::node::{Head, LoadData, Multiply, NodeSettings};

type Frame = Vec<i64>;

/// Runs the frame work of a plan on frames that are plain vectors.
fn perform(state: &State<Frame>, plan: Plan) -> Frame {
    match plan {
        Plan::Load { path, .. } => vec![path.len() as i64, 1, 2, 3],
        Plan::Multiply { input, times } => {
            let mut f = state.output(input).unwrap().clone();
            if let Some(x) = f.first_mut() {
                *x *= times;
            }
            f
        }
        Plan::Sum { input } => vec![state.output(input).unwrap().iter().sum()],
        Plan::Tail { input, row_count } => {
            let f = state.output(input).unwrap();
            let n = row_count.unwrap_or(5).min(f.len());
            f[f.len() - n..].to_vec()
        }
        Plan::Head { input, row_count } => {
            let f = state.output(input).unwrap();
            let n = row_count.unwrap_or(5).min(f.len());
            f[..n].to_vec()
        }
    }
}

/// Brings `target` up to date and lists the nodes that needed frame work.
fn calculate(state: &mut State<Frame>, target: u128) -> Vec<u128> {
    let mut calc = state.begin_calculation(target).expect("calculable");
    let mut worked = Vec::new();
    while let Some((id, plan)) = calc.next_step(state) {
        worked.push(id);
        let frame = perform(state, plan);
        calc.finish_step(state, frame);
    }
    worked
}

fn chain() -> State<Frame> {
    let mut s: State<Frame> = State::new();
    s.insert_node(
        1,
        "load-it".to_string(),
        NodeSettings::LoadData(LoadData {
            separator: Some(",".to_string()),
            path: Some("abc.csv".to_string()),
        }),
    );
    s.insert_node(2, "times-two".to_string(), NodeSettings::Multiply(Multiply { times: Some(2) }));
    s.insert_node(3, "first-rows".to_string(), NodeSettings::Head(Head { row_count: Some(2) }));
    s.add_edge(2, 1);
    s.add_edge(3, 2);
    s
}

#[test]
fn calculation_runs_sources_first() {
    let mut s = chain();
    let mut calc = s.begin_calculation(3).unwrap();
    match calc.next_step(&mut s) {
        Some((1, Plan::Load { path, delimiter })) => {
            assert_eq!(path, "abc.csv");
            assert_eq!(delimiter, Some(b','));
        }
        other => panic!("unexpected {:?}", other),
    }
    calc.finish_step(&mut s, vec![7, 1, 2, 3]);
    assert!(matches!(calc.next_step(&mut s), Some((2, Plan::Multiply { input: 1, times: 2 }))));
    calc.finish_step(&mut s, vec![14, 1, 2, 3]);
    assert!(matches!(calc.next_step(&mut s), Some((3, Plan::Head { input: 2, row_count: Some(2) }))));
    calc.finish_step(&mut s, vec![14, 1]);
    assert!(calc.next_step(&mut s).is_none());
    assert_eq!(s.output(3).unwrap(), &vec![14, 1]);
}

#[test]
fn calculation_gives_the_expected_frame() {
    let mut s = chain();
    assert_eq!(calculate(&mut s, 3), vec![1, 2, 3]);
    assert_eq!(s.output(1).unwrap(), &vec![7, 1, 2, 3]);
    assert_eq!(s.output(2).unwrap(), &vec![14, 1, 2, 3]);
    assert_eq!(s.output(3).unwrap(), &vec![14, 1]);
}

#[test]
fn second_calculation_reuses_every_result() {
    let mut s = chain();
    calculate(&mut s, 3);
    assert_eq!(calculate(&mut s, 3), Vec::<u128>::new());
    assert_eq!(s.output(3).unwrap(), &vec![14, 1]);
}

#[test]
fn calculation_of_a_source_leaves_its_readers_alone() {
    let mut s = chain();
    assert_eq!(calculate(&mut s, 2), vec![1, 2]);
    assert!(s.nodes[&3].results.is_none());
    assert_eq!(calculate(&mut s, 3), vec![3]);
}

#[test]
fn changed_settings_recompute_the_node_and_its_readers() {
    let mut s = chain();
    calculate(&mut s, 3);
    s.update_node(2, NodeSettings::Multiply(Multiply { times: Some(3) })).unwrap();
    assert_eq!(calculate(&mut s, 3), vec![2, 3]);
    assert_eq!(s.output(3).unwrap(), &vec![21, 1]);
}

#[test]
fn errors_are_recorded_and_passed_downstream() {
    let mut s = chain();
    s.update_node(2, NodeSettings::multiply()).unwrap();
    assert_eq!(calculate(&mut s, 3), vec![1]);
    match s.output(2) {
        Err(Error::MissingFieldData { node_id, field }) => {
            assert_eq!(node_id, 2);
            assert_eq!(field, "times");
        }
        other => panic!("unexpected {:?}", other),
    }
    assert!(matches!(s.output(3), Err(Error::MissingResults { node_id: 2 })));
    // An error is never reused: the next calculation plans the node again.
    assert_eq!(calculate(&mut s, 3), Vec::<u128>::new());
    assert!(matches!(s.output(3), Err(Error::MissingResults { node_id: 2 })));
}

#[test]
fn loops_in_the_edges_cannot_be_calculated() {
    let mut s = chain();
    s.add_edge(1, 3);
    assert!(s.begin_calculation(3).is_none());
    let mut t: State<Frame> = State::new();
    t.insert_node(4, "self-loop".to_string(), NodeSettings::sum());
    t.add_edge(4, 4);
    assert!(t.begin_calculation(4).is_none());
}

#[test]
fn chains_through_unknown_nodes_cannot_be_calculated() {
    let mut s = chain();
    s.add_edge(1, 77);
    assert!(s.begin_calculation(3).is_none());
    assert!(s.begin_calculation(42).is_none());
}

#[test]
fn node_without_source_is_its_own_chain() {
    let mut s = chain();
    assert_eq!(calculate(&mut s, 1), vec![1]);
    assert!(s.nodes[&2].results.is_none());
}

#[test]
fn recalculating_a_chain_with_errors_changes_nothing() {
    let mut s = chain();
    s.update_node(2, NodeSettings::multiply()).unwrap();
    calculate(&mut s, 3);
    let before: Vec<String> = (1..=3u128).map(|id| format!("{:?}", s.nodes[&id].results)).collect();
    assert_eq!(calculate(&mut s, 3), Vec::<u128>::new());
    let after: Vec<String> = (1..=3u128).map(|id| format!("{:?}", s.nodes[&id].results)).collect();
    assert_eq!(before, after);
}
