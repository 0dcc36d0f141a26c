use factory::acyclic::is_acyclic;
use factory::depgraph::IdGraph;
use factory::step::{IdSet, Step, StepId};

fn ids(numbers: &[u64]) -> Vec<StepId> {
    numbers.iter().map(|n| StepId(*n)).collect()
}

fn sorted(set: &IdSet) -> Vec<StepId> {
    let mut members = set.to_vec();
    members.sort();
    members
}

fn step(id: u64, requires: &[u64]) -> Step {
    let mut set = IdSet::new();
    for r in requires {
        set.insert(StepId(*r));
    }
    Step {
        id: StepId(id),
        requires: set,
        descriptor: None,
        wants: Vec::new(),
        target_name: None,
        name: format!("s{}", id),
        note: None,
    }
}

#[test]
fn graph_lists_nodes_and_dependencies() {
    let steps = vec![step(0, &[]), step(1, &[0]), step(2, &[0, 1])];
    let graph = IdGraph::from_steps(&steps);
    assert_eq!(graph.nodes().to_vec(), ids(&[0, 1, 2]));
    assert_eq!(graph.dependencies_of(StepId(0)).to_vec(), ids(&[]));
    assert_eq!(graph.dependencies_of(StepId(2)).to_vec(), ids(&[0, 1]));
    assert!(graph.contains(StepId(1)));
    assert!(!graph.contains(StepId(3)));
}

#[test]
fn empty_graph_has_no_nodes() {
    let graph = IdGraph::new();
    assert!(graph.nodes().is_empty());
    assert!(graph.targets().is_empty());
    assert!(graph.is_closed());
    assert!(is_acyclic(&graph));
}

#[test]
fn later_step_with_the_same_id_decides() {
    let steps = vec![step(0, &[]), step(1, &[0]), step(1, &[])];
    let graph = IdGraph::from_steps(&steps);
    assert_eq!(graph.nodes().to_vec(), ids(&[0, 1]));
    assert!(graph.dependencies_of(StepId(1)).is_empty());
}

#[test]
fn set_replaces_an_entry() {
    let mut graph = IdGraph::new();
    graph.set(StepId(1), IdSet::from_distinct(ids(&[0])));
    graph.set(StepId(0), IdSet::new());
    graph.set(StepId(1), IdSet::new());
    assert_eq!(graph.nodes().to_vec(), ids(&[1, 0]));
    assert!(graph.dependencies_of(StepId(1)).is_empty());
}

#[test]
fn targets_are_the_nodes_that_nothing_requires() {
    let steps = vec![step(0, &[]), step(1, &[0]), step(2, &[0]), step(3, &[1])];
    let graph = IdGraph::from_steps(&steps);
    assert_eq!(sorted(&graph.targets()), ids(&[2, 3]));
}

#[test]
fn focus_keeps_the_target_and_what_it_requires() {
    let steps = vec![
        step(0, &[]),
        step(1, &[0]),
        step(2, &[0]),
        step(3, &[1]),
        step(4, &[2, 3]),
        step(5, &[2]),
    ];
    let graph = IdGraph::from_steps(&steps);
    let focused = graph.focus(StepId(3));
    assert_eq!(sorted(&focused.nodes()), ids(&[0, 1, 3]));
    assert_eq!(focused.dependencies_of(StepId(3)).to_vec(), ids(&[1]));
    assert_eq!(focused.dependencies_of(StepId(1)).to_vec(), ids(&[0]));
    assert!(focused.dependencies_of(StepId(0)).is_empty());
    let all = graph.focus(StepId(4));
    assert_eq!(sorted(&all.nodes()), ids(&[0, 1, 2, 3, 4]));
}

#[test]
fn focus_on_a_root_is_the_root_alone() {
    let steps = vec![step(0, &[]), step(1, &[0])];
    let graph = IdGraph::from_steps(&steps);
    let focused = graph.focus(StepId(0));
    assert_eq!(focused.nodes().to_vec(), ids(&[0]));
}

#[test]
fn focusing_twice_changes_nothing() {
    let steps = vec![
        step(0, &[]),
        step(1, &[0]),
        step(2, &[0, 1]),
        step(3, &[2]),
        step(4, &[0]),
    ];
    let graph = IdGraph::from_steps(&steps);
    let once = graph.focus(StepId(2));
    let twice = once.focus(StepId(2));
    assert_eq!(sorted(&once.nodes()), sorted(&twice.nodes()));
    for node in once.nodes().to_vec() {
        assert_eq!(
            sorted(once.dependencies_of(node)),
            sorted(twice.dependencies_of(node))
        );
    }
    assert_eq!(sorted(&twice.nodes()), ids(&[0, 1, 2]));
}

#[test]
fn closed_graph_names_only_its_nodes() {
    let closed = IdGraph::from_steps(&[step(0, &[]), step(1, &[0])]);
    assert!(closed.is_closed());
    let open = IdGraph::from_steps(&[step(0, &[]), step(1, &[7])]);
    assert!(!open.is_closed());
}

#[test]
fn cycles_are_found() {
    let chain = IdGraph::from_steps(&[step(0, &[]), step(1, &[0]), step(2, &[1])]);
    assert!(is_acyclic(&chain));
    let looped = IdGraph::from_steps(&[step(0, &[2]), step(1, &[0]), step(2, &[1])]);
    assert!(!is_acyclic(&looped));
    let own = IdGraph::from_steps(&[step(0, &[0])]);
    assert!(!is_acyclic(&own));
    let partly = IdGraph::from_steps(&[step(0, &[]), step(1, &[0, 2]), step(2, &[1])]);
    assert!(!is_acyclic(&partly));
}

#[test]
fn clone_of_a_graph_has_the_same_entries() {
    let graph = IdGraph::from_steps(&[step(0, &[]), step(1, &[0])]);
    let copy = graph.clone();
    assert_eq!(copy.nodes().to_vec(), graph.nodes().to_vec());
    assert_eq!(copy.dependencies_of(StepId(1)).to_vec(), ids(&[0]));
}
