use factory::depgraph::{is_prefix_of, linearize, paths_from, step_index_by_id, IdGraph};
use factory::step::{IdSet, Step, StepId};

fn ids(numbers: &[u64]) -> Vec<StepId> {
    numbers.iter().map(|n| StepId(*n)).collect()
}

fn sorted(set: &IdSet) -> Vec<StepId> {
    let mut members = set.to_vec();
    members.sort();
    members
}

fn step(id: u64, requires: &[u64]) -> Step {
    let mut set = IdSet::new();
    for r in requires {
        set.insert(StepId(*r));
    }
    Step {
        id: StepId(id),
        requires: set,
        descriptor: Some(id as usize),
        wants: vec![format!("w{}", id)],
        target_name: Some(format!("t{}", id)),
        name: format!("s{}", id),
        note: None,
    }
}

fn reaches(steps: &[Step], from: StepId, to: StepId) -> bool {
    let index = steps.iter().position(|s| s.id == from).unwrap();
    steps[index]
        .requires
        .to_vec()
        .into_iter()
        .any(|r| r == to || reaches(steps, r, to))
}

#[test]
fn prefix_test_compares_element_by_element() {
    assert!(is_prefix_of(&ids(&[]), &ids(&[])));
    assert!(is_prefix_of(&ids(&[]), &ids(&[1])));
    assert!(is_prefix_of(&ids(&[1, 2]), &ids(&[1, 2, 3])));
    assert!(is_prefix_of(&ids(&[1, 2]), &ids(&[1, 2])));
    assert!(!is_prefix_of(&ids(&[1, 3]), &ids(&[1, 2, 3])));
    assert!(!is_prefix_of(&ids(&[1, 2, 3]), &ids(&[1, 2])));
    assert!(!is_prefix_of(&ids(&[2]), &ids(&[1, 2])));
}

#[test]
fn step_index_is_the_position_of_the_id() {
    let steps = vec![step(4, &[]), step(2, &[4]), step(9, &[2])];
    assert_eq!(step_index_by_id(&steps, StepId(4)), 0);
    assert_eq!(step_index_by_id(&steps, StepId(2)), 1);
    assert_eq!(step_index_by_id(&steps, StepId(9)), 2);
}

#[test]
fn paths_from_a_root_is_the_root_alone() {
    let steps = vec![step(0, &[]), step(1, &[0])];
    assert_eq!(paths_from(&steps, StepId(0)), vec![ids(&[0])]);
}

#[test]
fn paths_from_lists_every_path_from_the_roots() {
    let steps = vec![step(0, &[]), step(1, &[0]), step(2, &[0]), step(3, &[1, 2])];
    let mut paths = paths_from(&steps, StepId(3));
    paths.sort();
    assert_eq!(paths, vec![ids(&[0, 1, 3]), ids(&[0, 2, 3])]);
    assert_eq!(paths_from(&steps, StepId(1)), vec![ids(&[0, 1])]);
}

#[test]
fn linearize_drops_the_shortcut_of_a_chain() {
    let mut steps = vec![step(0, &[]), step(1, &[0]), step(2, &[0, 1])];
    linearize(&mut steps);
    assert_eq!(steps.len(), 3);
    assert_eq!(steps[0].requires.to_vec(), ids(&[]));
    assert_eq!(steps[1].requires.to_vec(), ids(&[0]));
    assert_eq!(steps[2].requires.to_vec(), ids(&[1]));
}

#[test]
fn linearize_keeps_everything_but_the_requires() {
    let mut steps = vec![step(0, &[]), step(1, &[0]), step(2, &[0, 1])];
    linearize(&mut steps);
    for (index, id) in [0u64, 1, 2].iter().enumerate() {
        assert_eq!(steps[index].id, StepId(*id));
        assert_eq!(steps[index].descriptor, Some(*id as usize));
        assert_eq!(steps[index].wants, vec![format!("w{}", id)]);
        assert_eq!(steps[index].target_name, Some(format!("t{}", id)));
        assert_eq!(steps[index].name, format!("s{}", id));
        assert_eq!(steps[index].note, None);
    }
}

#[test]
fn linearize_keeps_a_diamond() {
    let mut steps = vec![step(0, &[]), step(1, &[0]), step(2, &[0]), step(3, &[1, 2])];
    linearize(&mut steps);
    assert_eq!(steps[1].requires.to_vec(), ids(&[0]));
    assert_eq!(steps[2].requires.to_vec(), ids(&[0]));
    assert_eq!(sorted(&steps[3].requires), ids(&[1, 2]));
}

#[test]
fn linearize_drops_every_predecessor_that_another_one_depends_on() {
    let mut steps = vec![
        step(0, &[]),
        step(1, &[0]),
        step(2, &[1]),
        step(3, &[0, 1, 2]),
        step(4, &[3, 0]),
    ];
    linearize(&mut steps);
    assert_eq!(steps[3].requires.to_vec(), ids(&[2]));
    assert_eq!(steps[4].requires.to_vec(), ids(&[3]));
}

#[test]
fn linearize_preserves_reachability() {
    let before = vec![
        step(0, &[]),
        step(1, &[0]),
        step(2, &[0, 1]),
        step(3, &[0, 2]),
        step(4, &[1, 3, 0]),
        step(5, &[0]),
    ];
    let mut after: Vec<Step> = before.iter().map(|s| s.clone()).collect();
    linearize(&mut after);
    for a in 0..6u64 {
        for b in 0..6u64 {
            assert_eq!(
                reaches(&before, StepId(a), StepId(b)),
                reaches(&after, StepId(a), StepId(b))
            );
        }
    }
}

#[test]
fn linearize_leaves_no_edge_beside_a_longer_path() {
    let mut steps = vec![
        step(0, &[]),
        step(1, &[0]),
        step(2, &[0, 1]),
        step(3, &[0, 2]),
        step(4, &[1, 3, 0]),
    ];
    linearize(&mut steps);
    for s in steps.iter() {
        for direct in s.requires.to_vec() {
            for other in s.requires.to_vec() {
                if other != direct {
                    assert!(!reaches(&steps, other, direct));
                }
            }
        }
    }
    let graph = IdGraph::from_steps(&steps);
    assert!(graph.is_closed());
}

#[test]
fn linearize_of_a_single_root_changes_nothing() {
    let mut steps = vec![step(0, &[])];
    linearize(&mut steps);
    assert_eq!(steps.len(), 1);
    assert!(steps[0].requires.is_empty());
}
