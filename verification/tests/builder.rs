use factory::config::{
    are_well_formed, build, count_items, count_steps, create_par, create_seq, create_steps,
    definition_name, is_well_formed, Atom, AtomKind, BuildError, Composition, Definition,
};
use factory::step::{Step, StepId};

fn text(s: &str) -> String {
    String::from(s)
}

fn ids(numbers: &[u64]) -> Vec<StepId> {
    numbers.iter().map(|n| StepId(*n)).collect()
}

fn preds_of(step: &Step) -> Vec<StepId> {
    let mut members = step.requires.to_vec();
    members.sort();
    members
}

fn cmd(descriptor: usize, program: &str, wants: &[&str]) -> Composition {
    Composition::Atom(Atom {
        descriptor,
        kind: AtomKind::Cmd { program: text(program) },
        wants: wants.iter().map(|w| text(w)).collect(),
        note: None,
    })
}

fn expr(descriptor: usize, name: &str) -> Composition {
    Composition::Atom(Atom {
        descriptor,
        kind: AtomKind::Expr { name: text(name) },
        wants: Vec::new(),
        note: Some(text("binds a value")),
    })
}

fn dynamic(descriptor: usize, wants: &[&str]) -> Composition {
    Composition::Atom(Atom {
        descriptor,
        kind: AtomKind::Dynamic,
        wants: wants.iter().map(|w| text(w)).collect(),
        note: None,
    })
}

fn def(name: &str, body: Composition) -> Definition {
    Definition { name: text(name), body }
}

#[test]
fn definition_names_follow_the_prefix() {
    assert_eq!(definition_name("step_build"), Some(text("build")));
    assert_eq!(definition_name("step_run_tests"), Some(text("run_tests")));
    assert_eq!(definition_name("init"), None);
    assert_eq!(definition_name("stepbuild"), None);
}

#[test]
fn sizes_count_atoms_and_sets() {
    assert_eq!(count_steps(&cmd(0, "a", &[])), Some(1));
    let seq = Composition::Ordered(vec![cmd(0, "a", &[]), cmd(1, "b", &[])]);
    assert_eq!(count_steps(&seq), Some(2));
    let par = Composition::Unordered(vec![cmd(0, "a", &[]), cmd(1, "b", &[])]);
    assert_eq!(count_steps(&par), Some(3));
    let nested = Composition::Ordered(vec![par, cmd(2, "c", &[])]);
    assert_eq!(count_steps(&nested), Some(4));
    assert_eq!(count_steps(&Composition::Unordered(Vec::new())), Some(1));
    assert_eq!(count_steps(&Composition::Ordered(Vec::new())), Some(0));
    let items = vec![cmd(0, "a", &[]), cmd(1, "b", &[]), cmd(2, "c", &[])];
    assert_eq!(count_items(&items, 0), Some(0));
    assert_eq!(count_items(&items, 2), Some(2));
}

#[test]
fn empty_sequences_and_sets_are_malformed() {
    assert!(is_well_formed(&cmd(0, "a", &[])));
    assert!(!is_well_formed(&Composition::Ordered(Vec::new())));
    assert!(!is_well_formed(&Composition::Unordered(Vec::new())));
    let inner = Composition::Ordered(vec![cmd(0, "a", &[]), Composition::Unordered(Vec::new())]);
    assert!(!is_well_formed(&inner));
    let fine = Composition::Ordered(vec![cmd(0, "a", &[]), Composition::Unordered(vec![cmd(1, "b", &[])])]);
    assert!(is_well_formed(&fine));
    let items = vec![cmd(0, "a", &[]), Composition::Ordered(Vec::new())];
    assert!(are_well_formed(&items, 1));
    assert!(!are_well_formed(&items, 2));
}

#[test]
fn an_atom_becomes_one_step() {
    let mut next = StepId(5);
    let steps = create_steps(&cmd(9, "/usr/bin/gcc", &["lib"]), &mut next, StepId(0), "compile", true);
    assert_eq!(next, StepId(6));
    assert_eq!(steps.len(), 1);
    assert_eq!(steps[0].id, StepId(5));
    assert_eq!(preds_of(&steps[0]), ids(&[0]));
    assert_eq!(steps[0].descriptor, Some(9));
    assert_eq!(steps[0].wants, vec![text("lib")]);
    assert_eq!(steps[0].target_name, Some(text("compile")));
    assert_eq!(steps[0].name, "compile: gcc");
    assert_eq!(steps[0].note, None);
}

#[test]
fn an_atom_inside_a_definition_carries_no_target_name() {
    let mut next = StepId(1);
    let steps = create_steps(&expr(0, "n"), &mut next, StepId(0), "cfg", false);
    assert_eq!(steps[0].target_name, None);
    assert_eq!(steps[0].name, "cfg: expr n");
    assert_eq!(steps[0].note, Some(text("binds a value")));
    let mut next = StepId(1);
    let steps = create_steps(&dynamic(0, &[]), &mut next, StepId(0), "late", true);
    assert_eq!(steps[0].name, "late: <dynamic>");
}

#[test]
fn a_sequence_threads_the_join_through_its_parts() {
    let seq = Composition::Ordered(vec![cmd(0, "a", &[]), cmd(1, "b", &[]), cmd(2, "c", &[])]);
    let mut next = StepId(1);
    let steps = create_steps(&seq, &mut next, StepId(0), "all", true);
    assert_eq!(next, StepId(4));
    assert_eq!(steps.iter().map(|s| s.id).collect::<Vec<_>>(), ids(&[1, 2, 3]));
    assert_eq!(preds_of(&steps[0]), ids(&[0]));
    assert_eq!(preds_of(&steps[1]), ids(&[1]));
    assert_eq!(preds_of(&steps[2]), ids(&[2]));
    assert_eq!(steps[0].target_name, None);
    assert_eq!(steps[1].target_name, None);
    assert_eq!(steps[2].target_name, Some(text("all")));
    assert_eq!(steps[2].name, "all: c");
}

#[test]
fn a_set_joins_its_members_in_a_collect_step() {
    let par = Composition::Unordered(vec![cmd(0, "x", &[]), cmd(1, "y", &[]), cmd(2, "z", &[])]);
    let mut next = StepId(1);
    let steps = create_steps(&par, &mut next, StepId(0), "join", true);
    assert_eq!(next, StepId(5));
    assert_eq!(steps.iter().map(|s| s.id).collect::<Vec<_>>(), ids(&[2, 3, 4, 1]));
    for member in &steps[..3] {
        assert_eq!(preds_of(member), ids(&[0]));
        assert_eq!(member.target_name, None);
        assert!(member.descriptor.is_some());
    }
    let collect = &steps[3];
    assert_eq!(preds_of(collect), ids(&[2, 3, 4]));
    assert_eq!(collect.descriptor, None);
    assert_eq!(collect.target_name, Some(text("join")));
    assert_eq!(collect.name, "collect join");
    assert_eq!(collect.wants, Vec::<String>::new());
}

#[test]
fn a_set_inside_a_sequence_joins_before_the_next_part() {
    let par = Composition::Unordered(vec![cmd(0, "x", &[]), cmd(1, "y", &[])]);
    let seq = Composition::Ordered(vec![par, cmd(2, "z", &[])]);
    let mut next = StepId(1);
    let steps = create_steps(&seq, &mut next, StepId(0), "t", true);
    assert_eq!(steps.iter().map(|s| s.id).collect::<Vec<_>>(), ids(&[2, 3, 1, 4]));
    assert_eq!(preds_of(&steps[2]), ids(&[2, 3]));
    assert_eq!(steps[2].target_name, None);
    assert_eq!(preds_of(&steps[3]), ids(&[1]));
    assert_eq!(steps[3].target_name, Some(text("t")));
}

#[test]
fn a_sequence_inside_a_set_ends_in_the_collect_step() {
    let seq = Composition::Ordered(vec![cmd(0, "p", &[]), cmd(1, "q", &[])]);
    let par = Composition::Unordered(vec![seq, cmd(2, "r", &[])]);
    let mut next = StepId(1);
    let steps = create_steps(&par, &mut next, StepId(0), "t", true);
    assert_eq!(steps.iter().map(|s| s.id).collect::<Vec<_>>(), ids(&[2, 3, 4, 1]));
    assert_eq!(preds_of(&steps[0]), ids(&[0]));
    assert_eq!(preds_of(&steps[1]), ids(&[2]));
    assert_eq!(preds_of(&steps[2]), ids(&[0]));
    assert_eq!(preds_of(&steps[3]), ids(&[3, 4]));
    assert_eq!(steps[1].target_name, None);
}

#[test]
fn prefixes_of_sequences_and_sets() {
    let items = vec![cmd(0, "a", &[]), cmd(1, "b", &[]), cmd(2, "c", &[])];
    let mut next = StepId(1);
    let two = create_seq(&items, 2, &mut next, StepId(0), "t", true);
    assert_eq!(two.len(), 2);
    assert_eq!(two[1].target_name, None);
    assert_eq!(preds_of(&two[1]), ids(&[1]));
    let mut next = StepId(1);
    let (members, lasts) = create_par(&items, 3, &mut next, StepId(0), "t");
    assert_eq!(members.len(), 3);
    assert_eq!(lasts.to_vec(), ids(&[1, 2, 3]));
    let mut next = StepId(1);
    let (none, no_lasts) = create_par(&items, 0, &mut next, StepId(0), "t");
    assert!(none.is_empty());
    assert!(no_lasts.is_empty());
    assert_eq!(next, StepId(1));
}

#[test]
fn build_starts_with_the_start_step() {
    let steps = build(&Vec::new()).unwrap();
    assert_eq!(steps.len(), 1);
    assert_eq!(steps[0].id, StepId(0));
    assert!(steps[0].requires.is_empty());
    assert_eq!(steps[0].name, "start");
    assert_eq!(steps[0].target_name, None);
    assert_eq!(steps[0].descriptor, None);
}

#[test]
fn build_joins_every_definition_to_the_start_step() {
    let defs = vec![def("a", cmd(0, "/bin/echo", &[])), def("b", cmd(1, "cat", &[]))];
    let steps = build(&defs).unwrap();
    assert_eq!(steps.iter().map(|s| s.id).collect::<Vec<_>>(), ids(&[0, 1, 2]));
    assert_eq!(preds_of(&steps[1]), ids(&[0]));
    assert_eq!(preds_of(&steps[2]), ids(&[0]));
    assert_eq!(steps[1].target_name, Some(text("a")));
    assert_eq!(steps[2].target_name, Some(text("b")));
    assert_eq!(steps[1].name, "a: echo");
    assert_eq!(steps[2].name, "b: cat");
}

#[test]
fn build_resolves_the_targets_that_a_step_asks_for() {
    let defs = vec![
        def("b", cmd(1, "cat", &["a"])),
        def("a", Composition::Ordered(vec![cmd(0, "echo", &[]), cmd(2, "touch", &[])])),
    ];
    let steps = build(&defs).unwrap();
    assert_eq!(steps.iter().map(|s| s.id).collect::<Vec<_>>(), ids(&[0, 1, 2, 3]));
    // b requires the last step of a; the edge to the start step is redundant.
    assert_eq!(preds_of(&steps[1]), ids(&[3]));
    assert_eq!(preds_of(&steps[2]), ids(&[0]));
    assert_eq!(preds_of(&steps[3]), ids(&[2]));
}

#[test]
fn build_drops_redundant_edges() {
    let defs = vec![
        def("a", cmd(0, "a", &[])),
        def("b", cmd(1, "b", &["a"])),
        def("c", cmd(2, "c", &["a", "b"])),
    ];
    let steps = build(&defs).unwrap();
    assert_eq!(preds_of(&steps[1]), ids(&[0]));
    assert_eq!(preds_of(&steps[2]), ids(&[1]));
    assert_eq!(preds_of(&steps[3]), ids(&[2]));
}

#[test]
fn build_refuses_an_empty_composition() {
    let defs = vec![def("a", Composition::Ordered(Vec::new()))];
    assert_eq!(build(&defs).err(), Some(BuildError::EmptyComposition));
    let defs = vec![
        def("a", cmd(0, "a", &[])),
        def("b", Composition::Ordered(vec![Composition::Unordered(Vec::new())])),
    ];
    assert_eq!(build(&defs).err(), Some(BuildError::EmptyComposition));
}

#[test]
fn build_refuses_two_definitions_of_one_name() {
    let defs = vec![def("a", cmd(0, "a", &[])), def("b", cmd(1, "b", &[])), def("a", cmd(2, "c", &[]))];
    assert_eq!(build(&defs).err(), Some(BuildError::DuplicateTarget));
}

#[test]
fn build_refuses_an_unknown_target() {
    let defs = vec![def("a", cmd(0, "a", &["nowhere"]))];
    assert_eq!(build(&defs).err(), Some(BuildError::UnknownDependency));
}

#[test]
fn build_refuses_a_cycle() {
    let defs = vec![def("a", cmd(0, "a", &["b"])), def("b", cmd(1, "b", &["a"]))];
    assert_eq!(build(&defs).err(), Some(BuildError::Cycle));
    let own = vec![def("a", cmd(0, "a", &["a"]))];
    assert_eq!(build(&own).err(), Some(BuildError::Cycle));
}

#[test]
fn build_reports_the_first_kind_of_fault() {
    let defs = vec![
        def("a", cmd(0, "a", &["nowhere"])),
        def("a", Composition::Unordered(Vec::new())),
    ];
    assert_eq!(build(&defs).err(), Some(BuildError::EmptyComposition));
    let defs = vec![def("a", cmd(0, "a", &["nowhere"])), def("a", cmd(1, "b", &[]))];
    assert_eq!(build(&defs).err(), Some(BuildError::DuplicateTarget));
}

#[test]
fn built_steps_have_one_start_and_unique_target_names() {
    let fan = Composition::Ordered(vec![
        cmd(0, "root", &[]),
        Composition::Unordered(vec![cmd(1, "x", &[]), cmd(2, "y", &[]), cmd(3, "z", &[])]),
    ]);
    let defs = vec![def("fan", fan), def("after", dynamic(4, &["fan"]))];
    let steps = build(&defs).unwrap();
    let roots: Vec<StepId> = steps.iter().filter(|s| s.requires.is_empty()).map(|s| s.id).collect();
    assert_eq!(roots, ids(&[0]));
    let mut names: Vec<String> = steps.iter().filter_map(|s| s.target_name.clone()).collect();
    names.sort();
    assert_eq!(names, vec![text("after"), text("fan")]);
    // root = 1, collect = 2, x, y, z = 3, 4, 5, after = 6.
    assert_eq!(steps.iter().map(|s| s.id).collect::<Vec<_>>(), ids(&[0, 1, 3, 4, 5, 2, 6]));
    assert_eq!(preds_of(&steps[5]), ids(&[3, 4, 5]));
    assert_eq!(preds_of(&steps[6]), ids(&[2]));
}
