use factory::cfg::{ConfigMap, Value};
use factory::command::{Chunk, CommandResult, CommandResultData, ProcessOutput};
use factory::config::{build, Atom, AtomKind, Composition, Definition};
use factory::executor::{
    find_target_id, has_distinct_ids, Action, Executor, Outcome, Resolution, RunError,
};
use factory::step::{IdSet, Step, StepId};

fn text(s: &str) -> String {
    String::from(s)
}

fn ids(numbers: &[u64]) -> Vec<StepId> {
    numbers.iter().map(|n| StepId(*n)).collect()
}

fn atom(descriptor: usize, wants: &[&str]) -> Composition {
    Composition::Atom(Atom {
        descriptor,
        kind: AtomKind::Dynamic,
        wants: wants.iter().map(|w| text(w)).collect(),
        note: None,
    })
}

fn def(name: &str, body: Composition) -> Definition {
    Definition { name: text(name), body }
}

fn step(id: u64, requires: &[u64], target: Option<&str>) -> Step {
    let mut set = IdSet::new();
    for r in requires {
        set.insert(StepId(*r));
    }
    Step {
        id: StepId(id),
        requires: set,
        descriptor: Some(id as usize),
        wants: Vec::new(),
        target_name: target.map(text),
        name: format!("s{}", id),
        note: None,
    }
}

fn ran(id: u64, code: i32) -> CommandResult {
    CommandResult {
        step_id: StepId(id),
        time: 10,
        data: CommandResultData::Output(ProcessOutput {
            code: Some(code),
            stdout: b"out".to_vec(),
            stderr: Vec::new(),
        }),
    }
}

fn fresh(id: u64) -> CommandResult {
    CommandResult { step_id: StepId(id), time: 1, data: CommandResultData::Fresh }
}

fn initial_cfg() -> ConfigMap {
    let mut cfg = ConfigMap::new();
    cfg.set(text("root_dir"), Value::Text(text("/project")));
    cfg.set(text("threads"), Value::Int(1));
    cfg
}

fn chain() -> Vec<Step> {
    build(&vec![def("a", atom(0, &[])), def("b", atom(1, &["a"]))]).unwrap()
}

fn recorded(run: &Executor, numbers: &[u64]) -> Vec<bool> {
    numbers.iter().map(|n| run.results().get(StepId(*n)).is_some()).collect()
}

#[test]
fn target_is_found_by_its_name() {
    let steps = vec![step(0, &[], None), step(1, &[0], Some("a")), step(2, &[0], Some("b"))];
    assert_eq!(find_target_id(&steps, "b"), Some(StepId(2)));
    assert_eq!(find_target_id(&steps, "a"), Some(StepId(1)));
    assert_eq!(find_target_id(&steps, "c"), None);
    let twice = vec![step(4, &[], Some("a")), step(5, &[], Some("a"))];
    assert_eq!(find_target_id(&twice, "a"), Some(StepId(4)));
}

#[test]
fn distinct_ids_are_recognized() {
    assert!(has_distinct_ids(&[step(0, &[], None), step(1, &[], None)]));
    assert!(!has_distinct_ids(&[step(0, &[], None), step(1, &[], None), step(0, &[], None)]));
    assert!(has_distinct_ids(&[]));
}

#[test]
fn run_of_an_unknown_target_is_refused() {
    let made = Executor::new(chain(), "nothing", initial_cfg());
    assert!(matches!(made, Err(RunError::Descriptor(_))));
}

#[test]
fn run_over_a_dangling_requirement_is_refused() {
    let steps = vec![step(0, &[], None), step(1, &[7], Some("a"))];
    assert!(matches!(Executor::new(steps, "a", initial_cfg()), Err(RunError::Descriptor(_))));
}

#[test]
fn run_over_a_repeated_identifier_is_refused() {
    let steps = vec![step(0, &[], None), step(1, &[0], Some("a")), step(1, &[0], None)];
    assert!(matches!(Executor::new(steps, "a", initial_cfg()), Err(RunError::Descriptor(_))));
}

#[test]
fn linear_chain_runs_in_order() {
    let mut run = Executor::new(chain(), "b", initial_cfg()).unwrap();
    assert_eq!(run.target_id(), StepId(2));
    assert_eq!(run.all_steps().len(), 3);
    assert_eq!(run.poll(), Action::Resolve(StepId(1)));
    assert_eq!(run.awaiting_resolution(), Some(StepId(1)));
    assert_eq!(run.poll(), Action::Resolve(StepId(1)));
    assert!(!run.expects(StepId(1)));
    assert_eq!(run.resolved(Resolution::Cmd, 0), Ok(Outcome::Dispatch));
    assert!(run.expects(StepId(1)));
    assert!(!run.expects(StepId(2)));
    assert_eq!(run.poll(), Action::Wait);
    assert_eq!(run.completed_with(ran(1, 0), None), Ok(()));
    assert_eq!(run.poll(), Action::Resolve(StepId(2)));
    assert_eq!(run.resolved(Resolution::Cmd, 0), Ok(Outcome::Dispatch));
    assert_eq!(run.poll(), Action::Wait);
    assert_eq!(run.completed_with(ran(2, 0), None), Ok(()));
    assert_eq!(run.poll(), Action::Done);
    assert_eq!(run.poll(), Action::Done);
    assert_eq!(recorded(&run, &[0, 1, 2]), vec![false, true, true]);
    let stats = run.into_statistics();
    assert_eq!(stats.len(), 2);
    assert_eq!(stats.get(StepId(1)), Some(&ran(1, 0)));
}

#[test]
fn completed_steps_are_the_target_and_what_it_requires() {
    let defs = vec![
        def("a", atom(0, &[])),
        def("b", atom(1, &["a"])),
        def("c", atom(2, &["b"])),
        def("other", atom(3, &["a"])),
    ];
    let mut run = Executor::new(build(&defs).unwrap(), "c", initial_cfg()).unwrap();
    let mut handled = Vec::new();
    loop {
        match run.poll() {
            Action::Resolve(id) => {
                handled.push(id);
                assert_eq!(run.resolved(Resolution::Cmd, 0), Ok(Outcome::Dispatch));
                assert_eq!(run.completed_with(ran(id.0, 0), None), Ok(()));
            },
            Action::Done => break,
            other => panic!("unexpected {:?}", other),
        }
    }
    assert_eq!(handled, ids(&[1, 2, 3]));
    let summary = run.progress(80);
    assert_eq!(summary.total, 4);
    assert_eq!(summary.completed, 4);
    assert_eq!(recorded(&run, &[0, 1, 2, 3, 4]), vec![false, true, true, true, false]);
}

#[test]
fn building_one_target_leaves_the_others_alone() {
    let defs = vec![
        def("one", Composition::Ordered(vec![atom(0, &[]), atom(1, &[])])),
        def("two", atom(2, &[])),
        def("three", atom(3, &["two"])),
    ];
    let mut run = Executor::new(build(&defs).unwrap(), "two", initial_cfg()).unwrap();
    assert_eq!(run.progress(80).total, 2);
    assert_eq!(run.poll(), Action::Resolve(StepId(3)));
    assert_eq!(run.resolved(Resolution::Cmd, 0), Ok(Outcome::Dispatch));
    assert_eq!(run.completed_with(ran(3, 0), None), Ok(()));
    assert_eq!(run.poll(), Action::Done);
    assert_eq!(recorded(&run, &[1, 2, 3, 4]), vec![false, false, true, false]);
}

#[test]
fn fan_out_runs_side_by_side_and_joins() {
    let fan = Composition::Ordered(vec![
        atom(0, &[]),
        Composition::Unordered(vec![atom(1, &[]), atom(2, &[]), atom(3, &[])]),
    ]);
    let mut run = Executor::new(build(&vec![def("join", fan)]).unwrap(), "join", initial_cfg()).unwrap();
    assert_eq!(run.poll(), Action::Resolve(StepId(1)));
    assert_eq!(run.resolved(Resolution::Cmd, 0), Ok(Outcome::Dispatch));
    assert_eq!(run.poll(), Action::Wait);
    assert_eq!(run.completed_with(ran(1, 0), None), Ok(()));
    let mut started = Vec::new();
    for _ in 0..3 {
        match run.poll() {
            Action::Resolve(id) => {
                started.push(id);
                assert_eq!(run.resolved(Resolution::Cmd, 0), Ok(Outcome::Dispatch));
            },
            other => panic!("unexpected {:?}", other),
        }
    }
    started.sort();
    assert_eq!(started, ids(&[3, 4, 5]));
    assert_eq!(run.progress(80).running, ids(&[3, 4, 5]));
    assert_eq!(run.poll(), Action::Wait);
    assert_eq!(run.completed_with(ran(4, 0), None), Ok(()));
    assert_eq!(run.completed_with(ran(3, 0), None), Ok(()));
    assert_eq!(run.poll(), Action::Wait);
    assert_eq!(run.completed_with(ran(5, 0), None), Ok(()));
    // The collect step has nothing to run: it completes on the way.
    assert_eq!(run.poll(), Action::Done);
    assert_eq!(run.progress(80).completed, 6);
}

#[test]
fn failed_assertion_stops_the_run() {
    let defs = vec![
        def("a", atom(0, &[])),
        def("check", atom(1, &["a"])),
        def("b", atom(2, &["check"])),
    ];
    let mut run = Executor::new(build(&defs).unwrap(), "b", initial_cfg()).unwrap();
    assert_eq!(run.poll(), Action::Resolve(StepId(1)));
    assert_eq!(run.resolved(Resolution::Cmd, 0), Ok(Outcome::Dispatch));
    assert_eq!(run.completed_with(ran(1, 0), None), Ok(()));
    assert_eq!(run.poll(), Action::Resolve(StepId(2)));
    let failed = run.resolved(Resolution::Assert { predicate: false, message: text("bad") }, 5);
    assert_eq!(failed, Err(RunError::Assertion(text("bad"))));
    assert_eq!(run.poll(), Action::Halted);
    assert_eq!(run.awaiting_resolution(), None);
    assert!(!run.expects(StepId(1)));
    assert_eq!(recorded(&run, &[1, 2, 3]), vec![true, false, false]);
    let report = failed.unwrap_err().show();
    assert_eq!(report, vec![Chunk::Text(text("assertion failed: bad\n"))]);
}

#[test]
fn assertion_that_holds_is_recorded_as_virtual() {
    let mut run = Executor::new(chain(), "a", initial_cfg()).unwrap();
    assert_eq!(run.poll(), Action::Resolve(StepId(1)));
    let passed = run.resolved(Resolution::Assert { predicate: true, message: text("bad") }, 5);
    assert_eq!(passed, Ok(Outcome::Completed));
    assert_eq!(
        run.results().get(StepId(1)),
        Some(&CommandResult { step_id: StepId(1), time: 5, data: CommandResultData::Virtual })
    );
    assert_eq!(run.poll(), Action::Done);
}

#[test]
fn bound_value_is_visible_to_the_next_step() {
    let mut run = Executor::new(chain(), "b", initial_cfg()).unwrap();
    assert_eq!(run.poll(), Action::Resolve(StepId(1)));
    assert_eq!(run.config().get(&text("n")), None);
    let bound = run.resolved(Resolution::Expr { name: text("n"), value: Value::Int(42) }, 7);
    assert_eq!(bound, Ok(Outcome::Completed));
    assert_eq!(run.poll(), Action::Resolve(StepId(2)));
    assert_eq!(run.config().get(&text("n")), Some(Value::Int(42)));
    assert_eq!(run.config().get(&text("threads")), Some(Value::Int(1)));
    assert_eq!(
        run.results().get(StepId(1)),
        Some(&CommandResult { step_id: StepId(1), time: 7, data: CommandResultData::Virtual })
    );
}

#[test]
fn freshness_is_bound_to_the_named_variable() {
    let mut first = Executor::new(chain(), "a", initial_cfg()).unwrap();
    assert_eq!(first.poll(), Action::Resolve(StepId(1)));
    assert_eq!(first.resolved(Resolution::Cmd, 0), Ok(Outcome::Dispatch));
    assert_eq!(first.completed_with(ran(1, 0), Some(text("a_fresh"))), Ok(()));
    assert_eq!(first.config().get(&text("a_fresh")), Some(Value::Bool(false)));
    let mut second = Executor::new(chain(), "a", initial_cfg()).unwrap();
    assert_eq!(second.poll(), Action::Resolve(StepId(1)));
    assert_eq!(second.resolved(Resolution::Cmd, 0), Ok(Outcome::Dispatch));
    assert_eq!(second.completed_with(fresh(1), Some(text("a_fresh"))), Ok(()));
    assert_eq!(second.config().get(&text("a_fresh")), Some(Value::Bool(true)));
    assert_eq!(second.poll(), Action::Done);
}

#[test]
fn skipped_step_is_complete_without_a_result() {
    let mut run = Executor::new(chain(), "b", initial_cfg()).unwrap();
    assert_eq!(run.poll(), Action::Resolve(StepId(1)));
    assert_eq!(run.resolved(Resolution::Skip, 0), Ok(Outcome::Skipped));
    assert_eq!(run.poll(), Action::Resolve(StepId(2)));
    assert_eq!(run.resolved(Resolution::Skip, 0), Ok(Outcome::Skipped));
    assert_eq!(run.poll(), Action::Done);
    assert_eq!(run.into_statistics().len(), 0);
}

#[test]
fn failed_command_stops_the_run_and_is_handed_back() {
    let mut run = Executor::new(chain(), "b", initial_cfg()).unwrap();
    assert_eq!(run.poll(), Action::Resolve(StepId(1)));
    assert_eq!(run.resolved(Resolution::Cmd, 0), Ok(Outcome::Dispatch));
    let outcome = run.completed_with(ran(1, 2), Some(text("a_fresh")));
    assert_eq!(outcome, Err(RunError::Command(ran(1, 2))));
    assert_eq!(run.poll(), Action::Halted);
    assert_eq!(run.config().get(&text("a_fresh")), None);
    assert_eq!(run.into_statistics().len(), 0);
}

#[test]
fn cycle_leaves_the_run_stuck() {
    let steps = vec![step(0, &[1], None), step(1, &[0], Some("a"))];
    let mut run = Executor::new(steps, "a", initial_cfg()).unwrap();
    assert_eq!(run.poll(), Action::Stuck);
}

#[test]
fn errors_are_reported_with_their_kind() {
    assert_eq!(
        RunError::Descriptor(text("no cmd")).show(),
        vec![Chunk::Text(text("descriptor error: no cmd\n"))]
    );
    assert_eq!(
        RunError::Evaluation(text("raised")).show(),
        vec![Chunk::Text(text("evaluation error: raised\n"))]
    );
    assert_eq!(RunError::Io(text("out1")).show(), vec![Chunk::Text(text("i/o error: out1\n"))]);
    assert_eq!(
        RunError::Command(ran(1, 2)).show(),
        vec![
            Chunk::Text(text("Step 1 [10ns]: ")),
            Chunk::Text(text("status = Some(2)\n")),
            Chunk::Text(text("Command stdout:\n")),
            Chunk::Stdout(b"out".to_vec()),
            Chunk::Text(text("Command stderr: (empty)\n")),
        ]
    );
}
