use factory::cfg::{ConfigMap, Value};
use factory::command::{CommandResult, CommandResultData, ProcessOutput};
use factory::depgraph::to_dot;
use factory::executor::{Action, Executor, Outcome, Resolution};
use factory::progress::{available_width, sorted_ids};
use factory::step::{IdSet, Step, StepId};
use factory::RunStatistics;

fn text(s: &str) -> String {
    String::from(s)
}

fn ids(numbers: &[u64]) -> Vec<StepId> {
    numbers.iter().map(|n| StepId(*n)).collect()
}

fn step(id: u64, requires: &[u64], target: Option<&str>, name: &str) -> Step {
    let mut set = IdSet::new();
    for r in requires {
        set.insert(StepId(*r));
    }
    Step {
        id: StepId(id),
        requires: set,
        descriptor: if id == 0 { None } else { Some(id as usize) },
        wants: Vec::new(),
        target_name: target.map(text),
        name: text(name),
        note: None,
    }
}

fn ran(id: u64, time: u64) -> CommandResult {
    CommandResult {
        step_id: StepId(id),
        time,
        data: CommandResultData::Output(ProcessOutput {
            code: Some(0),
            stdout: Vec::new(),
            stderr: Vec::new(),
        }),
    }
}

#[test]
fn statistics_keep_one_result_for_each_step() {
    let mut stats = RunStatistics::new();
    assert_eq!(stats.len(), 0);
    assert_eq!(stats.get(StepId(1)), None);
    stats.insert(ran(1, 5));
    stats.insert(ran(2, 6));
    stats.insert(ran(1, 7));
    assert_eq!(stats.len(), 2);
    assert_eq!(stats.get(StepId(1)), Some(&ran(1, 7)));
    assert_eq!(stats.get(StepId(2)), Some(&ran(2, 6)));
    assert_eq!(stats.get(StepId(3)), None);
}

#[test]
fn configuration_binds_names_to_values() {
    let mut cfg = ConfigMap::new();
    assert!(!cfg.contains_key(&text("n")));
    cfg.set(text("n"), Value::Int(1));
    cfg.set(text("flag"), Value::Bool(true));
    cfg.set(text("n"), Value::Text(text("two")));
    assert_eq!(cfg.get(&text("n")), Some(Value::Text(text("two"))));
    assert_eq!(cfg.get(&text("flag")), Some(Value::Bool(true)));
    assert_eq!(cfg.get(&text("other")), None);
    assert!(cfg.contains_key(&text("flag")));
    assert_eq!(Value::Int(3).clone(), Value::Int(3));
}

#[test]
fn dot_of_an_empty_list() {
    assert_eq!(to_dot(&[], RunStatistics::new()), "digraph D {\n}\n");
}

#[test]
fn dot_lists_nodes_then_edges() {
    let steps = vec![
        step(0, &[], None, "start"),
        step(1, &[0], Some("a"), "a: echo"),
        step(2, &[0, 1], Some("b"), "b: cat"),
    ];
    let mut stats = RunStatistics::new();
    stats.insert(ran(1, 1_500_000));
    stats.insert(CommandResult { step_id: StepId(2), time: 2_000_000_000, data: CommandResultData::Fresh });
    let expected = "digraph D {\n\
node0 [shape=box,peripheries=1,label=\"0: start\n\"]\n\
node1 [shape=box,peripheries=2,label=\"1: a: echo\n1.5ms \"]\n\
node2 [shape=box,peripheries=2,label=\"2: b: cat\n2s [fresh]\"]\n\
node0 -> node1\n\
node0 -> node2\n\
node1 -> node2\n\
}\n";
    assert_eq!(to_dot(&steps, stats), expected);
}

#[test]
fn dot_without_statistics_has_no_time_line() {
    let steps = vec![step(10, &[], Some("only"), "only: make")];
    assert_eq!(
        to_dot(&steps, RunStatistics::new()),
        "digraph D {\nnode10 [shape=box,peripheries=2,label=\"10: only: make\n\"]\n}\n"
    );
}

#[test]
fn width_left_for_the_progress_line() {
    assert_eq!(available_width(None), 36);
    assert_eq!(available_width(Some(80)), 36);
    assert_eq!(available_width(Some(120)), 76);
    assert_eq!(available_width(Some(44)), 0);
    assert_eq!(available_width(Some(45)), 1);
    assert_eq!(available_width(Some(43)), 0);
    assert_eq!(available_width(Some(0)), 0);
    assert_eq!(available_width(Some(u16::MAX)), 65491);
}

#[test]
fn ids_are_sorted_in_ascending_order() {
    let set = IdSet::from_distinct(ids(&[5, 1, 9, 3]));
    assert_eq!(sorted_ids(&set), ids(&[1, 3, 5, 9]));
    assert_eq!(sorted_ids(&IdSet::new()), ids(&[]));
    assert_eq!(sorted_ids(&IdSet::from_distinct(ids(&[2]))), ids(&[2]));
}

fn fan() -> Executor {
    let steps = vec![
        step(0, &[], None, "start"),
        step(3, &[0], None, "compile"),
        step(1, &[0], None, "fetch sources"),
        step(2, &[1, 3], Some("all"), "link"),
    ];
    Executor::new(steps, "all", ConfigMap::new()).unwrap()
}

#[test]
fn progress_names_the_running_steps() {
    let mut run = fan();
    let idle = run.progress(36);
    assert_eq!(idle.completed, 0);
    assert_eq!(idle.total, 4);
    assert_eq!(idle.running, ids(&[]));
    assert_eq!(idle.message, "0: ");
    assert_eq!(run.poll(), Action::Resolve(StepId(3)));
    assert_eq!(run.resolved(Resolution::Cmd, 0), Ok(Outcome::Dispatch));
    assert_eq!(run.poll(), Action::Resolve(StepId(1)));
    assert_eq!(run.resolved(Resolution::Cmd, 0), Ok(Outcome::Dispatch));
    let busy = run.progress(36);
    assert_eq!(busy.completed, 1);
    assert_eq!(busy.total, 4);
    assert_eq!(busy.running, ids(&[1, 3]));
    assert_eq!(busy.message, "2: fetch sources, compile");
}

#[test]
fn progress_line_is_cut_to_the_budget() {
    let mut run = fan();
    run.poll();
    run.resolved(Resolution::Cmd, 0).unwrap();
    run.poll();
    run.resolved(Resolution::Cmd, 0).unwrap();
    assert_eq!(run.progress(10).message, "2: fetch \u{2026}");
    assert_eq!(run.progress(25).message, "2: fetch sources, compile");
    assert_eq!(run.progress(24).message, "2: fetch sources, compi\u{2026}");
    assert_eq!(run.progress(1).message, "\u{2026}");
    assert_eq!(run.progress(0).message, "");
}
