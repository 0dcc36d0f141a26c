use factory::command::{
    directory_time, up_to_date, Chunk, CmdSpec, Command, CommandError, CommandResult,
    CommandResultData, ProcessOutput,
};
use factory::step::StepId;
use factory::ExecConfig;

fn text(s: &str) -> String {
    String::from(s)
}

fn output(code: Option<i32>, stdout: &[u8], stderr: &[u8]) -> ProcessOutput {
    ProcessOutput { code, stdout: stdout.to_vec(), stderr: stderr.to_vec() }
}

fn result(data: CommandResultData) -> CommandResult {
    CommandResult { step_id: StepId(3), time: 1_500_000, data }
}

fn spec(argv: &[Option<&str>]) -> CmdSpec {
    CmdSpec {
        argv: argv.iter().map(|a| a.map(text)).collect(),
        inputs: None,
        output: None,
        cwd: None,
        stdout_file: None,
        stderr_file: None,
    }
}

fn options(root: Option<&str>) -> ExecConfig {
    let mut c = ExecConfig::default();
    c.root_dir = root.map(text);
    c
}

#[test]
fn fresh_and_virtual_results_are_successes() {
    assert!(result(CommandResultData::Fresh).success());
    assert!(result(CommandResultData::Virtual).success());
    assert!(result(CommandResultData::Fresh).fresh());
    assert!(!result(CommandResultData::Virtual).fresh());
}

#[test]
fn output_is_a_success_only_with_exit_code_zero() {
    assert!(result(CommandResultData::Output(output(Some(0), b"", b""))).success());
    assert!(!result(CommandResultData::Output(output(Some(1), b"", b""))).success());
    assert!(!result(CommandResultData::Output(output(Some(-1), b"", b""))).success());
    assert!(!result(CommandResultData::Output(output(None, b"", b""))).success());
    assert!(!result(CommandResultData::Output(output(Some(0), b"", b""))).fresh());
}

#[test]
fn report_of_an_output_without_captures() {
    let report = CommandResultData::Output(output(Some(0), b"", b"")).show();
    assert_eq!(
        report,
        vec![
            Chunk::Text(text("status = Some(0)\n")),
            Chunk::Text(text("Command stdout: (empty)\n")),
            Chunk::Text(text("Command stderr: (empty)\n")),
        ]
    );
}

#[test]
fn report_of_an_output_with_captures() {
    let report = CommandResultData::Output(output(Some(-2), b"out", b"err")).show();
    assert_eq!(
        report,
        vec![
            Chunk::Text(text("status = Some(-2)\n")),
            Chunk::Text(text("Command stdout:\n")),
            Chunk::Stdout(b"out".to_vec()),
            Chunk::Text(text("Command stderr:\n")),
            Chunk::Stderr(b"err".to_vec()),
        ]
    );
}

#[test]
fn report_of_a_killed_process() {
    let report = CommandResultData::Output(output(None, b"", b"x")).show();
    assert_eq!(report[0], Chunk::Text(text("status = None\n")));
    assert_eq!(report.len(), 4);
}

#[test]
fn report_of_fresh_and_virtual() {
    assert_eq!(CommandResultData::Fresh.show(), vec![Chunk::Text(text("Fresh\n"))]);
    assert_eq!(CommandResultData::Virtual.show(), vec![Chunk::Text(text("Virtual\n"))]);
}

#[test]
fn report_of_a_result_starts_with_step_and_time() {
    let report = result(CommandResultData::Fresh).show();
    assert_eq!(
        report,
        vec![Chunk::Text(text("Step 3 [1.5ms]: ")), Chunk::Text(text("Fresh\n"))]
    );
    let slow = CommandResult { step_id: StepId(12), time: 2_000_000_000, data: CommandResultData::Virtual };
    assert_eq!(slow.show()[0], Chunk::Text(text("Step 12 [2s]: ")));
    let none = CommandResult { step_id: StepId(0), time: 0, data: CommandResultData::Virtual };
    assert_eq!(none.show()[0], Chunk::Text(text("Step 0 [0ns]: ")));
}

#[test]
fn output_at_least_as_new_as_every_input_is_fresh() {
    assert!(up_to_date(Some(10), &[Some(10)]));
    assert!(up_to_date(Some(10), &[Some(3), Some(9), Some(10)]));
    assert!(!up_to_date(Some(10), &[Some(3), Some(11)]));
    assert!(!up_to_date(Some(0), &[Some(1)]));
}

#[test]
fn missing_files_are_never_fresh() {
    assert!(!up_to_date(None, &[Some(1)]));
    assert!(!up_to_date(Some(10), &[None]));
    assert!(!up_to_date(Some(10), &[Some(1), None, Some(2)]));
    assert!(!up_to_date(None, &[None]));
}

#[test]
fn without_inputs_nothing_is_fresh() {
    assert!(!up_to_date(Some(10), &[]));
    assert!(!up_to_date(None, &[]));
}

#[test]
fn directory_time_is_the_latest_entry() {
    assert_eq!(directory_time(5, &[]), Some(5));
    assert_eq!(directory_time(5, &[Some(3), Some(9), Some(4)]), Some(9));
    assert_eq!(directory_time(50, &[Some(3)]), Some(3));
    assert_eq!(directory_time(5, &[None, Some(2), None]), Some(2));
    assert_eq!(directory_time(5, &[None, None]), None);
}

#[test]
fn command_takes_its_parts_from_the_descriptor() {
    let mut s = spec(&[Some("/bin/echo"), None, Some("hi"), Some("there")]);
    s.inputs = Some(vec![Some(text("in1")), None, Some(text("in2"))]);
    s.output = Some(text("out"));
    s.cwd = Some(text("/work"));
    s.stdout_file = Some(text("log.out"));
    s.stderr_file = Some(text("log.err"));
    let mut c = options(Some("/root"));
    c.transparent = true;
    let env = vec![(text("A"), text("1"))];
    let command = Command::new(StepId(4), s, &c, env).unwrap();
    assert_eq!(command.step_id(), StepId(4));
    assert_eq!(command.program(), "/bin/echo");
    assert_eq!(command.args(), vec![text("hi"), text("there")]);
    assert_eq!(command.inputs(), &Some(vec![text("in1"), text("in2")]));
    assert_eq!(command.output(), &Some(text("out")));
    assert_eq!(command.cwd(), "/work");
    assert_eq!(command.stdout_file(), &Some(text("log.out")));
    assert_eq!(command.stderr_file(), &Some(text("log.err")));
    assert_eq!(command.env(), &vec![(text("A"), text("1"))]);
    assert!(command.stdout_pass());
    assert!(command.stderr_pass());
}

#[test]
fn command_runs_in_the_root_directory_by_default() {
    let command = Command::new(StepId(1), spec(&[Some("make")]), &options(Some("/root")), Vec::new())
        .unwrap();
    assert_eq!(command.cwd(), "/root");
    assert_eq!(command.args(), Vec::<String>::new());
    assert_eq!(command.inputs(), &None);
    assert!(!command.stdout_pass());
    assert!(!command.stderr_pass());
}

#[test]
fn command_without_a_program_is_refused() {
    let none = Command::new(StepId(1), spec(&[]), &options(Some("/root")), Vec::new());
    assert_eq!(none.err(), Some(CommandError::EmptyCommand));
    let skipped = Command::new(StepId(1), spec(&[None, None]), &options(None), Vec::new());
    assert_eq!(skipped.err(), Some(CommandError::EmptyCommand));
}

#[test]
fn command_without_a_working_directory_is_refused() {
    let made = Command::new(StepId(1), spec(&[Some("make")]), &options(None), Vec::new());
    assert_eq!(made.err(), Some(CommandError::NoWorkingDirectory));
}

fn checked(refresh: bool, inputs: bool, output: bool) -> Command {
    let mut s = spec(&[Some("make")]);
    if inputs {
        s.inputs = Some(vec![Some(text("in"))]);
    }
    if output {
        s.output = Some(text("out"));
    }
    let mut c = options(Some("/root"));
    c.refresh = refresh;
    Command::new(StepId(2), s, &c, Vec::new()).unwrap()
}

#[test]
fn freshness_is_examined_only_with_output_and_inputs() {
    assert!(checked(false, true, true).checks_freshness());
    assert!(!checked(false, false, true).checks_freshness());
    assert!(!checked(false, true, false).checks_freshness());
    assert!(!checked(false, false, false).checks_freshness());
    assert!(!checked(true, true, true).checks_freshness());
}

#[test]
fn fresh_result_skips_a_command_whose_output_is_fresh() {
    let command = checked(false, true, true);
    let fresh = command.fresh_result(Some(10), &[Some(9)], 77);
    assert_eq!(
        fresh,
        Some(CommandResult { step_id: StepId(2), time: 77, data: CommandResultData::Fresh })
    );
    assert_eq!(command.fresh_result(Some(8), &[Some(9)], 77), None);
    assert_eq!(command.fresh_result(None, &[Some(9)], 77), None);
    assert_eq!(command.fresh_result(Some(10), &[None], 77), None);
    assert_eq!(checked(false, false, true).fresh_result(Some(10), &[Some(9)], 77), None);
}

#[test]
fn under_refresh_nothing_is_fresh() {
    let command = checked(true, true, true);
    assert_eq!(command.fresh_result(Some(10), &[Some(9)], 1), None);
    assert_eq!(command.fresh_result(Some(10), &[Some(10)], 1), None);
    assert_eq!(command.fresh_result(Some(u64::MAX), &[Some(0)], 1), None);
    let ran = command.output_result(output(Some(0), b"", b""), 5);
    assert!(!ran.fresh());
}

#[test]
fn output_result_keeps_what_the_process_left() {
    let command = checked(false, true, true);
    let ran = command.output_result(output(Some(3), b"o", b"e"), 9);
    assert_eq!(
        ran,
        CommandResult {
            step_id: StepId(2),
            time: 9,
            data: CommandResultData::Output(output(Some(3), b"o", b"e")),
        }
    );
    assert!(!ran.success());
}

#[test]
fn linear_chain_is_fresh_on_the_second_run() {
    let mut a_spec = spec(&[Some("sh"), Some("-c"), Some("echo 1 > out1")]);
    a_spec.inputs = Some(vec![Some(text("src"))]);
    a_spec.output = Some(text("out1"));
    let mut b_spec = spec(&[Some("sh"), Some("-c"), Some("cat out1 > out2")]);
    b_spec.inputs = Some(vec![Some(text("out1"))]);
    b_spec.output = Some(text("out2"));
    let c = options(Some("/root"));
    let a = Command::new(StepId(1), a_spec, &c, Vec::new()).unwrap();
    let b = Command::new(StepId(2), b_spec, &c, Vec::new()).unwrap();
    // First run: the outputs do not exist yet.
    assert_eq!(a.fresh_result(None, &[Some(100)], 0), None);
    assert_eq!(b.fresh_result(None, &[Some(200)], 0), None);
    // Second run: out1 was written at 200, out2 at 300.
    assert!(a.fresh_result(Some(200), &[Some(100)], 0).unwrap().fresh());
    assert!(b.fresh_result(Some(300), &[Some(200)], 0).unwrap().fresh());
    // out1 is touched at 400: b runs again, a stays fresh.
    assert!(a.fresh_result(Some(400), &[Some(100)], 0).unwrap().fresh());
    assert_eq!(b.fresh_result(Some(300), &[Some(400)], 0), None);
}
