//! Commands and their results: what a step runs, when its output counts as
//! fresh, and what is reported of a result.

use crate::config_file::ExecConfig;
use crate::step::StepId;
use crate::text::{decimal_string, signed_decimal, signed_decimal_string};
use vstd::prelude::*;
use vstd::string::*;

verus! {

/// The text that the standard library's debug format gives for a duration
/// of so many nanoseconds.
pub uninterp spec fn duration_text(nanos: u64) -> Seq<char>;

/// `std::time::Duration`'s `Debug` format, applied to a duration that
/// `Duration::from_nanos` makes of the count. The text is whatever the
/// standard library prints for that duration; it depends on the count alone.
#[verifier::external_body]
pub(crate) fn format_duration(nanos: u64) -> (text: String)
    ensures
        text@ == duration_text(nanos),
{
    format!("{:?}", std::time::Duration::from_nanos(nanos))
}

/// What a process left behind.
#[derive(Debug, PartialEq, Eq)]
pub struct ProcessOutput {
    /// The exit code; `None` where the process was ended by a signal.
    pub code: Option<i32>,
    /// Everything the process wrote to its standard output.
    pub stdout: Vec<u8>,
    /// Everything the process wrote to its standard error.
    pub stderr: Vec<u8>,
}

/// The outcome of a step.
#[derive(Debug, PartialEq, Eq)]
pub enum CommandResultData {
    /// Skipped, because the output is at least as new as every input.
    Fresh,
    /// The command ran.
    Output(ProcessOutput),
    /// A value binding or an assertion completed.
    Virtual,
}

/// A piece of a report and the stream it belongs to.
#[derive(Debug, PartialEq, Eq)]
pub enum Chunk {
    /// Text for the error stream.
    Text(String),
    /// Captured bytes for the standard output.
    Stdout(Vec<u8>),
    /// Captured bytes for the error stream.
    Stderr(Vec<u8>),
}

/// Mathematical value of a piece of a report.
pub enum Piece {
    /// Text for the error stream.
    Text(Seq<char>),
    /// Captured bytes for the standard output.
    Stdout(Seq<u8>),
    /// Captured bytes for the error stream.
    Stderr(Seq<u8>),
}

impl View for Chunk {
    type V = Piece;

    open spec fn view(&self) -> Piece {
        match self {
            Chunk::Text(text) => Piece::Text(text@),
            Chunk::Stdout(bytes) => Piece::Stdout(bytes@),
            Chunk::Stderr(bytes) => Piece::Stderr(bytes@),
        }
    }
}

/// The values of a list of pieces.
pub open spec fn pieces(chunks: Seq<Chunk>) -> Seq<Piece> {
    Seq::new(chunks.len(), |i: int| chunks[i]@)
}

/// The debug form of an optional exit code.
pub open spec fn code_text(code: Option<i32>) -> Seq<char> {
    match code {
        Some(value) => "Some("@ + signed_decimal(value as int) + ")"@,
        None => "None"@,
    }
}

/// The report of an outcome: the status line, then each captured stream
/// under its heading, or the word "(empty)" where nothing was captured.
pub open spec fn shown_data(data: CommandResultData) -> Seq<Piece> {
    match data {
        CommandResultData::Fresh => seq![Piece::Text("Fresh\n"@)],
        CommandResultData::Virtual => seq![Piece::Text("Virtual\n"@)],
        CommandResultData::Output(out) => {
            let head = seq![Piece::Text("status = "@ + code_text(out.code) + "\n"@)];
            let middle = if out.stdout@.len() == 0 {
                seq![Piece::Text("Command stdout: (empty)\n"@)]
            } else {
                seq![Piece::Text("Command stdout:\n"@), Piece::Stdout(out.stdout@)]
            };
            let tail = if out.stderr@.len() == 0 {
                seq![Piece::Text("Command stderr: (empty)\n"@)]
            } else {
                seq![Piece::Text("Command stderr:\n"@), Piece::Stderr(out.stderr@)]
            };
            head + middle + tail
        },
    }
}

fn code_string(code: Option<i32>) -> (text: String)
    ensures
        text@ == code_text(code),
{
    match code {
        Some(value) => {
            let mut text = String::from_str("Some(");
            let digits = signed_decimal_string(value as i64);
            text.append(digits.as_str());
            text.append(")");
            text
        },
        None => String::from_str("None"),
    }
}

impl CommandResultData {
    /// The report of the outcome, piece by piece in the order in which it
    /// is to be written.
    pub fn show(self) -> (report: Vec<Chunk>)
        ensures
            pieces(report@) == shown_data(self),
    {
        let mut report: Vec<Chunk> = Vec::new();
        match self {
            CommandResultData::Output(out) => {
                let mut status = String::from_str("status = ");
                let code = code_string(out.code);
                status.append(code.as_str());
                status.append("\n");
                report.push(Chunk::Text(status));
                if out.stdout.len() == 0 {
                    report.push(Chunk::Text(String::from_str("Command stdout: (empty)\n")));
                } else {
                    report.push(Chunk::Text(String::from_str("Command stdout:\n")));
                    report.push(Chunk::Stdout(out.stdout));
                }
                if out.stderr.len() == 0 {
                    report.push(Chunk::Text(String::from_str("Command stderr: (empty)\n")));
                } else {
                    report.push(Chunk::Text(String::from_str("Command stderr:\n")));
                    report.push(Chunk::Stderr(out.stderr));
                }
                assert(pieces(report@) =~= shown_data(self));
            },
            CommandResultData::Fresh => {
                report.push(Chunk::Text(String::from_str("Fresh\n")));
                assert(pieces(report@) =~= shown_data(self));
            },
            CommandResultData::Virtual => {
                report.push(Chunk::Text(String::from_str("Virtual\n")));
                assert(pieces(report@) =~= shown_data(self));
            },
        }
        report
    }
}

/// The result of one step.
#[derive(Debug, PartialEq, Eq)]
pub struct CommandResult {
    /// The step that the result belongs to.
    pub step_id: StepId,
    /// Elapsed time in nanoseconds.
    pub time: u64,
    /// The outcome.
    pub data: CommandResultData,
}

/// The heading of a result's report.
pub open spec fn shown_head(step_id: StepId, time: u64) -> Seq<char> {
    "Step "@ + crate::text::decimal(step_id.0 as nat) + " ["@ + duration_text(time) + "]: "@
}

impl CommandResult {
    /// The step succeeded: it was fresh or virtual, or its command exited
    /// with code zero.
    pub open spec fn success_spec(&self) -> bool {
        match self.data {
            CommandResultData::Fresh => true,
            CommandResultData::Output(out) => out.code == Some(0i32),
            CommandResultData::Virtual => true,
        }
    }

    /// Whether the step succeeded: it was fresh or virtual, or its command
    /// exited with code zero.
    pub fn success(&self) -> (ok: bool)
        ensures
            ok == self.success_spec(),
    {
        match &self.data {
            CommandResultData::Fresh => true,
            CommandResultData::Output(out) => match out.code {
                Some(code) => code == 0,
                None => false,
            },
            CommandResultData::Virtual => true,
        }
    }

    /// Whether the step was skipped as fresh.
    pub fn fresh(&self) -> (yes: bool)
        ensures
            yes == (self.data is Fresh),
    {
        match &self.data {
            CommandResultData::Fresh => true,
            CommandResultData::Output(_) => false,
            CommandResultData::Virtual => false,
        }
    }

    /// The report of the result: a heading with the step and the elapsed
    /// time, then the report of the outcome.
    pub fn show(self) -> (report: Vec<Chunk>)
        ensures
            pieces(report@) == seq![Piece::Text(shown_head(self.step_id, self.time))] + shown_data(
                self.data,
            ),
    {
        let mut head = String::from_str("Step ");
        let id = decimal_string(self.step_id.0);
        head.append(id.as_str());
        head.append(" [");
        let elapsed = format_duration(self.time);
        head.append(elapsed.as_str());
        head.append("]: ");
        let mut report: Vec<Chunk> = Vec::new();
        report.push(Chunk::Text(head));
        let ghost first = pieces(report@);
        let mut rest = self.data.show();
        let ghost second = pieces(rest@);
        report.append(&mut rest);
        assert(pieces(report@) =~= first + second);
        assert(first =~= seq![Piece::Text(shown_head(self.step_id, self.time))]);
        report
    }
}

/// Output and inputs exist, there is at least one input, and the output is
/// at least as new as every input.
pub open spec fn is_fresh(output_time: Option<u64>, input_times: Seq<Option<u64>>) -> bool {
    &&& output_time.is_some()
    &&& input_times.len() > 0
    &&& forall|i: int|
        0 <= i < input_times.len() ==> (#[trigger] input_times[i]).is_some()
            && input_times[i].unwrap() <= output_time.unwrap()
}

/// Whether the modification times say that an output is fresh. A time of
/// `None` stands for a file that is missing.
pub fn up_to_date(output_time: Option<u64>, input_times: &[Option<u64>]) -> (fresh: bool)
    ensures
        fresh == is_fresh(output_time, input_times@),
{
    let newest = match output_time {
        Some(time) => time,
        None => {
            return false;
        },
    };
    if input_times.len() == 0 {
        return false;
    }
    let mut i: usize = 0;
    while i < input_times.len()
        invariant
            i <= input_times@.len(),
            output_time == Some(newest),
            forall|k: int|
                0 <= k < i ==> (#[trigger] input_times@[k]).is_some() && input_times@[k].unwrap()
                    <= newest,
        decreases input_times@.len() - i,
    {
        match input_times[i] {
            Some(time) => {
                if time > newest {
                    return false;
                }
            },
            None => {
                return false;
            },
        }
        i += 1;
    }
    true
}

/// The later of two optional times; a missing time is earlier than any.
pub open spec fn later(a: Option<u64>, b: Option<u64>) -> Option<u64> {
    match (a, b) {
        (None, _) => b,
        (_, None) => a,
        (Some(x), Some(y)) => if x >= y {
            a
        } else {
            b
        },
    }
}

/// The latest of a list of optional times.
pub open spec fn latest(times: Seq<Option<u64>>) -> Option<u64>
    decreases times.len(),
{
    if times.len() == 0 {
        None
    } else {
        later(latest(times.drop_last()), times.last())
    }
}

/// The modification time of a directory: the latest among its entries,
/// and its own where it has none.
pub open spec fn directory_time_of(own: u64, entries: Seq<Option<u64>>) -> Option<u64> {
    if entries.len() == 0 {
        Some(own)
    } else {
        latest(entries)
    }
}

/// The modification time that counts for a directory, from its own time and
/// the times that count for its entries.
pub fn directory_time(own: u64, entries: &[Option<u64>]) -> (time: Option<u64>)
    ensures
        time == directory_time_of(own, entries@),
{
    if entries.len() == 0 {
        return Some(own);
    }
    let mut best: Option<u64> = None;
    let mut i: usize = 0;
    while i < entries.len()
        invariant
            i <= entries@.len(),
            best == latest(entries@.take(i as int)),
        decreases entries@.len() - i,
    {
        proof {
            assert(entries@.take(i + 1).drop_last() =~= entries@.take(i as int));
        }
        best = match (best, entries[i]) {
            (None, other) => other,
            (Some(x), None) => Some(x),
            (Some(x), Some(y)) => if x >= y {
                Some(x)
            } else {
                Some(y)
            },
        };
        i += 1;
    }
    assert(entries@.take(i as int) =~= entries@);
    best
}

/// What a step's descriptor says of its command, each part as written:
/// `None` stands for a part that was left out.
#[derive(Debug)]
pub struct CmdSpec {
    /// Program and arguments; entries that are `None` are passed over.
    pub argv: Vec<Option<String>>,
    /// The files the command reads.
    pub inputs: Option<Vec<Option<String>>>,
    /// The file or directory the command writes.
    pub output: Option<String>,
    /// Working directory.
    pub cwd: Option<String>,
    /// File that receives the captured standard output.
    pub stdout_file: Option<String>,
    /// File that receives the captured standard error.
    pub stderr_file: Option<String>,
}

/// Why a command could not be made of a descriptor.
#[derive(Debug, PartialEq, Eq, Structural, Clone, Copy)]
pub enum CommandError {
    /// No program is named.
    EmptyCommand,
    /// Neither the descriptor nor the options name a working directory.
    NoWorkingDirectory,
}

/// The entries that are present, in order.
pub open spec fn present(items: Seq<Option<String>>) -> Seq<String>
    decreases items.len(),
{
    if items.len() == 0 {
        Seq::empty()
    } else {
        match items.last() {
            Some(item) => present(items.drop_last()).push(item),
            None => present(items.drop_last()),
        }
    }
}

fn keep_present(items: Vec<Option<String>>) -> (kept: Vec<String>)
    ensures
        kept@ == present(items@),
{
    let mut kept: Vec<String> = Vec::new();
    let mut i: usize = 0;
    while i < items.len()
        invariant
            i <= items@.len(),
            kept@ == present(items@.take(i as int)),
        decreases items@.len() - i,
    {
        proof {
            assert(items@.take(i + 1).drop_last() =~= items@.take(i as int));
        }
        match &items[i] {
            Some(item) => {
                kept.push(item.clone());
            },
            None => {},
        }
        i += 1;
    }
    assert(items@.take(i as int) =~= items@);
    kept
}

/// The inputs of a descriptor with the missing entries passed over.
pub open spec fn present_inputs(inputs: Option<Vec<Option<String>>>) -> Option<Seq<String>> {
    match inputs {
        Some(items) => Some(present(items@)),
        None => None,
    }
}

/// A command that is ready to run.
#[derive(Debug)]
pub struct Command {
    step_id: StepId,
    cmd: Vec<String>,
    inputs: Option<Vec<String>>,
    output: Option<String>,
    cwd: String,
    refresh: bool,
    stdout_pass: bool,
    stderr_pass: bool,
    stdout_file: Option<String>,
    stderr_file: Option<String>,
    env: Vec<(String, String)>,
}

impl Command {
    /// The step that the command belongs to.
    pub closed spec fn spec_step_id(&self) -> StepId {
        self.step_id
    }

    /// Program and arguments.
    pub closed spec fn spec_cmd(&self) -> Seq<String> {
        self.cmd@
    }

    /// The files the command reads.
    pub closed spec fn spec_inputs(&self) -> Option<Seq<String>> {
        match self.inputs {
            Some(items) => Some(items@),
            None => None,
        }
    }

    /// The file or directory the command writes.
    pub closed spec fn spec_output(&self) -> Option<String> {
        self.output
    }

    /// Working directory.
    pub closed spec fn spec_cwd(&self) -> String {
        self.cwd
    }

    /// Whether the command runs even where its output is fresh.
    pub closed spec fn spec_refresh(&self) -> bool {
        self.refresh
    }

    /// Whether the captured streams are passed on to the caller's own.
    pub closed spec fn spec_transparent(&self) -> bool {
        self.stdout_pass && self.stderr_pass
    }

    /// File that receives the captured standard output.
    pub closed spec fn spec_stdout_file(&self) -> Option<String> {
        self.stdout_file
    }

    /// File that receives the captured standard error.
    pub closed spec fn spec_stderr_file(&self) -> Option<String> {
        self.stderr_file
    }

    /// The environment variables of the command.
    pub closed spec fn spec_env(&self) -> Seq<(String, String)> {
        self.env@
    }

    /// A program is named.
    pub closed spec fn wf(&self) -> bool {
        self.cmd@.len() >= 1 && self.stdout_pass == self.stderr_pass
    }

    /// Makes the command of a step from its descriptor. The working
    /// directory is the descriptor's, else the root directory of the
    /// options. Fails where no program is named, and where neither names a
    /// working directory.
    pub fn new(step_id: StepId, spec: CmdSpec, exec_config: &ExecConfig, env: Vec<
        (String, String),
    >) -> (made: Result<Self, CommandError>)
        ensures
            match made {
                Ok(command) => {
                    &&& present(spec.argv@).len() >= 1
                    &&& spec.cwd.is_some() || exec_config.root_dir.is_some()
                    &&& command.wf()
                    &&& command.spec_step_id() == step_id
                    &&& command.spec_cmd() == present(spec.argv@)
                    &&& command.spec_inputs() == present_inputs(spec.inputs)
                    &&& command.spec_output() == spec.output
                    &&& Some(command.spec_cwd()) == crate::config_file::or_else(
                        spec.cwd,
                        exec_config.root_dir,
                    )
                    &&& command.spec_refresh() == exec_config.refresh
                    &&& command.spec_transparent() == exec_config.transparent
                    &&& command.spec_stdout_file() == spec.stdout_file
                    &&& command.spec_stderr_file() == spec.stderr_file
                    &&& command.spec_env() == env@
                },
                Err(CommandError::EmptyCommand) => present(spec.argv@).len() == 0,
                Err(CommandError::NoWorkingDirectory) => present(spec.argv@).len() >= 1
                    && spec.cwd.is_none() && exec_config.root_dir.is_none(),
            },
    {
        let cmd = keep_present(spec.argv);
        if cmd.len() == 0 {
            return Err(CommandError::EmptyCommand);
        }
        let inputs = match spec.inputs {
            Some(items) => Some(keep_present(items)),
            None => None,
        };
        let cwd = match spec.cwd {
            Some(dir) => dir,
            None => match &exec_config.root_dir {
                Some(dir) => dir.clone(),
                None => {
                    return Err(CommandError::NoWorkingDirectory);
                },
            },
        };
        Ok(
            Command {
                step_id,
                cmd,
                inputs,
                output: spec.output,
                cwd,
                refresh: exec_config.refresh,
                stdout_pass: exec_config.transparent,
                stderr_pass: exec_config.transparent,
                stdout_file: spec.stdout_file,
                stderr_file: spec.stderr_file,
                env,
            },
        )
    }

    /// The step that the command belongs to.
    pub fn step_id(&self) -> (id: StepId)
        ensures
            id == self.spec_step_id(),
    {
        self.step_id
    }

    /// The program to start.
    pub fn program(&self) -> (program: &String)
        requires
            self.wf(),
        ensures
            *program == self.spec_cmd()[0],
    {
        &self.cmd[0]
    }

    /// The arguments of the program.
    pub fn args(&self) -> (args: Vec<String>)
        requires
            self.wf(),
        ensures
            args@ == self.spec_cmd().subrange(1, self.spec_cmd().len() as int),
    {
        let mut args: Vec<String> = Vec::new();
        let mut i: usize = 1;
        while i < self.cmd.len()
            invariant
                1 <= i <= self.cmd@.len(),
                args@ == self.cmd@.subrange(1, i as int),
            decreases self.cmd@.len() - i,
        {
            args.push(self.cmd[i].clone());
            assert(args@ =~= self.cmd@.subrange(1, i + 1));
            i += 1;
        }
        args
    }

    /// Working directory.
    pub fn cwd(&self) -> (dir: &String)
        ensures
            *dir == self.spec_cwd(),
    {
        &self.cwd
    }

    /// The environment variables of the command.
    pub fn env(&self) -> (env: &Vec<(String, String)>)
        ensures
            env@ == self.spec_env(),
    {
        &self.env
    }

    /// The files the command reads.
    pub fn inputs(&self) -> (inputs: &Option<Vec<String>>)
        ensures
            match inputs {
                Some(items) => self.spec_inputs() == Some(items@),
                None => self.spec_inputs().is_none(),
            },
    {
        &self.inputs
    }

    /// The file or directory the command writes.
    pub fn output(&self) -> (output: &Option<String>)
        ensures
            *output == self.spec_output(),
    {
        &self.output
    }

    /// Whether the captured standard output is passed on.
    pub fn stdout_pass(&self) -> (pass: bool)
        requires
            self.wf(),
        ensures
            pass == self.spec_transparent(),
    {
        self.stdout_pass
    }

    /// Whether the captured standard error is passed on.
    pub fn stderr_pass(&self) -> (pass: bool)
        requires
            self.wf(),
        ensures
            pass == self.spec_transparent(),
    {
        self.stderr_pass
    }

    /// File that receives the captured standard output.
    pub fn stdout_file(&self) -> (file: &Option<String>)
        ensures
            *file == self.spec_stdout_file(),
    {
        &self.stdout_file
    }

    /// File that receives the captured standard error.
    pub fn stderr_file(&self) -> (file: &Option<String>)
        ensures
            *file == self.spec_stderr_file(),
    {
        &self.stderr_file
    }

    /// Whether the freshness of the output is to be examined: not under
    /// `refresh`, and only where both an output and inputs are declared.
    pub open spec fn examines_freshness(&self) -> bool {
        !self.spec_refresh() && self.spec_output().is_some() && self.spec_inputs().is_some()
    }

    /// Whether the freshness of the output is to be examined.
    pub fn checks_freshness(&self) -> (yes: bool)
        ensures
            yes == self.examines_freshness(),
    {
        !self.refresh && self.output.is_some() && self.inputs.is_some()
    }

    /// The result of a command that need not run, if it need not: the
    /// freshness is examined and the times say that the output is fresh.
    /// Under `refresh` there is never such a result.
    pub fn fresh_result(
        &self,
        output_time: Option<u64>,
        input_times: &[Option<u64>],
        elapsed: u64,
    ) -> (result: Option<CommandResult>)
        ensures
            result.is_some() == (self.examines_freshness() && is_fresh(output_time, input_times@)),
            self.spec_refresh() ==> result.is_none(),
            match result {
                Some(r) => r.step_id == self.spec_step_id() && r.time == elapsed && r.data
                    is Fresh,
                None => true,
            },
    {
        if self.checks_freshness() && up_to_date(output_time, input_times) {
            Some(
                CommandResult {
                    step_id: self.step_id,
                    time: elapsed,
                    data: CommandResultData::Fresh,
                },
            )
        } else {
            None
        }
    }

    /// The result of a command that ran.
    pub fn output_result(&self, output: ProcessOutput, elapsed: u64) -> (result: CommandResult)
        ensures
            result.step_id == self.spec_step_id(),
            result.time == elapsed,
            result.data == CommandResultData::Output(output),
    {
        CommandResult { step_id: self.step_id, time: elapsed, data: CommandResultData::Output(output) }
    }
}

} // verus!
