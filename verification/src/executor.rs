//! The coordinator of a run as a state machine: it decides which step is
//! next, what becomes of a resolved step and of a worker's result, and keeps
//! the statistics and the shared configuration. Whoever drives it resolves
//! the descriptors, runs the commands and hands the results back.

use crate::cfg::{ConfigMap, ConfigModel, Value};
use crate::command::{
    pieces, shown_data, shown_head, Chunk, CommandResult, CommandResultData, Piece,
};
use crate::depgraph::{distinct_ids, graph_of, lemma_graph_of_dom, steps_wf, IdGraph};
use crate::linearize::step_index_by_id;
use crate::parallelize::Parallelizer;
use crate::reach::{closed, cone, edge, focused, lemma_focused_shape, DepMap};
use crate::statistics::RunStatistics;
use crate::step::{
    lemma_within_all, lemma_within_contains, lemma_within_order, lemma_without_within, step_ids,
    within, Step, StepId,
};
use vstd::prelude::*;
use vstd::string::*;

verus! {

/// Why a run ended without success.
#[derive(Debug, PartialEq, Eq)]
pub enum RunError {
    /// The description of the steps is malformed.
    Descriptor(String),
    /// A producer of a condition or of a payload failed.
    Evaluation(String),
    /// A command failed; the result holds what it printed.
    Command(CommandResult),
    /// An assertion step found its predicate false.
    Assertion(String),
    /// A file could not be read or written.
    Io(String),
}

/// The report of an error.
pub open spec fn shown_error(error: RunError) -> Seq<Piece> {
    match error {
        RunError::Descriptor(message) => seq![
            Piece::Text("descriptor error: "@ + message@ + "\n"@),
        ],
        RunError::Evaluation(message) => seq![
            Piece::Text("evaluation error: "@ + message@ + "\n"@),
        ],
        RunError::Command(result) => seq![Piece::Text(shown_head(result.step_id, result.time))]
            + shown_data(result.data),
        RunError::Assertion(message) => seq![Piece::Text("assertion failed: "@ + message@ + "\n"@)],
        RunError::Io(message) => seq![Piece::Text("i/o error: "@ + message@ + "\n"@)],
    }
}

fn labelled(label: &str, message: &String) -> (report: Vec<Chunk>)
    ensures
        pieces(report@) == seq![Piece::Text(label@ + message@ + "\n"@)],
{
    let mut text = String::from_str(label);
    text.append(message.as_str());
    text.append("\n");
    let mut report: Vec<Chunk> = Vec::new();
    report.push(Chunk::Text(text));
    assert(pieces(report@) =~= seq![Piece::Text(label@ + message@ + "\n"@)]);
    report
}

impl RunError {
    /// The report of the error, piece by piece in the order in which it is
    /// to be written.
    pub fn show(self) -> (report: Vec<Chunk>)
        ensures
            pieces(report@) == shown_error(self),
    {
        match self {
            RunError::Descriptor(message) => labelled("descriptor error: ", &message),
            RunError::Evaluation(message) => labelled("evaluation error: ", &message),
            RunError::Command(result) => result.show(),
            RunError::Assertion(message) => labelled("assertion failed: ", &message),
            RunError::Io(message) => labelled("i/o error: ", &message),
        }
    }
}

/// The step carries the target name.
pub open spec fn names_target(step: Step, name: Seq<char>) -> bool {
    match step.target_name {
        Some(own) => own@ == name,
        None => false,
    }
}

/// The first step that carries a target name, if any does.
pub fn find_target_id(steps: &[Step], target_name: &str) -> (found: Option<StepId>)
    ensures
        match found {
            Some(id) => exists|i: int|
                0 <= i < steps@.len() && names_target(#[trigger] steps@[i], target_name@)
                    && steps@[i].id == id && forall|j: int|
                    0 <= j < i ==> !names_target(#[trigger] steps@[j], target_name@),
            None => forall|i: int|
                0 <= i < steps@.len() ==> !names_target(#[trigger] steps@[i], target_name@),
        },
{
    let wanted = String::from_str(target_name);
    let mut i: usize = 0;
    while i < steps.len()
        invariant
            i <= steps@.len(),
            wanted@ == target_name@,
            forall|j: int| 0 <= j < i ==> !names_target(#[trigger] steps@[j], target_name@),
        decreases steps@.len() - i,
    {
        let hit = match &steps[i].target_name {
            Some(own) => *own == wanted,
            None => false,
        };
        if hit {
            assert(names_target(steps@[i as int], target_name@));
            return Some(steps[i].id);
        }
        i += 1;
    }
    None
}

/// Whether no identifier is used by two steps.
pub fn has_distinct_ids(steps: &[Step]) -> (ok: bool)
    ensures
        ok == distinct_ids(steps@),
{
    let mut j: usize = 0;
    while j < steps.len()
        invariant
            j <= steps@.len(),
            forall|a: int, b: int|
                0 <= a < b < j ==> (#[trigger] steps@[a]).id != (#[trigger] steps@[b]).id,
        decreases steps@.len() - j,
    {
        let mut i: usize = 0;
        while i < j
            invariant
                i <= j < steps@.len(),
                forall|a: int| 0 <= a < i ==> (#[trigger] steps@[a]).id != steps@[j as int].id,
            decreases j - i,
        {
            if steps[i].id == steps[j].id {
                return false;
            }
            i += 1;
        }
        j += 1;
    }
    true
}

/// The step with a given identifier.
pub open spec fn step_of(steps: Seq<Step>, id: StepId) -> Step {
    steps[choose|i: int| 0 <= i < steps.len() && (#[trigger] steps[i]).id == id]
}

/// The steps without a descriptor: the synchronization steps.
pub open spec fn sync_steps(steps: Seq<Step>) -> Set<StepId> {
    Set::new(|s: StepId| step_of(steps, s).descriptor.is_none())
}

/// What the coordinator asks for next.
#[derive(Debug, Clone, Copy, PartialEq, Eq, Structural)]
pub enum Action {
    /// Resolve the descriptor of this step, which may start, and report
    /// what it resolved to.
    Resolve(StepId),
    /// Nothing can start before a running command ends: wait for a result.
    Wait,
    /// Every step is complete.
    Done,
    /// Steps are pending, none can start and none is running.
    Stuck,
    /// The run has failed; nothing more is handed out.
    Halted,
}

/// What a descriptor resolved to.
#[derive(Debug)]
pub enum Resolution {
    /// The condition of the step is false.
    Skip,
    /// A command, to be run by a worker.
    Cmd,
    /// A value to bind in the configuration.
    Expr { name: String, value: Value },
    /// A predicate that must hold, with the message for the case that it
    /// does not.
    Assert { predicate: bool, message: String },
}

/// What became of a resolved step.
#[derive(Debug, Clone, Copy, PartialEq, Eq, Structural)]
pub enum Outcome {
    /// The step was skipped and counts as complete.
    Skipped,
    /// The step's command is to be sent to a worker.
    Dispatch,
    /// The step is complete, with a result in the statistics.
    Completed,
}

/// The result that is recorded for a value binding or an assertion.
pub open spec fn virtual_result(id: StepId, elapsed: u64) -> CommandResult {
    CommandResult { step_id: id, time: elapsed, data: CommandResultData::Virtual }
}

/// The coordinator of one run.
pub struct Executor {
    steps: Vec<Step>,
    target: StepId,
    scheduler: Parallelizer,
    statistics: RunStatistics,
    cfg: ConfigMap,
    unresolved: Option<StepId>,
    failed: bool,
    skipped: Ghost<Set<StepId>>,
}

impl Executor {
    /// The steps of the run.
    pub closed spec fn steps(&self) -> Seq<Step> {
        self.steps@
    }

    /// The step that is built.
    pub closed spec fn target(&self) -> StepId {
        self.target
    }

    /// The scheduler state.
    pub closed spec fn scheduler(&self) -> Parallelizer {
        self.scheduler
    }

    /// The results recorded so far.
    pub closed spec fn statistics(&self) -> Map<StepId, CommandResult> {
        self.statistics@
    }

    /// The shared configuration.
    pub closed spec fn cfg(&self) -> ConfigModel {
        self.cfg@
    }

    /// The step that was handed out for resolution and is not yet resolved.
    pub closed spec fn unresolved(&self) -> Option<StepId> {
        self.unresolved
    }

    /// The steps that were skipped because their condition was false.
    pub closed spec fn skipped(&self) -> Set<StepId> {
        self.skipped@
    }

    /// The steps that have what a complete step has to show: a recorded
    /// result, unless the step was skipped or is a synchronization step.
    pub open spec fn accounted(&self) -> Set<StepId> {
        self.statistics().dom() + self.skipped() + sync_steps(self.steps())
    }

    /// Whether the run has failed.
    pub closed spec fn failed(&self) -> bool {
        self.failed
    }

    /// The dependency relation of the run: that of the steps, focused on
    /// the target.
    pub open spec fn graph(&self) -> DepMap {
        self.scheduler().graph()
    }

    /// The steps that have not been handed out.
    pub open spec fn pending(&self) -> Set<StepId> {
        self.scheduler().pending()
    }

    /// The steps that were handed out and are not yet complete.
    pub open spec fn running(&self) -> Set<StepId> {
        self.scheduler().running()
    }

    /// The steps that are complete.
    pub open spec fn completed(&self) -> Set<StepId> {
        self.scheduler().completed()
    }

    /// The statistics and the configuration are well formed.
    pub closed spec fn repr_wf(&self) -> bool {
        self.statistics.wf() && self.cfg.wf()
    }

    /// The state is consistent: the steps have distinct identifiers and
    /// name only each other, the scheduler works on the graph focused on
    /// the target, and only complete steps have a recorded result.
    pub open spec fn wf(&self) -> bool {
        &&& self.repr_wf()
        &&& steps_wf(self.steps())
        &&& distinct_ids(self.steps())
        &&& closed(graph_of(self.steps()))
        &&& graph_of(self.steps()).dom().contains(self.target())
        &&& self.scheduler().wf()
        &&& self.graph() == focused(graph_of(self.steps()), self.target())
        &&& match self.unresolved() {
            Some(id) => self.running().contains(id) && step_of(self.steps(), id).descriptor.is_some(),
            None => true,
        }
        &&& self.statistics().dom().subset_of(self.completed())
        &&& self.skipped().subset_of(self.completed())
        &&& self.completed().subset_of(self.accounted())
    }

    /// Sets up the run of one target: finds the step that carries the
    /// target name and focuses the graph of the steps on it, with every
    /// step of the focused graph pending. Fails where no step carries the
    /// name, where two steps share an identifier, and where a step requires
    /// a step that does not exist.
    pub fn new(steps: Vec<Step>, target_name: &str, cfg: ConfigMap) -> (made: Result<Self, RunError>)
        requires
            steps_wf(steps@),
            cfg.wf(),
        ensures
            match made {
                Ok(run) => {
                    &&& run.wf()
                    &&& run.steps() == steps@
                    &&& exists|i: int|
                        0 <= i < steps@.len() && names_target(#[trigger] steps@[i], target_name@)
                            && steps@[i].id == run.target() && forall|j: int|
                            0 <= j < i ==> !names_target(#[trigger] steps@[j], target_name@)
                    &&& run.pending() == cone(graph_of(steps@), run.target())
                    &&& run.scheduler().scan_order() == within(
                        step_ids(steps@),
                        cone(graph_of(steps@), run.target()),
                    )
                    &&& run.running() == Set::<StepId>::empty()
                    &&& run.statistics() == Map::<StepId, CommandResult>::empty()
                    &&& run.cfg() == cfg@
                    &&& run.unresolved().is_none()
                    &&& !run.failed()
                    &&& run.skipped() == Set::<StepId>::empty()
                },
                Err(error) => {
                    &&& error is Descriptor
                    &&& (forall|i: int|
                        0 <= i < steps@.len() ==> !names_target(#[trigger] steps@[i], target_name@))
                        || !distinct_ids(steps@) || !closed(graph_of(steps@))
                },
            },
    {
        let target = match find_target_id(steps.as_slice(), target_name) {
            Some(id) => id,
            None => {
                return Err(RunError::Descriptor(String::from_str("no step carries the target name")));
            },
        };
        if !has_distinct_ids(steps.as_slice()) {
            return Err(RunError::Descriptor(String::from_str("two steps share an identifier")));
        }
        let whole = IdGraph::from_steps(steps.as_slice());
        if !whole.is_closed() {
            return Err(
                RunError::Descriptor(String::from_str("a step requires a step that does not exist")),
            );
        }
        proof {
            lemma_graph_of_dom(steps@);
            lemma_focused_shape(graph_of(steps@), target);
        }
        let graph = whole.focus(target);
        let scheduler = Parallelizer::from_graph(graph);
        let run = Executor {
            steps,
            target,
            scheduler,
            statistics: RunStatistics::new(),
            cfg,
            unresolved: None,
            failed: false,
            skipped: Ghost(Set::empty()),
        };
        proof {
            assert(run.statistics().dom() =~= Set::<StepId>::empty());
        }
        Ok(run)
    }

    /// The steps of the run.
    pub fn all_steps(&self) -> (steps: &Vec<Step>)
        ensures
            steps@ == self.steps(),
    {
        &self.steps
    }

    /// The step that is built.
    pub fn target_id(&self) -> (id: StepId)
        ensures
            id == self.target(),
    {
        self.target
    }

    /// The results recorded so far.
    pub fn results(&self) -> (stats: &RunStatistics)
        requires
            self.wf(),
        ensures
            stats.wf(),
            stats@ == self.statistics(),
    {
        &self.statistics
    }

    /// Ends the run and hands out the results recorded so far: after a
    /// success all of them, after a failure those of the steps that were
    /// complete.
    pub fn into_statistics(self) -> (stats: RunStatistics)
        requires
            self.wf(),
        ensures
            stats.wf(),
            stats@ == self.statistics(),
    {
        self.statistics
    }

    /// The shared configuration.
    pub fn config(&self) -> (cfg: &ConfigMap)
        requires
            self.wf(),
        ensures
            cfg.wf(),
            cfg@ == self.cfg(),
    {
        &self.cfg
    }

    /// The numbers of complete steps and of all steps, and the running
    /// steps.
    pub fn counts(&self) -> (counts: (u64, u64, crate::step::IdSet))
        requires
            self.wf(),
        ensures
            counts.0 == self.completed().len(),
            counts.1 == self.graph().dom().len(),
            counts.2.wf(),
            counts.2@ == self.running(),
    {
        (
            self.scheduler.completed_count(),
            self.scheduler.total_count(),
            self.scheduler.running_ids(),
        )
    }

    /// Whether a worker's result for this step can be taken: the step is
    /// running and its descriptor was resolved.
    pub fn expects(&self, id: StepId) -> (yes: bool)
        ensures
            yes == (!self.failed() && self.running().contains(id) && self.unresolved() != Some(
                id,
            )),
    {
        let waiting = match self.unresolved {
            Some(open) => open == id,
            None => false,
        };
        !self.failed && self.scheduler.is_running(id) && !waiting
    }

    /// The step that waits for its resolution, if one does.
    pub fn awaiting_resolution(&self) -> (id: Option<StepId>)
        ensures
            id == if self.failed() {
                None
            } else {
                self.unresolved()
            },
    {
        if self.failed {
            None
        } else {
            self.unresolved
        }
    }

    /// Decides what is next. Steps without a descriptor that may start are
    /// completed on the way. A step is handed out for resolution only when
    /// every step it requires is complete and has a recorded result, unless
    /// that step was skipped or has nothing to run; when `Done` is given,
    /// the complete steps are exactly the target and everything it requires.
    pub fn poll(&mut self) -> (action: Action)
        requires
            old(self).wf(),
        ensures
            final(self).wf(),
            final(self).steps() == old(self).steps(),
            final(self).target() == old(self).target(),
            final(self).statistics() == old(self).statistics(),
            final(self).cfg() == old(self).cfg(),
            final(self).failed() == old(self).failed(),
            final(self).skipped() == old(self).skipped(),
            final(self).graph() == old(self).graph(),
            old(self).completed().subset_of(final(self).completed()),
            final(self).pending().subset_of(old(self).pending()),
            final(self).scheduler().scan_order() == within(
                old(self).scheduler().scan_order(),
                final(self).pending(),
            ),
            forall|s: StepId|
                final(self).completed().contains(s) && !old(self).completed().contains(s)
                    ==> (#[trigger] step_of(final(self).steps(), s)).descriptor.is_none(),
            old(self).failed() || old(self).unresolved().is_some() ==> {
                &&& final(self).pending() == old(self).pending()
                &&& final(self).running() == old(self).running()
                &&& final(self).unresolved() == old(self).unresolved()
                &&& action == if old(self).failed() {
                    Action::Halted
                } else {
                    Action::Resolve(old(self).unresolved().unwrap())
                }
            },
            match action {
                Action::Halted => old(self).failed(),
                Action::Resolve(id) => {
                    &&& !final(self).failed()
                    &&& final(self).unresolved() == Some(id)
                    &&& final(self).running().contains(id)
                    &&& step_of(final(self).steps(), id).descriptor.is_some()
                    &&& forall|d: StepId| #[trigger]
                        edge(final(self).graph(), id, d) ==> final(self).completed().contains(d)
                            && final(self).accounted().contains(d)
                    &&& old(self).unresolved() == Some(id) || exists|l: int|
                        0 <= l < old(self).scheduler().scan_order().len() && #[trigger] old(
                            self,
                        ).scheduler().scan_order()[l] == id && forall|k: int|
                            0 <= k < l && final(self).pending().contains(
                                #[trigger] old(self).scheduler().scan_order()[k],
                            ) ==> !final(self).scheduler().ready(
                                old(self).scheduler().scan_order()[k],
                            )
                },
                Action::Wait => {
                    &&& !final(self).failed()
                    &&& final(self).unresolved().is_none()
                    &&& final(self).running() != Set::<StepId>::empty()
                    &&& forall|s: StepId|
                        final(self).pending().contains(s) ==> !final(self).scheduler().ready(s)
                },
                Action::Done => {
                    &&& !final(self).failed()
                    &&& final(self).unresolved().is_none()
                    &&& final(self).pending() == Set::<StepId>::empty()
                    &&& final(self).running() == Set::<StepId>::empty()
                    &&& final(self).completed() == cone(
                        graph_of(final(self).steps()),
                        final(self).target(),
                    )
                },
                Action::Stuck => {
                    &&& !final(self).failed()
                    &&& final(self).unresolved().is_none()
                    &&& final(self).running() == Set::<StepId>::empty()
                    &&& final(self).pending() != Set::<StepId>::empty()
                    &&& forall|s: StepId|
                        final(self).pending().contains(s) ==> !final(self).scheduler().ready(s)
                },
            },
    {
        let ghost order = self.scheduler().scan_order();
        proof {
            lemma_focused_shape(graph_of(self.steps()), self.target());
            self.scheduler.lemma_scan_order();
            assert forall|i: int| 0 <= i < order.len() implies self.pending().contains(
                #[trigger] order[i],
            ) by {
                assert(order.contains(order[i]));
                assert(order.to_set().contains(order[i]));
            }
            lemma_within_all(order, self.pending());
        }
        if self.failed {
            return Action::Halted;
        }
        if let Some(id) = self.unresolved {
            proof {
                assert forall|d: StepId| #[trigger] edge(self.graph(), id, d) implies self.completed().contains(
                    d,
                ) by {
                    self.scheduler.lemma_predecessors_completed(id, d);
                }
            }
            return Action::Resolve(id);
        }
        loop
            invariant
                self.wf(),
                !self.failed(),
                !old(self).failed(),
                old(self).unresolved().is_none(),
                order == old(self).scheduler().scan_order(),
                self.scheduler().scan_order() == within(order, self.pending()),
                self.unresolved().is_none(),
                self.steps() == old(self).steps(),
                self.target() == old(self).target(),
                self.statistics() == old(self).statistics(),
                self.cfg() == old(self).cfg(),
                self.skipped() == old(self).skipped(),
                self.graph() == old(self).graph(),
                closed(self.graph()),
                self.graph().dom() == cone(graph_of(self.steps()), self.target()),
                self.graph().dom().subset_of(graph_of(self.steps()).dom()),
                old(self).completed().subset_of(self.completed()),
                self.pending().subset_of(old(self).pending()),
                forall|s: StepId|
                    self.completed().contains(s) && !old(self).completed().contains(s) ==> (
                    #[trigger] step_of(self.steps(), s)).descriptor.is_none(),
            decreases self.pending().len(),
        {
            proof {
                self.scheduler.lemma_counts();
            }
            let ghost before = self.scheduler;
            match self.scheduler.get_task() {
                Some(id) => {
                    let index = step_index_by_id(self.steps.as_slice(), id);
                    proof {
                        lemma_step_of(self.steps(), index as int);
                        assert forall|d: StepId| #[trigger]
                            edge(self.graph(), id, d) implies self.completed().contains(d) by {
                            assert(edge(before.graph(), id, d));
                        }
                        let seen = before.scan_order();
                        lemma_without_within(order, before.pending(), id);
                        before.lemma_scan_order();
                        let at = choose|l: int|
                            0 <= l < seen.len() && #[trigger] seen[l] == id && forall|k: int|
                                0 <= k < l ==> !before.ready(#[trigger] seen[k]);
                        assert(seen.contains(id));
                        lemma_within_contains(order, before.pending(), id);
                        let place = choose|l: int| 0 <= l < order.len() && order[l] == id;
                        assert forall|k: int|
                            0 <= k < place && self.pending().contains(
                                #[trigger] order[k],
                            ) implies !self.scheduler().ready(order[k]) by {
                            let s = order[k];
                            lemma_within_order(order, before.pending(), k, place);
                            let (i, j) = choose|i: int, j: int|
                                0 <= i < j < seen.len() && #[trigger] seen[i] == order[k]
                                    && #[trigger] seen[j] == order[place];
                            assert(j == at);
                            assert(!before.ready(seen[i]));
                            let d = choose|d: StepId| #[trigger]
                                edge(before.graph(), s, d) && !(!before.pending().contains(d)
                                    && !before.running().contains(d));
                            assert(edge(self.scheduler().graph(), s, d));
                        }
                        assert(order[place] == id);
                    }
                    if self.steps[index].descriptor.is_some() {
                        self.unresolved = Some(id);
                        return Action::Resolve(id);
                    } else {
                        self.scheduler.mark_complete(id);
                    }
                },
                None => {
                    proof {
                        self.scheduler.lemma_counts();
                        vstd::set_lib::lemma_set_empty_equivalency_len(self.running());
                        assert forall|s: StepId| self.pending().contains(s) implies !self.scheduler().ready(
                            s,
                        ) by {
                            assert(!before.ready(s));
                            let d = choose|d: StepId| #[trigger]
                                edge(before.graph(), s, d) && !(!before.pending().contains(d)
                                    && !before.running().contains(d));
                            assert(edge(self.scheduler().graph(), s, d));
                        }
                    }
                    if self.scheduler.is_done() {
                        return Action::Done;
                    } else if self.scheduler.running_count() == 0 {
                        return Action::Stuck;
                    } else {
                        return Action::Wait;
                    }
                },
            }
        }
    }

    /// Takes what the descriptor of the step that waits for its resolution
    /// resolved to. A skipped step is complete without a result; a command
    /// stays running until its result comes; a value is bound in the
    /// configuration and an assertion that holds passes, each complete with
    /// a virtual result; an assertion that does not hold fails the run with
    /// its message.
    pub fn resolved(&mut self, resolution: Resolution, elapsed: u64) -> (outcome: Result<
        Outcome,
        RunError,
    >)
        requires
            old(self).wf(),
            !old(self).failed(),
            old(self).unresolved().is_some(),
        ensures
            final(self).wf(),
            final(self).steps() == old(self).steps(),
            final(self).target() == old(self).target(),
            final(self).graph() == old(self).graph(),
            final(self).pending() == old(self).pending(),
            final(self).unresolved().is_none(),
            match resolution {
                Resolution::Skip => {
                    &&& outcome == Ok::<Outcome, RunError>(Outcome::Skipped)
                    &&& final(self).skipped() == old(self).skipped().insert(
                        old(self).unresolved().unwrap(),
                    )
                    &&& !final(self).failed()
                    &&& final(self).running() == old(self).running().remove(
                        old(self).unresolved().unwrap(),
                    )
                    &&& final(self).completed() == old(self).completed().insert(
                        old(self).unresolved().unwrap(),
                    )
                    &&& final(self).statistics() == old(self).statistics()
                    &&& final(self).cfg() == old(self).cfg()
                },
                Resolution::Cmd => {
                    &&& outcome == Ok::<Outcome, RunError>(Outcome::Dispatch)
                    &&& final(self).skipped() == old(self).skipped()
                    &&& !final(self).failed()
                    &&& final(self).running() == old(self).running()
                    &&& final(self).completed() == old(self).completed()
                    &&& final(self).statistics() == old(self).statistics()
                    &&& final(self).cfg() == old(self).cfg()
                },
                Resolution::Expr { name, value } => {
                    &&& outcome == Ok::<Outcome, RunError>(Outcome::Completed)
                    &&& final(self).skipped() == old(self).skipped()
                    &&& !final(self).failed()
                    &&& final(self).running() == old(self).running().remove(
                        old(self).unresolved().unwrap(),
                    )
                    &&& final(self).completed() == old(self).completed().insert(
                        old(self).unresolved().unwrap(),
                    )
                    &&& final(self).statistics() == old(self).statistics().insert(
                        old(self).unresolved().unwrap(),
                        virtual_result(old(self).unresolved().unwrap(), elapsed),
                    )
                    &&& final(self).cfg() == old(self).cfg().insert(name@, value)
                },
                Resolution::Assert { predicate, message } => if predicate {
                    &&& outcome == Ok::<Outcome, RunError>(Outcome::Completed)
                    &&& final(self).skipped() == old(self).skipped()
                    &&& !final(self).failed()
                    &&& final(self).running() == old(self).running().remove(
                        old(self).unresolved().unwrap(),
                    )
                    &&& final(self).completed() == old(self).completed().insert(
                        old(self).unresolved().unwrap(),
                    )
                    &&& final(self).statistics() == old(self).statistics().insert(
                        old(self).unresolved().unwrap(),
                        virtual_result(old(self).unresolved().unwrap(), elapsed),
                    )
                    &&& final(self).cfg() == old(self).cfg()
                } else {
                    &&& outcome == Err::<Outcome, RunError>(RunError::Assertion(message))
                    &&& final(self).skipped() == old(self).skipped()
                    &&& final(self).failed()
                    &&& final(self).running() == old(self).running()
                    &&& final(self).completed() == old(self).completed()
                    &&& final(self).statistics() == old(self).statistics()
                    &&& final(self).cfg() == old(self).cfg()
                },
            },
    {
        let id = match self.unresolved {
            Some(id) => id,
            None => StepId(0),
        };
        self.unresolved = None;
        match resolution {
            Resolution::Skip => {
                self.scheduler.mark_complete(id);
                self.skipped = Ghost(self.skipped@.insert(id));
                Ok(Outcome::Skipped)
            },
            Resolution::Cmd => Ok(Outcome::Dispatch),
            Resolution::Expr { name, value } => {
                self.cfg.set(name, value);
                self.scheduler.mark_complete(id);
                self.statistics.insert(
                    CommandResult { step_id: id, time: elapsed, data: CommandResultData::Virtual },
                );
                Ok(Outcome::Completed)
            },
            Resolution::Assert { predicate, message } => {
                if predicate {
                    self.scheduler.mark_complete(id);
                    self.statistics.insert(
                        CommandResult {
                            step_id: id,
                            time: elapsed,
                            data: CommandResultData::Virtual,
                        },
                    );
                    Ok(Outcome::Completed)
                } else {
                    self.failed = true;
                    Err(RunError::Assertion(message))
                }
            },
        }
    }

    /// Takes the result of a command from a worker. A result that is not a
    /// success fails the run and is handed back in the error; nothing is
    /// recorded for it. Otherwise the step is complete, the result is
    /// recorded, and where the step names a variable for its freshness,
    /// that variable is bound to whether the result is fresh.
    pub fn completed_with(&mut self, result: CommandResult, freshvar: Option<String>) -> (outcome:
        Result<(), RunError>)
        requires
            old(self).wf(),
            !old(self).failed(),
            old(self).running().contains(result.step_id),
            old(self).unresolved() != Some(result.step_id),
        ensures
            final(self).wf(),
            final(self).steps() == old(self).steps(),
            final(self).target() == old(self).target(),
            final(self).graph() == old(self).graph(),
            final(self).pending() == old(self).pending(),
            final(self).unresolved() == old(self).unresolved(),
            final(self).skipped() == old(self).skipped(),
            if result.success_spec() {
                &&& outcome.is_ok()
                &&& !final(self).failed()
                &&& final(self).running() == old(self).running().remove(result.step_id)
                &&& final(self).completed() == old(self).completed().insert(result.step_id)
                &&& final(self).statistics() == old(self).statistics().insert(
                    result.step_id,
                    result,
                )
                &&& final(self).cfg() == match freshvar {
                    Some(name) => old(self).cfg().insert(name@, Value::Bool(result.data is Fresh)),
                    None => old(self).cfg(),
                }
            } else {
                &&& outcome == Err::<(), RunError>(RunError::Command(result))
                &&& final(self).failed()
                &&& final(self).running() == old(self).running()
                &&& final(self).completed() == old(self).completed()
                &&& final(self).statistics() == old(self).statistics()
                &&& final(self).cfg() == old(self).cfg()
            },
    {
        if !result.success() {
            self.failed = true;
            return Err(RunError::Command(result));
        }
        match freshvar {
            Some(name) => {
                self.cfg.set(name, Value::Bool(result.fresh()));
            },
            None => {},
        }
        self.scheduler.mark_complete(result.step_id);
        self.statistics.insert(result);
        Ok(())
    }
}

impl Executor {
    /// The steps are handed out in a topological order of the focused
    /// graph: when a step is handed out, every step it depends on, directly
    /// or through others, was handed out and reported complete before.
    pub proof fn lemma_dispatch_order(&self, s: StepId, d: StepId, k: int)
        requires
            self.wf(),
            crate::parallelize::starts_at(self.scheduler().trace(), s, k),
            crate::reach::depends(self.graph(), s, d),
        ensures
            exists|i: int, j: int|
                i < j < k && #[trigger] crate::parallelize::starts_at(self.scheduler().trace(), d, i)
                    && #[trigger] crate::parallelize::finishes_at(self.scheduler().trace(), d, j),
    {
        lemma_focused_shape(graph_of(self.steps()), self.target());
        self.scheduler().lemma_started_in_topological_order(s, d, k);
    }
}

/// With distinct identifiers, the step of an identifier is the one that
/// carries it.
pub proof fn lemma_step_of(steps: Seq<Step>, index: int)
    requires
        distinct_ids(steps),
        0 <= index < steps.len(),
    ensures
        step_of(steps, steps[index].id) == steps[index],
{
    let id = steps[index].id;
    let i = choose|i: int| 0 <= i < steps.len() && (#[trigger] steps[i]).id == id;
    assert(steps[index].id == id);
    if i < index {
        assert(steps[i].id != steps[index].id);
    } else if index < i {
        assert(steps[index].id != steps[i].id);
    }
}

} // verus!
