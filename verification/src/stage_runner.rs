//! The course of one stage: whether it is needed, loading its model, running it, and trying once
//! more where memory was short.
//!
//! A [`StageRun`] decides what is done next; whoever drives it does that and hands back what came
//! of it.

use vstd::prelude::*;

use crate::failure::{
    out_of_memory, should_retry_after_memory_pressure, ErrorKind, PipelineError,
};
use crate::stage::Stage;

verus! {

/// What a stage came to.
#[derive(Clone, Copy, Debug, PartialEq, Eq, Structural)]
pub enum StageOutcome {
    Patch,
    Skipped,
    Stopped,
}

/// What is told first of a failed stage.
pub open spec fn stage_words(kind: ErrorKind, model: Seq<char>) -> Seq<char> {
    if kind == ErrorKind::ModelLoad {
        "failed to load "@ + model
    } else {
        model + " failed"@
    }
}

/// The failure of a stage, with words before those of its cause.
pub open spec fn is_stage_error(
    error: PipelineError,
    stage: Stage,
    model: Seq<char>,
    kind: ErrorKind,
    messages: Seq<String>,
) -> bool {
    &&& error.kind == kind
    &&& error.stage == Some(stage)
    &&& error.messages@.len() == messages.len() + 1
    &&& error.messages@[0]@ == stage_words(kind, model)
    &&& error.messages@.skip(1) == messages
}

/// The failure of a stage.
pub fn stage_error(stage: Stage, model: &str, kind: ErrorKind, messages: Vec<String>) -> (result:
    PipelineError)
    ensures
        is_stage_error(result, stage, model@, kind, messages@),
{
    let words = if kind == ErrorKind::ModelLoad {
        let mut words = "failed to load ".to_owned();
        words.append(model);
        words
    } else {
        let mut words = model.to_owned();
        words.append(" failed");
        words
    };
    let mut told = messages;
    told.insert(0, words);
    proof {
        assert(told@.skip(1) =~= messages@);
    }
    PipelineError::new(kind, Some(stage), told)
}

/// How far a stage has come.
#[derive(Clone, Copy, Debug, PartialEq, Eq, Structural)]
pub enum RunPhase {
    Skipping,
    Acquiring,
    /// The model is being loaded, for the first time or again.
    Loading { again: bool },
    /// The stage is running, for the first time or again.
    Processing { again: bool },
    Recovering,
    Finished,
}

/// What came of what was to be done.
pub enum RunEvent {
    /// Whether the stage is not needed.
    Skip(Result<bool, Vec<String>>),
    Acquired,
    Loaded(Result<(), Vec<String>>),
    /// Whether the stage changed nothing.
    Processed(Result<bool, Vec<String>>),
    Recovered,
}

/// What is to be done.
pub enum RunAction {
    CheckSkip,
    Acquire,
    Load,
    Process,
    /// The accelerator is given up, room is made on it, and it is taken again.
    Recover,
    Finish(StageOutcome),
    /// The models of a stage are unloaded, and the stage has failed.
    Fail { unload: Stage, error: PipelineError },
}

impl RunAction {
    /// The stage whose models are unloaded with an action.
    pub open spec fn unloads(self) -> Option<Stage> {
        match self {
            RunAction::Fail { unload, .. } => Some(unload),
            _ => None,
        }
    }

    /// Tells the stage whose models are to be unloaded, where the action asks for that.
    pub fn unload(&self) -> (result: Option<Stage>)
        ensures
            result == self.unloads(),
    {
        match self {
            RunAction::Fail { unload, .. } => Some(*unload),
            _ => None,
        }
    }
}

/// A stage under way.
pub struct StageRun {
    pub stage: Stage,
    pub model: String,
    /// Whether the model is managed here, so that room can be made for it.
    pub recovers: bool,
    pub phase: RunPhase,
}

/// The events that can come of what is being done in a phase.
pub open spec fn fits(phase: RunPhase, event: RunEvent) -> bool {
    match phase {
        RunPhase::Skipping => event is Skip,
        RunPhase::Acquiring => event is Acquired,
        RunPhase::Loading { .. } => event is Loaded,
        RunPhase::Processing { .. } => event is Processed,
        RunPhase::Recovering => event is Recovered,
        RunPhase::Finished => false,
    }
}

/// The stage ends with a failure.
pub open spec fn fails(
    run: StageRun,
    kind: ErrorKind,
    messages: Seq<String>,
    phase: RunPhase,
    action: RunAction,
) -> bool {
    &&& phase is Finished
    &&& action matches RunAction::Fail { unload, error }
    &&& unload == run.stage
    &&& is_stage_error(error, run.stage, run.model@, kind, messages)
}

/// What follows a failed attempt: room is made once where memory was short, and otherwise the
/// stage ends.
pub open spec fn after_failure(
    run: StageRun,
    again: bool,
    kind: ErrorKind,
    messages: Seq<String>,
    stopped: bool,
    phase: RunPhase,
    action: RunAction,
) -> bool {
    if !again && run.recovers && !stopped && out_of_memory(messages) {
        phase is Recovering && action is Recover
    } else {
        fails(run, kind, messages, phase, action)
    }
}

/// What follows an event.
pub open spec fn follows(
    run: StageRun,
    event: RunEvent,
    stopped: bool,
    phase: RunPhase,
    action: RunAction,
) -> bool {
    let ends = |outcome: StageOutcome|
        phase is Finished && action == RunAction::Finish(outcome);
    match (run.phase, event) {
        (RunPhase::Skipping, RunEvent::Skip(Ok(skip))) => if skip {
            ends(StageOutcome::Skipped)
        } else {
            phase is Acquiring && action is Acquire
        },
        (RunPhase::Skipping, RunEvent::Skip(Err(messages))) => fails(
            run,
            ErrorKind::Processing,
            messages@,
            phase,
            action,
        ),
        (RunPhase::Acquiring, RunEvent::Acquired) => if stopped {
            ends(StageOutcome::Stopped)
        } else {
            phase == (RunPhase::Loading { again: false }) && action is Load
        },
        (RunPhase::Loading { again }, RunEvent::Loaded(Ok(_))) => if stopped {
            ends(StageOutcome::Stopped)
        } else {
            phase == (RunPhase::Processing { again }) && action is Process
        },
        (RunPhase::Loading { again }, RunEvent::Loaded(Err(messages))) => after_failure(
            run,
            again,
            ErrorKind::ModelLoad,
            messages@,
            stopped,
            phase,
            action,
        ),
        (RunPhase::Processing { .. }, RunEvent::Processed(Ok(empty))) => if stopped {
            ends(StageOutcome::Stopped)
        } else if empty {
            ends(StageOutcome::Skipped)
        } else {
            ends(StageOutcome::Patch)
        },
        (RunPhase::Processing { again }, RunEvent::Processed(Err(messages))) => after_failure(
            run,
            again,
            ErrorKind::Processing,
            messages@,
            stopped,
            phase,
            action,
        ),
        (RunPhase::Recovering, RunEvent::Recovered) => if stopped {
            ends(StageOutcome::Stopped)
        } else {
            phase == (RunPhase::Loading { again: true }) && action is Load
        },
        _ => true,
    }
}

impl StageRun {
    /// Starts a stage.
    pub fn start(stage: Stage, model: String, recovers: bool, stopped: bool) -> (result: (
        StageRun,
        RunAction,
    ))
        ensures
            result.0.stage == stage,
            result.0.model == model,
            result.0.recovers == recovers,
            if stopped {
                result.0.phase is Finished && result.1 == RunAction::Finish(StageOutcome::Stopped)
            } else {
                result.0.phase is Skipping && result.1 is CheckSkip
            },
    {
        if stopped {
            (
                StageRun { stage, model, recovers, phase: RunPhase::Finished },
                RunAction::Finish(StageOutcome::Stopped),
            )
        } else {
            (StageRun { stage, model, recovers, phase: RunPhase::Skipping }, RunAction::CheckSkip)
        }
    }

    /// Tests whether an event can come of what is being done.
    pub fn expects(&self, event: &RunEvent) -> (result: bool)
        ensures
            result == fits(self.phase, *event),
    {
        match (self.phase, event) {
            (RunPhase::Skipping, RunEvent::Skip(_)) => true,
            (RunPhase::Acquiring, RunEvent::Acquired) => true,
            (RunPhase::Loading { .. }, RunEvent::Loaded(_)) => true,
            (RunPhase::Processing { .. }, RunEvent::Processed(_)) => true,
            (RunPhase::Recovering, RunEvent::Recovered) => true,
            _ => false,
        }
    }

    fn fail(&self, kind: ErrorKind, messages: Vec<String>) -> (result: (RunPhase, RunAction))
        ensures
            fails(*self, kind, messages@, result.0, result.1),
    {
        (
            RunPhase::Finished,
            RunAction::Fail {
                unload: self.stage,
                error: stage_error(self.stage, self.model.as_str(), kind, messages),
            },
        )
    }

    fn settle(&self, again: bool, kind: ErrorKind, messages: Vec<String>, stopped: bool) -> (result:
        (RunPhase, RunAction))
        ensures
            after_failure(*self, again, kind, messages@, stopped, result.0, result.1),
    {
        if !again && should_retry_after_memory_pressure(self.recovers, stopped, &messages) {
            (RunPhase::Recovering, RunAction::Recover)
        } else {
            self.fail(kind, messages)
        }
    }

    /// Decides what is done after an event, given whether the run was stopped.
    pub fn next(self, event: RunEvent, stopped: bool) -> (result: (StageRun, RunAction))
        requires
            fits(self.phase, event),
        ensures
            result.0.stage == self.stage,
            result.0.model == self.model,
            result.0.recovers == self.recovers,
            follows(self, event, stopped, result.0.phase, result.1),
    {
        let (phase, action) = match (self.phase, event) {
            (RunPhase::Skipping, RunEvent::Skip(Ok(skip))) => if skip {
                (RunPhase::Finished, RunAction::Finish(StageOutcome::Skipped))
            } else {
                (RunPhase::Acquiring, RunAction::Acquire)
            },
            (RunPhase::Skipping, RunEvent::Skip(Err(messages))) => self.fail(
                ErrorKind::Processing,
                messages,
            ),
            (RunPhase::Acquiring, RunEvent::Acquired) => if stopped {
                (RunPhase::Finished, RunAction::Finish(StageOutcome::Stopped))
            } else {
                (RunPhase::Loading { again: false }, RunAction::Load)
            },
            (RunPhase::Loading { again }, RunEvent::Loaded(Ok(_))) => if stopped {
                (RunPhase::Finished, RunAction::Finish(StageOutcome::Stopped))
            } else {
                (RunPhase::Processing { again }, RunAction::Process)
            },
            (RunPhase::Loading { again }, RunEvent::Loaded(Err(messages))) => self.settle(
                again,
                ErrorKind::ModelLoad,
                messages,
                stopped,
            ),
            (RunPhase::Processing { .. }, RunEvent::Processed(Ok(empty))) => if stopped {
                (RunPhase::Finished, RunAction::Finish(StageOutcome::Stopped))
            } else if empty {
                (RunPhase::Finished, RunAction::Finish(StageOutcome::Skipped))
            } else {
                (RunPhase::Finished, RunAction::Finish(StageOutcome::Patch))
            },
            (RunPhase::Processing { again }, RunEvent::Processed(Err(messages))) => self.settle(
                again,
                ErrorKind::Processing,
                messages,
                stopped,
            ),
            (RunPhase::Recovering, RunEvent::Recovered) => if stopped {
                (RunPhase::Finished, RunAction::Finish(StageOutcome::Stopped))
            } else {
                (RunPhase::Loading { again: true }, RunAction::Load)
            },
            _ => (RunPhase::Finished, RunAction::Finish(StageOutcome::Stopped)),
        };
        (
            StageRun { stage: self.stage, model: self.model, recovers: self.recovers, phase },
            action,
        )
    }
}

/// How many attempts a stage has begun, at most.
pub open spec fn attempts(phase: RunPhase) -> nat {
    match phase {
        RunPhase::Skipping => 0,
        RunPhase::Acquiring => 0,
        RunPhase::Loading { again } => if again {
            2
        } else {
            1
        },
        RunPhase::Processing { again } => if again {
            2
        } else {
            1
        },
        RunPhase::Recovering => 1,
        RunPhase::Finished => 2,
    }
}

/// A stage is tried at most twice, and a second time only where its model is managed here and
/// memory was short.
pub proof fn law_a_stage_is_retried_once(
    run: StageRun,
    event: RunEvent,
    stopped: bool,
    phase: RunPhase,
    action: RunAction,
)
    requires
        fits(run.phase, event),
        follows(run, event, stopped, phase, action),
    ensures
        attempts(run.phase) <= attempts(phase) <= 2,
        action is Load ==> attempts(phase) == attempts(run.phase) + 1,
        action is Recover ==> run.recovers && !stopped && attempts(run.phase) == 1,
{
}

/// Once a run was stopped, no model is loaded and nothing is run.
pub proof fn law_a_stopped_stage_starts_nothing(
    run: StageRun,
    event: RunEvent,
    phase: RunPhase,
    action: RunAction,
)
    requires
        fits(run.phase, event),
        follows(run, event, true, phase, action),
    ensures
        !(action is Load) && !(action is Process) && !(action is Recover),
{
}

/// A stage fails if and only if its models are unloaded, and the failure names the stage.
pub proof fn law_a_failed_stage_is_unloaded(
    run: StageRun,
    event: RunEvent,
    stopped: bool,
    phase: RunPhase,
    action: RunAction,
)
    requires
        fits(run.phase, event),
        follows(run, event, stopped, phase, action),
    ensures
        action is Fail <==> action.unloads() is Some,
        action matches RunAction::Fail { unload, error } ==> unload == run.stage && error.stage
            == Some(run.stage),
{
}

/// A stage that ran short of memory is tried again after room was made, where that can be done and
/// it was neither stopped nor tried again before. Any other failure ends it.
pub proof fn law_room_is_made_where_memory_was_short(
    run: StageRun,
    again: bool,
    kind: ErrorKind,
    messages: Seq<String>,
    stopped: bool,
    phase: RunPhase,
    action: RunAction,
)
    requires
        after_failure(run, again, kind, messages, stopped, phase, action),
    ensures
        action is Recover <==> !again && run.recovers && !stopped && out_of_memory(messages),
        action is Recover ==> phase is Recovering,
        !(action is Recover) ==> {
            &&& phase is Finished
            &&& action matches RunAction::Fail { unload, error }
            &&& unload == run.stage
            &&& error.kind == kind
            &&& error.stage == Some(run.stage)
            &&& error.messages@.skip(1) == messages
        },
{
}

/// A failure is told with the name of the model before the words of its cause.
pub proof fn law_failures_name_the_model(kind: ErrorKind, model: Seq<char>)
    ensures
        kind == ErrorKind::ModelLoad ==> stage_words(kind, model) == "failed to load "@ + model,
        kind != ErrorKind::ModelLoad ==> stage_words(kind, model) == model + " failed"@,
{
}

} // verus!
