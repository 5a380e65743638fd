//! A run over pages: which work is handed out, what is made of its results, and how it ends.

use vstd::prelude::*;

use crate::failure::{ErrorKind, PipelineError};
use crate::scheduler::{
    initial_plan, law_chapter_finishes_item, law_complete_keeps_step, law_finished_items,
    law_initial, law_never_stalls, Plan, Scheduler, WorkState,
};
use crate::stage::{EntityId, Stage, StageSet, StageTarget};
use crate::stage_runner::StageOutcome;
use crate::text::{decimal, from_size};

verus! {

/// A state of a scene: the project, and how often it was changed.
#[derive(Clone, Copy, Debug, PartialEq, Eq, Structural)]
pub struct SceneMark {
    pub project: u128,
    pub revision: u64,
}

/// What is wrong with a state that follows another.
pub open spec fn commit_problem(previous: SceneMark, next: SceneMark) -> Option<Seq<char>> {
    if previous.project != next.project {
        Some("committer returned a snapshot from another project"@)
    } else if next.revision <= previous.revision {
        Some("committer did not advance the scene revision"@)
    } else {
        None
    }
}

/// Tests whether a state can follow another, and tells what is wrong where not.
pub fn validate_commit(previous: SceneMark, next: SceneMark) -> (result: Result<(), &'static str>)
    ensures
        match result {
            Ok(_) => commit_problem(previous, next) is None,
            Err(message) => commit_problem(previous, next) == Some(message@),
        },
{
    if previous.project != next.project {
        Err("committer returned a snapshot from another project")
    } else if next.revision <= previous.revision {
        Err("committer did not advance the scene revision")
    } else {
        Ok(())
    }
}

/// How a run ended.
#[derive(Clone, Copy, Debug, PartialEq, Eq, Structural)]
pub enum RunStatus {
    Completed,
    Stopped,
}

/// What a run came to.
#[derive(Clone, Copy, Debug, PartialEq, Eq, Structural)]
pub struct Report {
    pub status: RunStatus,
    pub base: u64,
    pub final_revision: u64,
    pub completed: usize,
    pub total: usize,
}

/// What is to be done with the result of a stage.
pub enum Step {
    Nothing,
    /// The stage changed nothing. The images of this page are needed no longer.
    Skipped { forget: Option<EntityId> },
    /// The stage failed on one page of many, which is told and passed over. The images of this page
    /// are needed no longer.
    Warn { error: PipelineError, forget: Option<EntityId> },
    /// The changes are to be committed.
    Commit,
    /// The changes are committed. The images of this page are needed no longer.
    Finished { forget: Option<EntityId> },
}

/// A run over pages.
pub struct Execution {
    pub scheduler: Scheduler,
    pub busy_stages: StageSet,
    pub completed: usize,
    pub failure: Option<PipelineError>,
    pub base: SceneMark,
    pub scene: SceneMark,
}

/// The mask of a run is on none of its pages, or nothing is painted in it.
pub open spec fn stray_mask(
    mask: Option<EntityId>,
    pages: Seq<EntityId>,
    stages: Seq<Stage>,
) -> bool {
    mask matches Some(page) && !(pages.contains(page) && stages.contains(Stage::Inpainting))
}

/// How a run follows when a stage is finished on a target.
pub open spec fn marks(
    before: Execution,
    after: Execution,
    target: StageTarget,
    stage: Stage,
    forget: Option<EntityId>,
) -> bool {
    &&& after.completed == before.completed + 1
    &&& after.base == before.base
    &&& match target {
        StageTarget::Chapter => {
            &&& forget is None
            &&& after.scheduler@ == before.scheduler@.chapter_completed(stage)
        },
        StageTarget::Page(page) => {
            &&& (forall|p: int| !#[trigger] before.scheduler@.is_page(p, page)) ==> forget is None
                && after.scheduler@ == before.scheduler@
            &&& forall|p: int| #[trigger]
                before.scheduler@.is_page(p, page) ==> {
                    &&& before.scheduler@.page_completed(after.scheduler@, p, stage)
                    &&& forget == (if before.scheduler@.finishes_page(p, stage) {
                        Some(page)
                    } else {
                        None
                    })
                }
        },
    }
}

/// A failed stage is passed over: one that paints a page in a run over a whole project.
pub open spec fn passes_over(target: StageTarget, stage: Stage, project_scope: bool) -> bool {
    stage == Stage::Inpainting && target is Page && project_scope
}

/// A run with a failure, where it had none.
pub open spec fn with_failure(before: Option<PipelineError>, error: PipelineError) -> Option<
    PipelineError,
> {
    match before {
        Some(earlier) => Some(earlier),
        None => Some(error),
    }
}

impl Execution {
    /// The run is consistent.
    pub open spec fn well_formed(&self) -> bool {
        self.scheduler.well_formed()
    }

    /// Starts a run. It fails where the mask is not on one of its pages, or nothing is painted.
    pub fn new(
        pages: &[EntityId],
        stages: &[Stage],
        project_scope: bool,
        mask: Option<EntityId>,
        scene: SceneMark,
    ) -> (result: Result<Execution, PipelineError>)
        ensures
            match result {
                Ok(run) => {
                    &&& !stray_mask(mask, pages@, stages@)
                    &&& run.well_formed()
                    &&& run.scheduler@ == initial_plan(pages@, stages@, project_scope)
                    &&& run.busy_stages@ == Set::<Stage>::empty()
                    &&& run.completed == 0
                    &&& run.failure is None
                    &&& run.base == scene
                    &&& run.scene == scene
                },
                Err(error) => {
                    &&& stray_mask(mask, pages@, stages@)
                    &&& error.kind == ErrorKind::InvalidInput
                    &&& error.stage == Some(Stage::Inpainting)
                    &&& error.messages@.len() == 1
                    &&& error.messages@[0]@
                        == "the inpainting mask page is outside the inpainting scope"@
                },
            },
    {
        if let Some(page) = mask {
            if !(holds_page(pages, page) && holds_stage(stages, Stage::Inpainting)) {
                let mut messages: Vec<String> = Vec::new();
                messages.push(
                    "the inpainting mask page is outside the inpainting scope".to_owned(),
                );
                return Err(
                    PipelineError::new(
                        ErrorKind::InvalidInput,
                        Some(Stage::Inpainting),
                        messages,
                    ),
                );
            }
        }
        Ok(
            Execution {
                scheduler: Scheduler::new(pages, stages, project_scope),
                busy_stages: StageSet::new(),
                completed: 0,
                failure: None,
                base: scene,
                scene,
            },
        )
    }

    /// Hands out the next work that is free to run: none once the run was stopped or has failed.
    pub fn take_ready_job(&mut self, stopped: bool) -> (result: Option<(StageTarget, Stage)>)
        requires
            old(self).well_formed(),
        ensures
            final(self).well_formed(),
            final(self).completed == old(self).completed,
            final(self).failure == old(self).failure,
            final(self).base == old(self).base,
            final(self).scene == old(self).scene,
            stopped || old(self).failure is Some ==> result is None && *final(self) == *old(self),
            match result {
                Some((StageTarget::Chapter, stage)) => {
                    &&& stage == Stage::Translation
                    &&& old(self).scheduler@.chapter_startable(old(self).busy_stages@)
                    &&& final(self).scheduler@ == (Plan {
                        chapter: Some(WorkState::Running),
                        ..old(self).scheduler@
                    })
                    &&& final(self).busy_stages@ == old(self).busy_stages@.insert(stage)
                },
                Some((StageTarget::Page(page), stage)) => {
                    &&& !old(self).scheduler@.chapter_startable(old(self).busy_stages@)
                    &&& exists|p: int, i: int| #[trigger]
                        old(self).scheduler@.chosen(old(self).busy_stages@, p, i) && page == old(
                            self,
                        ).scheduler@.pages[p].page && stage == old(
                            self,
                        ).scheduler@.pages[p].stages[i].stage && final(self).scheduler@ == old(
                            self,
                        ).scheduler@.begun(p, i)
                    &&& final(self).busy_stages@ == old(self).busy_stages@.insert(stage)
                },
                None => {
                    &&& final(self).scheduler@ == old(self).scheduler@
                    &&& final(self).busy_stages@ == old(self).busy_stages@
                    &&& !stopped && old(self).failure is None ==> {
                        &&& !old(self).scheduler@.chapter_startable(old(self).busy_stages@)
                        &&& forall|p: int, i: int| !#[trigger]
                            old(self).scheduler@.startable(old(self).busy_stages@, p, i)
                    }
                },
            },
    {
        if stopped || self.failure.is_some() {
            return None;
        }
        match self.scheduler.start_next(&self.busy_stages) {
            Some((target, stage)) => {
                self.busy_stages.insert(stage);
                Some((target, stage))
            },
            None => None,
        }
    }

    fn mark_complete(&mut self, target: StageTarget, stage: Stage) -> (forget: Option<EntityId>)
        requires
            old(self).well_formed(),
            old(self).completed < usize::MAX,
        ensures
            final(self).well_formed(),
            final(self).busy_stages == old(self).busy_stages,
            final(self).failure == old(self).failure,
            final(self).scene == old(self).scene,
            marks(*old(self), *final(self), target, stage, forget),
    {
        let done = self.scheduler.complete_stage(target, stage);
        self.completed = self.completed + 1;
        if done {
            target.page()
        } else {
            None
        }
    }

    /// Takes the result of a stage.
    pub fn handle_completion(
        &mut self,
        target: StageTarget,
        stage: Stage,
        outcome: Result<StageOutcome, PipelineError>,
        stopped: bool,
    ) -> (step: Step)
        requires
            old(self).well_formed(),
            old(self).completed < usize::MAX,
        ensures
            final(self).well_formed(),
            final(self).busy_stages@ == old(self).busy_stages@.remove(stage),
            final(self).base == old(self).base,
            final(self).scene == old(self).scene,
            match (stopped, outcome) {
                (false, Err(error)) => if passes_over(
                    target,
                    stage,
                    old(self).scheduler@.project_scope,
                ) {
                    &&& final(self).failure == old(self).failure
                    &&& step matches Step::Warn { error: told, forget }
                    &&& told == error
                    &&& marks(*old(self), *final(self), target, stage, forget)
                } else {
                    &&& step is Nothing
                    &&& final(self).failure == with_failure(old(self).failure, error)
                    &&& final(self).scheduler == old(self).scheduler
                    &&& final(self).completed == old(self).completed
                },
                (false, Ok(StageOutcome::Skipped)) => {
                    &&& final(self).failure == old(self).failure
                    &&& step matches Step::Skipped { forget }
                    &&& marks(*old(self), *final(self), target, stage, forget)
                },
                (false, Ok(StageOutcome::Patch)) => {
                    &&& step is Commit
                    &&& final(self).failure == old(self).failure
                    &&& final(self).scheduler == old(self).scheduler
                    &&& final(self).completed == old(self).completed
                },
                _ => {
                    &&& step is Nothing
                    &&& final(self).failure == old(self).failure
                    &&& final(self).scheduler == old(self).scheduler
                    &&& final(self).completed == old(self).completed
                },
            },
    {
        self.busy_stages.remove(stage);
        if stopped {
            return Step::Nothing;
        }
        match outcome {
            Err(error) => {
                let page = target.page();
                if stage == Stage::Inpainting && page.is_some() && self.scheduler.project_scope() {
                    let forget = self.mark_complete(target, stage);
                    Step::Warn { error, forget }
                } else {
                    self.fail(error);
                    Step::Nothing
                }
            },
            Ok(StageOutcome::Stopped) => Step::Nothing,
            Ok(StageOutcome::Skipped) => {
                let forget = self.mark_complete(target, stage);
                Step::Skipped { forget }
            },
            Ok(StageOutcome::Patch) => Step::Commit,
        }
    }

    /// Keeps a failure, where the run has none yet.
    pub fn fail(&mut self, error: PipelineError)
        ensures
            *final(self) == (Execution {
                failure: with_failure(old(self).failure, error),
                ..*old(self)
            }),
    {
        if self.failure.is_none() {
            self.failure = Some(error);
        }
    }

    /// Takes the state of the scene after the changes of a stage were committed.
    pub fn committed(&mut self, target: StageTarget, stage: Stage, next: SceneMark) -> (step: Step)
        requires
            old(self).well_formed(),
            old(self).completed < usize::MAX,
        ensures
            final(self).well_formed(),
            final(self).busy_stages == old(self).busy_stages,
            match commit_problem(old(self).scene, next) {
                Some(problem) => {
                    &&& step is Nothing
                    &&& final(self).scheduler == old(self).scheduler
                    &&& final(self).completed == old(self).completed
                    &&& final(self).scene == old(self).scene
                    &&& match old(self).failure {
                        Some(_) => final(self).failure == old(self).failure,
                        None => {
                            &&& final(self).failure matches Some(error)
                            &&& error.kind == ErrorKind::Commit
                            &&& error.stage == Some(stage)
                            &&& error.messages@.len() == 1
                            &&& error.messages@[0]@ == problem
                        },
                    }
                },
                None => {
                    &&& step matches Step::Finished { forget }
                    &&& final(self).failure == old(self).failure
                    &&& final(self).scene == next
                    &&& marks(*old(self), *final(self), target, stage, forget)
                },
            },
    {
        match validate_commit(self.scene, next) {
            Err(problem) => {
                let mut messages: Vec<String> = Vec::new();
                messages.push(problem.to_owned());
                self.fail(PipelineError::new(ErrorKind::Commit, Some(stage), messages));
                Step::Nothing
            },
            Ok(_) => {
                self.scene = next;
                let forget = self.mark_complete(target, stage);
                Step::Finished { forget }
            },
        }
    }

    /// Ends a run: with its failure, where it has one; and with another where work is left though
    /// the run was not stopped.
    pub fn finalize(self, stopped: bool) -> (result: Result<Report, PipelineError>)
        ensures
            match self.failure {
                Some(error) => result == Err::<Report, PipelineError>(error),
                None => if !stopped && self.completed != self.scheduler@.total {
                    &&& result matches Err(error)
                    &&& error.kind == ErrorKind::InvalidOutput
                    &&& error.stage is None
                    &&& error.messages@.len() == 1
                    &&& error.messages@[0]@ == "pipeline scheduler stopped after "@ + decimal(
                        self.completed as nat,
                    ) + " of "@ + decimal(self.scheduler@.total) + " work items"@
                } else {
                    result == Ok::<Report, PipelineError>(
                        self.outcome(
                            if stopped {
                                RunStatus::Stopped
                            } else {
                                RunStatus::Completed
                            },
                        ),
                    )
                },
            },
    {
        let total: usize = self.scheduler.total();
        if self.failure.is_none() && !stopped && self.completed != total {
            let mut message = "pipeline scheduler stopped after ".to_owned();
            let done = from_size(self.completed);
            message.append(done.as_str());
            message.append(" of ");
            let all = from_size(total);
            message.append(all.as_str());
            message.append(" work items");
            let mut messages: Vec<String> = Vec::new();
            messages.push(message);
            return Err(PipelineError::new(ErrorKind::InvalidOutput, None, messages));
        }
        let report = self.report(
            if stopped {
                RunStatus::Stopped
            } else {
                RunStatus::Completed
            },
        );
        match self.failure {
            Some(error) => Err(error),
            None => Ok(report),
        }
    }

    /// What the run came to.
    pub open spec fn outcome(self, status: RunStatus) -> Report {
        Report {
            status,
            base: self.base.revision,
            final_revision: self.scene.revision,
            completed: self.completed,
            total: self.scheduler@.total as usize,
        }
    }

    /// What the run came to.
    pub fn report(&self, status: RunStatus) -> (result: Report)
        ensures
            result == self.outcome(status),
    {
        Report {
            status,
            base: self.base.revision,
            final_revision: self.scene.revision,
            completed: self.completed,
            total: self.scheduler.total(),
        }
    }

    /// The run is in step, and counts its finished work.
    pub open spec fn counts(&self) -> bool {
        &&& self.scheduler@.well_formed()
        &&& self.scheduler@.in_step()
        &&& self.completed == self.scheduler@.finished_items()
        &&& self.scheduler@.total == self.scheduler@.items()
    }
}

fn holds_page(pages: &[EntityId], page: EntityId) -> (result: bool)
    ensures
        result == pages@.contains(page),
{
    let mut index: usize = 0;
    while index < pages.len()
        invariant
            index <= pages.len(),
            forall|i: int| 0 <= i < index ==> pages@[i] != page,
        decreases pages.len() - index,
    {
        if pages[index] == page {
            return true;
        }
        index += 1;
    }
    false
}

fn holds_stage(stages: &[Stage], stage: Stage) -> (result: bool)
    ensures
        result == stages@.contains(stage),
{
    let mut index: usize = 0;
    while index < stages.len()
        invariant
            index <= stages.len(),
            forall|i: int| 0 <= i < index ==> stages@[i] != stage,
        decreases stages.len() - index,
    {
        if stages[index] == stage {
            return true;
        }
        index += 1;
    }
    false
}

/// A run that was just started counts its finished work: none.
pub proof fn law_a_new_run_counts(
    run: Execution,
    pages: Seq<EntityId>,
    stages: Seq<Stage>,
    project_scope: bool,
)
    requires
        pages.no_duplicates(),
        stages.no_duplicates(),
        run.scheduler@ == initial_plan(pages, stages, project_scope),
        run.completed == 0,
        crate::scheduler::work_items(pages.len(), stages, project_scope) <= usize::MAX,
    ensures
        run.counts(),
{
    law_initial(pages, stages, project_scope);
}

/// A run goes on counting its finished work when it takes the result of work that it handed out.
pub proof fn law_a_run_keeps_counting(
    before: Execution,
    after: Execution,
    target: StageTarget,
    stage: Stage,
    forget: Option<EntityId>,
)
    requires
        before.counts(),
        after.scheduler@.well_formed(),
        marks(before, after, target, stage, forget),
        match target {
            StageTarget::Chapter => before.scheduler@.chapter == Some(WorkState::Running) && stage
                == Stage::Translation,
            StageTarget::Page(page) => exists|p: int| #[trigger]
                before.scheduler@.is_page(p, page) && before.scheduler@.running(p, stage),
        },
    ensures
        after.counts(),
{
    match target {
        StageTarget::Chapter => {
            law_chapter_finishes_item(before.scheduler@);
        },
        StageTarget::Page(page) => {
            let p = choose|p: int| #[trigger]
                before.scheduler@.is_page(p, page) && before.scheduler@.running(p, stage);
            law_complete_keeps_step(before.scheduler@, after.scheduler@, p, stage);
        },
    }
}

/// A run in which nothing is under way and nothing can start has done all of its work, so that it
/// ends as completed where it was not stopped and has not failed.
pub proof fn law_a_run_ends_complete(run: Execution)
    requires
        run.counts(),
        run.scheduler@.idle(),
        !run.scheduler@.chapter_startable(Set::empty()),
        forall|p: int, i: int| !#[trigger] run.scheduler@.startable(Set::empty(), p, i),
    ensures
        run.completed == run.scheduler@.total,
        run.scheduler@.finished(),
{
    if !run.scheduler@.finished() {
        law_never_stalls(run.scheduler@);
    }
    law_finished_items(run.scheduler@);
}

/// A state follows another exactly if it is of the same project and a later one.
pub proof fn law_states_follow_each_other(previous: SceneMark, next: SceneMark)
    ensures
        commit_problem(previous, next) is None <==> previous.project == next.project
            && previous.revision < next.revision,
{
}

/// A failure is passed over only where lettering was to be removed from one page of a whole project.
/// The first failure of a run is the one that is told.
pub proof fn law_failures_end_a_run(
    target: StageTarget,
    stage: Stage,
    project_scope: bool,
    first: PipelineError,
    second: PipelineError,
)
    ensures
        passes_over(target, stage, project_scope) ==> stage == Stage::Inpainting
            && target != StageTarget::Chapter && project_scope,
        !project_scope ==> !passes_over(target, stage, project_scope),
        with_failure(None, first) == Some(first),
        with_failure(with_failure(None, first), second) == Some(first),
{
}

/// A mask can be used exactly if its page is worked on and lettering is removed.
pub proof fn law_masks_belong_to_a_page_of_the_run(
    page: EntityId,
    pages: Seq<EntityId>,
    stages: Seq<Stage>,
)
    ensures
        stray_mask(Some(page), pages, stages) <==> !pages.contains(page) || !stages.contains(
            Stage::Inpainting,
        ),
        !stray_mask(None, pages, stages),
{
}

} // verus!
