//! What holds of a schedule over all the calls of a run.

use vstd::prelude::*;

use crate::counting::count;
use crate::scheduler::{
    initial_plan, law_complete_keeps_step, law_initial, law_start_keeps_step,
    lemma_completed_well_formed, lemma_filter_distinct, page_stages, Plan, StageWork, WorkState,
};
use crate::stage::{EntityId, Stage, StageTarget};

verus! {

/// A call to a schedule, and what came of it.
pub enum Call {
    /// The next work is started, where these stages are busy.
    Start { busy: Set<Stage>, result: Option<(StageTarget, Stage)> },
    /// A stage is finished on its target, which may finish a page.
    Complete { target: StageTarget, stage: Stage, result: bool },
}

impl Call {
    /// The call leads from one plan to the next.
    pub open spec fn leads(self, plan: Plan, next: Plan) -> bool {
        match self {
            Call::Start { busy, result } => plan.starts(busy, result, next),
            Call::Complete { target, stage, result } => plan.completes(
                target,
                stage,
                result,
                next,
            ),
        }
    }

    /// The call hands out this work.
    pub open spec fn hands_out(self, target: StageTarget, stage: Stage) -> bool {
        self matches Call::Start { result, .. } && result == Some((target, stage))
    }

    /// The call finishes this work.
    pub open spec fn finishes(self, target: StageTarget, stage: Stage) -> bool {
        self matches Call::Complete { target: place, stage: done, .. } && place == target && done
            == stage
    }
}

/// A run: what was asked for, the calls, and the plans between them.
pub struct Run {
    pub pages: Seq<EntityId>,
    pub stages: Seq<Stage>,
    pub project_scope: bool,
    pub calls: Seq<Call>,
    pub plans: Seq<Plan>,
}

impl Run {
    /// No page and no stage is asked for twice, and each call leads from the plan before it to the
    /// plan behind it, from a new schedule on.
    pub open spec fn valid(self) -> bool {
        &&& self.pages.no_duplicates()
        &&& self.stages.no_duplicates()
        &&& self.plans.len() == self.calls.len() + 1
        &&& self.plans[0] == initial_plan(self.pages, self.stages, self.project_scope)
        &&& forall|k: int|
            0 <= k < self.calls.len() ==> (#[trigger] self.calls[k]).leads(
                self.plans[k],
                self.plans[k + 1],
            )
    }

    /// One of the first calls handed out this work.
    pub open spec fn handed_out(self, end: int, target: StageTarget, stage: Stage) -> bool {
        exists|k: int| 0 <= k < end && #[trigger] self.calls[k].hands_out(target, stage)
    }

    /// One of the first calls finished this work.
    pub open spec fn finished(self, end: int, target: StageTarget, stage: Stage) -> bool {
        exists|k: int| 0 <= k < end && #[trigger] self.calls[k].finishes(target, stage)
    }

    /// Only work that was handed out before is finished.
    pub open spec fn orderly(self) -> bool {
        forall|k: int, target: StageTarget, stage: Stage|
            0 <= k < self.calls.len() && #[trigger] self.calls[k].finishes(target, stage)
                ==> self.handed_out(k, target, stage)
    }

    /// After the first calls, work on a page was handed out.
    pub open spec fn page_begun(self, end: int, p: int) -> bool {
        exists|stage: Stage| #[trigger]
            self.handed_out(end, StageTarget::Page(self.pages[p]), stage)
    }

    /// After the first calls, every stage of a page was finished.
    pub open spec fn page_done(self, end: int, p: int) -> bool {
        forall|stage: Stage|
            self.stages.contains(stage) ==> #[trigger] self.finished(
                end,
                StageTarget::Page(self.pages[p]),
                stage,
            )
    }

    /// For each page, whether it is begun and not done after the first calls.
    pub open spec fn under_way(self, end: int) -> Seq<bool> {
        Seq::new(self.pages.len(), |p: int| self.page_begun(end, p) && !self.page_done(end, p))
    }

    /// After the first calls, the stages before a stage, as far as they are asked for and run on
    /// pages, were finished on every page.
    pub open spec fn pages_past(self, end: int, stage: Stage) -> bool {
        forall|p: int, earlier: Stage|
            0 <= p < self.pages.len() && self.own().contains(earlier) && earlier.order()
                < stage.order() ==> #[trigger] self.finished(
                end,
                StageTarget::Page(self.pages[p]),
                earlier,
            )
    }

    /// The stages that run on each page.
    pub open spec fn own(self) -> Seq<Stage> {
        page_stages(self.stages, self.project_scope)
    }

    /// The plan is one for the pages and stages that were asked for.
    spec fn suits(self, plan: Plan) -> bool {
        &&& plan.pages.len() == self.pages.len()
        &&& plan.project_scope == self.project_scope
        &&& plan.chapter is Some == (self.project_scope && self.stages.contains(
            Stage::Translation,
        ))
        &&& plan.page_window == if self.own().len() > 0 {
            self.own().len()
        } else {
            1
        }
        &&& forall|p: int|
            0 <= p < plan.pages.len() ==> (#[trigger] plan.pages[p]).page == self.pages[p]
                && plan.pages[p].stages.len() == self.own().len()
        &&& forall|p: int, i: int|
            0 <= p < plan.pages.len() && 0 <= i < self.own().len() ==> (
            #[trigger] plan.pages[p].stages[i]).stage == self.own()[i]
    }

    /// The state of a piece of work after the first calls.
    spec fn state(self, end: int, p: int, i: int) -> WorkState {
        self.plans[end].pages[p].stages[i].state
    }

    /// The run has this work.
    spec fn has(self, p: int, i: int) -> bool {
        0 <= p < self.pages.len() && 0 <= i < self.own().len()
    }
}

proof fn lemma_own(run: Run)
    requires
        run.stages.no_duplicates(),
    ensures
        run.own().no_duplicates(),
        forall|i: int| 0 <= i < run.own().len() ==> run.stages.contains(#[trigger] run.own()[i]),
        forall|stage: Stage|
            run.own().contains(stage) <==> run.stages.contains(stage) && !(run.project_scope
                && stage == Stage::Translation),
        !run.project_scope ==> run.own().len() == run.stages.len(),
        run.own().len() <= run.stages.len(),
{
    let keep = |stage: Stage| !(run.project_scope && stage == Stage::Translation);
    lemma_filter_distinct(run.stages, keep);
    lemma_filter_holds(run.stages, keep);
    assert forall|stage: Stage|
        run.own().contains(stage) <==> run.stages.contains(stage) && !(run.project_scope && stage
            == Stage::Translation) by {
        assert(run.own().contains(stage) <==> run.stages.contains(stage) && keep(stage));
    }
}

proof fn lemma_filter_holds(stages: Seq<Stage>, keep: spec_fn(Stage) -> bool)
    ensures
        forall|stage: Stage| #[trigger]
            stages.filter(keep).contains(stage) <==> stages.contains(stage) && keep(stage),
        stages.filter(keep).len() <= stages.len(),
        (forall|stage: Stage| #[trigger] keep(stage)) ==> stages.filter(keep).len()
            == stages.len(),
    decreases stages.len(),
{
    reveal(Seq::filter);
    if stages.len() > 0 {
        let rest = stages.drop_last();
        let last = stages.last();
        lemma_filter_holds(rest, keep);
        assert forall|stage: Stage| #[trigger]
            stages.filter(keep).contains(stage) <==> stages.contains(stage) && keep(stage) by {
            assert(stages =~= rest.push(last));
            assert(stages.contains(stage) <==> rest.contains(stage) || stage == last) by {
                if stages.contains(stage) {
                    let i = choose|i: int| 0 <= i < stages.len() && stages[i] == stage;
                    if i < rest.len() {
                        assert(rest[i] == stage);
                    }
                }
                if rest.contains(stage) {
                    let i = choose|i: int| 0 <= i < rest.len() && rest[i] == stage;
                    assert(stages[i] == stage);
                }
                assert(stages[stages.len() - 1] == last);
            }
            if keep(last) {
                let kept = rest.filter(keep);
                let longer = kept.push(last);
                assert(stages.filter(keep) == longer);
                if kept.contains(stage) {
                    let i = choose|i: int| 0 <= i < kept.len() && kept[i] == stage;
                    assert(longer[i] == stage);
                }
                if longer.contains(stage) {
                    let i = choose|i: int| 0 <= i < longer.len() && longer[i] == stage;
                    if i < kept.len() {
                        assert(kept[i] == stage);
                    }
                }
                assert(longer[kept.len() as int] == last);
            }
        }
    } else {
        assert(stages.filter(keep) =~= stages);
    }
}

/// The work that a call hands out on a page.
proof fn lemma_handed(run: Run, k: int, page: EntityId, stage: Stage) -> (work: (int, int))
    requires
        run.valid(),
        0 <= k < run.calls.len(),
        run.suits(run.plans[k]),
        run.calls[k].hands_out(StageTarget::Page(page), stage),
    ensures
        run.has(work.0, work.1),
        run.pages[work.0] == page,
        run.own()[work.1] == stage,
        run.calls[k] matches Call::Start { busy, .. } && run.plans[k].chosen(busy, work.0, work.1),
        run.plans[k + 1] == run.plans[k].begun(work.0, work.1),
{
    let plan = run.plans[k];
    assert(run.calls[k].leads(plan, run.plans[k + 1]));
    let busy = run.calls[k]->busy;
    let (p, i) = choose|p: int, i: int| #[trigger]
        plan.chosen(busy, p, i) && page == plan.pages[p].page && stage
            == plan.pages[p].stages[i].stage && run.plans[k + 1] == plan.begun(p, i);
    assert(plan.startable(busy, p, i));
    assert(plan.pages[p].page == run.pages[p]);
    assert(plan.pages[p].stages[i].stage == run.own()[i]);
    (p, i)
}

/// One call: the plan still suits the run, work goes from pending to running only where it is
/// handed out, and becomes finished where and only where it is finished.
proof fn lemma_call(run: Run, k: int)
    requires
        run.valid(),
        0 <= k < run.calls.len(),
        run.suits(run.plans[k]),
    ensures
        run.suits(run.plans[k + 1]),
        forall|p: int, i: int| #[trigger]
            run.has(p, i) ==> {
                let work = (StageTarget::Page(run.pages[p]), run.own()[i]);
                let (before, after) = (run.state(k, p, i), run.state(k + 1, p, i));
                &&& run.calls[k].hands_out(work.0, work.1) ==> before == WorkState::Pending
                    && after == WorkState::Running
                &&& run.calls[k].finishes(work.0, work.1) ==> after == WorkState::Finished
                &&& after == before || run.calls[k].hands_out(work.0, work.1)
                    || run.calls[k].finishes(work.0, work.1)
            },
        ({
            let (before, after) = (run.plans[k].chapter, run.plans[k + 1].chapter);
            let call = run.calls[k];
            &&& call.hands_out(StageTarget::Chapter, Stage::Translation) ==> before == Some(
                WorkState::Pending,
            ) && after == Some(WorkState::Running)
            &&& call.finishes(StageTarget::Chapter, Stage::Translation) && before is Some
                ==> after == Some(WorkState::Finished)
            &&& after == before || call.hands_out(StageTarget::Chapter, Stage::Translation)
                || call.finishes(StageTarget::Chapter, Stage::Translation)
        }),
{
    let (plan, next, call) = (run.plans[k], run.plans[k + 1], run.calls[k]);
    lemma_own(run);
    assert(call.leads(plan, next));
    match call {
        Call::Start { busy, result } => match result {
            Some((StageTarget::Page(page), stage)) => {
                let (p, i) = lemma_handed(run, k, page, stage);
                assert(plan.startable(busy, p, i));
                assert forall|q: int, j: int| #[trigger] run.has(q, j) implies ({
                    let work = (StageTarget::Page(run.pages[q]), run.own()[j]);
                    let (before, after) = (run.state(k, q, j), run.state(k + 1, q, j));
                    &&& call.hands_out(work.0, work.1) ==> before == WorkState::Pending && after
                        == WorkState::Running
                    &&& after == before || call.hands_out(work.0, work.1)
                }) by {
                    assert(plan.pages[q].page == run.pages[q]);
                }
                assert forall|q: int| 0 <= q < next.pages.len() implies (
                #[trigger] next.pages[q]).page == run.pages[q] && next.pages[q].stages.len()
                    == run.own().len() by {
                    assert(plan.pages[q].page == run.pages[q]);
                }
                assert forall|q: int, j: int|
                    0 <= q < next.pages.len() && 0 <= j < run.own().len() implies (
                #[trigger] next.pages[q].stages[j]).stage == run.own()[j] by {
                    assert(plan.pages[q].stages[j].stage == run.own()[j]);
                }
            },
            _ => {
                assert(next.pages == plan.pages);
            },
        },
        Call::Complete { target, stage, .. } => match target {
            StageTarget::Chapter => {
                assert(next.pages == plan.pages);
            },
            StageTarget::Page(page) => {
                if exists|p: int| #[trigger] plan.is_page(p, page) {
                    let p = choose|p: int| #[trigger] plan.is_page(p, page);
                    assert(plan.page_completed(next, p, stage));
                    assert(plan.pages[p].page == run.pages[p]);
                    assert forall|q: int| 0 <= q < next.pages.len() implies (
                    #[trigger] next.pages[q]).page == run.pages[q] && next.pages[q].stages.len()
                        == run.own().len() by {
                        assert(plan.pages[q].page == run.pages[q]);
                    }
                    assert forall|q: int, j: int|
                        0 <= q < next.pages.len() && 0 <= j < run.own().len() implies (
                    #[trigger] next.pages[q].stages[j]).stage == run.own()[j] by {
                        assert(plan.pages[q].stages[j].stage == run.own()[j]);
                    }
                    assert forall|q: int, j: int| #[trigger] run.has(q, j) implies ({
                        let work = (StageTarget::Page(run.pages[q]), run.own()[j]);
                        let (before, after) = (run.state(k, q, j), run.state(k + 1, q, j));
                        &&& call.finishes(work.0, work.1) ==> after == WorkState::Finished
                        &&& after == before || call.finishes(work.0, work.1)
                    }) by {
                        assert(plan.pages[q].page == run.pages[q]);
                        assert(plan.pages[q].stages[j].stage == run.own()[j]);
                        if run.own()[j] == stage {
                            lemma_first(run, plan, q, j);
                        }
                    }
                } else {
                    assert(next == plan);
                    assert forall|q: int, j: int| #[trigger] run.has(q, j) implies !call.finishes(
                        StageTarget::Page(run.pages[q]),
                        run.own()[j],
                    ) by {
                        if run.pages[q] == page {
                            assert(plan.pages[q].page == page);
                            assert forall|r: int| q < r < plan.pages.len() implies (
                            #[trigger] plan.pages[r]).page != page by {
                                assert(plan.pages[r].page == run.pages[r]);
                            }
                            assert(plan.is_page(q, page));
                        }
                    }
                }
            },
        },
    }
}

/// Each stage has its one place on a page.
proof fn lemma_first(run: Run, plan: Plan, p: int, i: int)
    requires
        run.suits(plan),
        run.own().no_duplicates(),
        run.has(p, i),
    ensures
        plan.pages[p].is_first(i, run.own()[i]),
{
    assert(plan.pages[p].stages[i].stage == run.own()[i]);
    assert forall|j: int| 0 <= j < i implies (#[trigger] plan.pages[p].stages[j]).stage
        != run.own()[i] by {
        assert(plan.pages[p].stages[j].stage == run.own()[j]);
    }
}

/// Every plan of a run suits it.
proof fn lemma_suits(run: Run, k: int)
    requires
        run.valid(),
        0 <= k <= run.calls.len(),
    ensures
        run.suits(run.plans[k]),
    decreases k,
{
    if k > 0 {
        lemma_suits(run, k - 1);
        lemma_call(run, k - 1);
    }
}

/// Work that has begun stays so, and work that is finished stays finished.
proof fn lemma_stays(run: Run, from: int, to: int)
    requires
        run.valid(),
        0 <= from <= to <= run.calls.len(),
    ensures
        forall|p: int, i: int| #[trigger]
            run.has(p, i) ==> {
                &&& run.state(from, p, i) != WorkState::Pending ==> run.state(to, p, i)
                    != WorkState::Pending
                &&& run.state(from, p, i) == WorkState::Finished ==> run.state(to, p, i)
                    == WorkState::Finished
            },
        run.plans[from].chapter is Some && run.plans[from].chapter != Some(WorkState::Pending)
            ==> run.plans[to].chapter is Some && run.plans[to].chapter != Some(WorkState::Pending),
    decreases to,
{
    if from < to {
        lemma_stays(run, from, to - 1);
        lemma_suits(run, to - 1);
        lemma_call(run, to - 1);
        assert forall|p: int, i: int| #[trigger] run.has(p, i) implies ({
            &&& run.state(from, p, i) != WorkState::Pending ==> run.state(to, p, i)
                != WorkState::Pending
            &&& run.state(from, p, i) == WorkState::Finished ==> run.state(to, p, i)
                == WorkState::Finished
        }) by {}
    }
}

/// Work has begun where and only where it was handed out or finished, and is finished where and
/// only where it was finished.
proof fn lemma_history(run: Run, end: int, p: int, i: int)
    requires
        run.valid(),
        0 <= end <= run.calls.len(),
        run.has(p, i),
    ensures
        ({
            let (target, stage) = (StageTarget::Page(run.pages[p]), run.own()[i]);
            &&& run.state(end, p, i) == WorkState::Finished <==> run.finished(end, target, stage)
            &&& run.state(end, p, i) != WorkState::Pending <==> run.handed_out(end, target, stage)
                || run.finished(end, target, stage)
        }),
    decreases end,
{
    let (target, stage) = (StageTarget::Page(run.pages[p]), run.own()[i]);
    if end > 0 {
        let k = end - 1;
        lemma_history(run, k, p, i);
        lemma_suits(run, k);
        lemma_call(run, k);
        lemma_stays(run, k, end);
        assert(run.has(p, i));
        lemma_longer(run, k, target, stage);
    } else {
        assert(run.plans[0].pages[p].stages[i].state == WorkState::Pending);
    }
}

/// What was handed out or finished by one call more.
proof fn lemma_longer(run: Run, k: int, target: StageTarget, stage: Stage)
    requires
        0 <= k < run.calls.len(),
    ensures
        run.handed_out(k + 1, target, stage) <==> run.handed_out(k, target, stage)
            || run.calls[k].hands_out(target, stage),
        run.finished(k + 1, target, stage) <==> run.finished(k, target, stage)
            || run.calls[k].finishes(target, stage),
{
    if run.handed_out(k + 1, target, stage) {
        let at = choose|at: int|
            0 <= at < k + 1 && #[trigger] run.calls[at].hands_out(target, stage);
        assert(at == k || at < k);
    }
    if run.finished(k + 1, target, stage) {
        let at = choose|at: int|
            0 <= at < k + 1 && #[trigger] run.calls[at].finishes(target, stage);
        assert(at == k || at < k);
    }
}

/// The same of the translation of the chapter.
proof fn lemma_chapter_history(run: Run, end: int)
    requires
        run.valid(),
        0 <= end <= run.calls.len(),
        run.plans[0].chapter is Some,
    ensures
        ({
            let (target, stage) = (StageTarget::Chapter, Stage::Translation);
            &&& run.plans[end].chapter is Some
            &&& run.plans[end].chapter == Some(WorkState::Finished) <==> run.finished(
                end,
                target,
                stage,
            )
            &&& run.plans[end].chapter != Some(WorkState::Pending) <==> run.handed_out(
                end,
                target,
                stage,
            ) || run.finished(end, target, stage)
        }),
    decreases end,
{
    let (target, stage) = (StageTarget::Chapter, Stage::Translation);
    if end > 0 {
        let k = end - 1;
        lemma_chapter_history(run, k);
        lemma_suits(run, k);
        lemma_call(run, k);
        lemma_longer(run, k, target, stage);
    } else {
        assert(run.plans[0].chapter == Some(WorkState::Pending));
    }
}

/// Whatever calls came before, a call hands out only work that was asked for, whose stage is not
/// busy, and that was neither handed out nor finished before. Outside project scope what it needs
/// on its page, as far as that is asked for, was finished before.
pub proof fn law_work_is_handed_out_once(run: Run, k: int, target: StageTarget, stage: Stage)
    requires
        run.valid(),
        0 <= k < run.calls.len(),
        run.calls[k].hands_out(target, stage),
    ensures
        run.stages.contains(stage),
        run.calls[k] matches Call::Start { busy, .. } && !busy.contains(stage),
        target matches StageTarget::Page(page) ==> run.pages.contains(page),
        !run.handed_out(k, target, stage),
        !run.finished(k, target, stage),
        !run.project_scope ==> (stage.required() matches Some(needed) ==> run.stages.contains(
            needed,
        ) ==> run.finished(k, target, needed)),
{
    let plan = run.plans[k];
    lemma_suits(run, k);
    lemma_own(run);
    assert(run.calls[k].leads(plan, run.plans[k + 1]));
    match target {
        StageTarget::Chapter => {
            lemma_suits(run, 0);
            lemma_chapter_history(run, k);
        },
        StageTarget::Page(page) => {
            let (p, i) = lemma_handed(run, k, page, stage);
            let busy = run.calls[k]->busy;
            assert(plan.startable(busy, p, i));
            assert(plan.pages[p].stages[i].stage == stage);
            lemma_history(run, k, p, i);
            if !run.project_scope {
                if let Some(needed) = stage.required() {
                    if run.stages.contains(needed) {
                        assert(run.own().contains(needed));
                        let j = choose|j: int|
                            0 <= j < run.own().len() && run.own()[j] == needed;
                        lemma_first(run, plan, p, j);
                        assert(plan.pages[p].ready(i));
                        assert(run.state(k, p, j) == WorkState::Finished);
                        lemma_history(run, k, p, j);
                    }
                }
            }
        },
    }
}

/// In an orderly run every plan is well formed and in step.
proof fn lemma_in_step(run: Run, k: int)
    requires
        run.valid(),
        run.orderly(),
        0 <= k <= run.calls.len(),
    ensures
        run.plans[k].well_formed(),
        run.plans[k].in_step(),
    decreases k,
{
    if k == 0 {
        law_initial(run.pages, run.stages, run.project_scope);
    } else {
        let (plan, next, call) = (run.plans[k - 1], run.plans[k], run.calls[k - 1]);
        lemma_in_step(run, k - 1);
        lemma_suits(run, k - 1);
        lemma_own(run);
        assert(call.leads(plan, next));
        match call {
            Call::Start { busy, result } => match result {
                Some((StageTarget::Page(page), stage)) => {
                    let (p, i) = lemma_handed(run, k - 1, page, stage);
                    law_start_keeps_step(plan, busy, p, i);
                },
                _ => {
                    lemma_chapter_in_step(plan, next);
                },
            },
            Call::Complete { target, stage, .. } => match target {
                StageTarget::Chapter => {
                    lemma_chapter_in_step(plan, next);
                },
                StageTarget::Page(page) => {
                    assert(call.finishes(target, stage));
                    let at = choose|at: int|
                        0 <= at < k - 1 && #[trigger] run.calls[at].hands_out(target, stage);
                    lemma_suits(run, at);
                    let (p, i) = lemma_handed(run, at, page, stage);
                    lemma_history(run, k - 1, p, i);
                    lemma_finish_in_step(run, plan, next, p, i);
                },
            },
        }
    }
}

/// What happens to the chapter leaves a schedule in step.
proof fn lemma_chapter_in_step(plan: Plan, next: Plan)
    requires
        plan.well_formed(),
        plan.in_step(),
        next == (Plan { chapter: next.chapter, ..plan }),
        plan.project_scope || next.chapter == plan.chapter,
    ensures
        next.well_formed(),
        next.in_step(),
{
    assert(next.started_flags() == plan.started_flags());
    assert(next.active_flags() == plan.active_flags());
}

/// Finishing work that was begun, once or again, leaves a schedule in step.
proof fn lemma_finish_in_step(run: Run, plan: Plan, next: Plan, p: int, i: int)
    requires
        run.pages.no_duplicates(),
        run.own().no_duplicates(),
        run.suits(plan),
        run.has(p, i),
        plan.well_formed(),
        plan.in_step(),
        plan.pages[p].stages[i].state != WorkState::Pending,
        exists|result: bool| #[trigger]
            plan.completes(StageTarget::Page(run.pages[p]), run.own()[i], result, next),
    ensures
        next.well_formed(),
        next.in_step(),
{
    let (page, stage) = (run.pages[p], run.own()[i]);
    assert(plan.is_page(p, page)) by {
        assert(plan.pages[p].page == page);
        assert forall|q: int| p < q < plan.pages.len() implies (#[trigger] plan.pages[q]).page
            != page by {
            assert(plan.pages[q].page == run.pages[q]);
        }
    }
    assert(plan.page_completed(next, p, stage));
    assert(plan.pages[p].stages[i].stage == stage);
    lemma_completed_well_formed(plan, p, stage);
    let marked = Plan { pages: plan.pages.update(p, plan.pages[p].completed(stage)), ..plan };
    assert(next.started_flags() == marked.started_flags());
    assert(next.well_formed()) by {
        assert forall|q: int| 0 <= q < next.head implies (#[trigger] next.pages[q]).finished() by {
            if q < plan.head {
                assert(marked.pages[q].finished());
            }
        }
    }
    if plan.pages[p].stages[i].state == WorkState::Running {
        assert(plan.pages[p].stages[i] == (StageWork { stage, state: WorkState::Running }));
        assert(plan.running(p, stage));
        law_complete_keeps_step(plan, next, p, stage);
    } else {
        lemma_first(run, plan, p, i);
        let before = plan.pages[p];
        assert forall|j: int| 0 <= j < before.stages.len() implies before.stages[j]
            == before.completed(stage).stages[j] by {
            if before.is_first(j, stage) {
                if i < j {
                    assert(before.stages[i].stage != stage);
                }
                if j < i {
                    assert(before.stages[j].stage != stage);
                }
            }
        }
        assert(before.completed(stage).stages =~= before.stages);
        assert(before.completed(stage) =~= before);
        assert(next.pages =~= plan.pages);
        assert(next =~= plan);
    }
}

/// In an orderly run outside project scope the plan has a page under way exactly where its calls
/// say so.
proof fn lemma_under_way(run: Run, k: int)
    requires
        run.valid(),
        run.orderly(),
        !run.project_scope,
        0 <= k <= run.calls.len(),
    ensures
        run.plans[k].pages.len() == run.pages.len(),
        forall|p: int|
            0 <= p < run.pages.len() ==> (#[trigger] run.plans[k].pages[p]).started()
                == run.page_begun(k, p),
        run.plans[k].active_flags() == run.under_way(k),
{
    let plan = run.plans[k];
    lemma_suits(run, k);
    lemma_own(run);
    assert forall|p: int| 0 <= p < run.pages.len() implies (#[trigger] plan.pages[p]).started()
        == run.page_begun(k, p) && plan.pages[p].finished() == run.page_done(k, p) by {
        let target = StageTarget::Page(run.pages[p]);
        let work = plan.pages[p];
        assert(work.stages.len() == run.own().len());
        if work.started() {
            let i = choose|i: int|
                0 <= i < work.stages.len() && (#[trigger] work.stages[i]).state
                    != WorkState::Pending;
            assert(run.has(p, i));
            lemma_history(run, k, p, i);
            lemma_orderly(run, k, target, run.own()[i]);
            assert(run.handed_out(k, target, run.own()[i]));
        }
        if run.page_begun(k, p) {
            let stage = choose|stage: Stage| #[trigger] run.handed_out(k, target, stage);
            let at = choose|at: int|
                0 <= at < k && #[trigger] run.calls[at].hands_out(target, stage);
            lemma_suits(run, at);
            let (q, i) = lemma_handed(run, at, run.pages[p], stage);
            assert(q == p);
            lemma_history(run, k, p, i);
            assert(work.stages[i].state != WorkState::Pending);
        }
        if work.finished() {
            assert forall|stage: Stage| run.stages.contains(stage) implies #[trigger] run.finished(
                k,
                target,
                stage,
            ) by {
                assert(run.own().contains(stage));
                let i = choose|i: int| 0 <= i < run.own().len() && run.own()[i] == stage;
                assert(work.stages[i].state == WorkState::Finished);
                lemma_history(run, k, p, i);
            }
        }
        if run.page_done(k, p) {
            assert forall|i: int| 0 <= i < work.stages.len() implies (
            #[trigger] work.stages[i]).state == WorkState::Finished by {
                assert(run.stages.contains(run.own()[i]));
                assert(run.finished(k, target, run.own()[i]));
                lemma_history(run, k, p, i);
            }
        }
    }
    assert(plan.active_flags() =~= run.under_way(k));
}

/// In an orderly run what was finished was handed out.
proof fn lemma_orderly(run: Run, end: int, target: StageTarget, stage: Stage)
    requires
        run.orderly(),
        0 <= end <= run.calls.len(),
        run.handed_out(end, target, stage) || run.finished(end, target, stage),
    ensures
        run.handed_out(end, target, stage),
{
    if run.finished(end, target, stage) {
        let k = choose|k: int| 0 <= k < end && #[trigger] run.calls[k].finishes(target, stage);
        assert(run.handed_out(k, target, stage));
        let at = choose|at: int| 0 <= at < k && #[trigger] run.calls[at].hands_out(target, stage);
        assert(at < end);
    }
}

/// Outside project scope, where only work that was handed out is finished: after every call at
/// most as many pages are begun and not done as there are stages, or one where there are none;
/// pages begin in their order; and a call that hands out nothing changes nothing.
pub proof fn law_pages_pass_through_a_window(run: Run, k: int)
    requires
        run.valid(),
        run.orderly(),
        !run.project_scope,
        0 <= k <= run.calls.len(),
    ensures
        count(run.under_way(k)) <= if run.stages.len() > 0 {
            run.stages.len()
        } else {
            1
        },
        forall|p: int, q: int|
            0 <= p < q < run.pages.len() && #[trigger] run.page_begun(k, q)
                ==> #[trigger] run.page_begun(k, p),
        k < run.calls.len() ==> (run.calls[k] matches Call::Start { result, .. } ==> result is None
            ==> run.plans[k + 1] == run.plans[k]),
{
    lemma_suits(run, k);
    lemma_own(run);
    lemma_in_step(run, k);
    lemma_under_way(run, k);
    assert forall|p: int, q: int|
        0 <= p < q < run.pages.len() && #[trigger] run.page_begun(k, q) implies #[trigger] run.page_begun(
        k,
        p,
    ) by {
        assert(run.plans[k].pages[q].started());
        assert(run.plans[k].pages[p].started());
    }
    if k < run.calls.len() {
        assert(run.calls[k].leads(run.plans[k], run.plans[k + 1]));
    }
}

/// In project scope no page is ever given the translation. The chapter is given it at most once,
/// only where it is asked for, and only after every earlier stage that is asked for was finished
/// on every page. A page is painted only after those and, where a translation is asked for, after
/// that of the chapter was finished.
pub proof fn law_project_goes_stage_by_stage(run: Run, k: int, target: StageTarget, stage: Stage)
    requires
        run.valid(),
        run.project_scope,
        0 <= k < run.calls.len(),
        run.calls[k].hands_out(target, stage),
    ensures
        target is Page ==> stage != Stage::Translation,
        target is Chapter ==> {
            &&& stage == Stage::Translation
            &&& run.stages.contains(Stage::Translation)
            &&& !run.handed_out(k, target, stage)
            &&& run.pages_past(k, Stage::Translation)
        },
        target is Page ==> run.pages_past(k, stage),
        target is Page && stage == Stage::Inpainting && run.stages.contains(Stage::Translation)
            ==> run.finished(k, StageTarget::Chapter, Stage::Translation),
{
    let plan = run.plans[k];
    lemma_suits(run, k);
    lemma_suits(run, 0);
    lemma_own(run);
    law_work_is_handed_out_once(run, k, target, stage);
    assert(run.calls[k].leads(plan, run.plans[k + 1]));
    match target {
        StageTarget::Chapter => {
            lemma_past(run, k, Stage::Translation);
        },
        StageTarget::Page(page) => {
            let (p, i) = lemma_handed(run, k, page, stage);
            let busy = run.calls[k]->busy;
            assert(plan.startable(busy, p, i));
            assert(plan.pages[p].stages[i].stage == stage);
            assert(run.own().contains(stage));
            lemma_past(run, k, stage);
            if stage == Stage::Inpainting && run.stages.contains(Stage::Translation) {
                lemma_chapter_history(run, k);
            }
        },
    }
}

proof fn lemma_past(run: Run, k: int, stage: Stage)
    requires
        run.valid(),
        0 <= k <= run.calls.len(),
        run.plans[k].earlier_finished(stage),
    ensures
        run.pages_past(k, stage),
{
    lemma_suits(run, k);
    assert forall|p: int, earlier: Stage|
        0 <= p < run.pages.len() && run.own().contains(earlier) && earlier.order()
            < stage.order() implies #[trigger] run.finished(
        k,
        StageTarget::Page(run.pages[p]),
        earlier,
    ) by {
        let i = choose|i: int| 0 <= i < run.own().len() && run.own()[i] == earlier;
        assert(run.plans[k].pages[p].stages[i].stage == earlier);
        lemma_history(run, k, p, i);
    }
}

} // verus!
