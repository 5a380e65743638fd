//! Decides which stage of which page starts next.
//!
//! Outside project scope every page passes through its stages on its own, and a
//! sliding window bounds how many pages are under way at once. In project scope
//! one stage is finished on every page before the next one starts, and the
//! translation runs once for the whole chapter.

use vstd::prelude::*;

use crate::counting::{
    count, lemma_count_at_most, lemma_count_update, lemma_count_zero, lemma_sum_constant,
    lemma_sum_update, sum,
};
use crate::page_index::PageIndex;
use crate::stage::{prerequisite, EntityId, Stage, StageSet, StageTarget};

verus! {

/// How far one piece of work has come.
#[derive(Clone, Copy, Debug, PartialEq, Eq, Structural)]
pub enum WorkState {
    Pending,
    Running,
    Finished,
}

/// One stage and how far it has come.
#[derive(Clone, Copy, Debug, PartialEq, Eq, Structural)]
pub struct StageWork {
    pub stage: Stage,
    pub state: WorkState,
}

/// The work on one page.
struct PageWork {
    page: EntityId,
    stages: Vec<StageWork>,
}

/// The work on one page, as a mathematical value.
#[verifier::ext_equal]
pub struct PagePlan {
    pub page: EntityId,
    pub stages: Seq<StageWork>,
}

impl PagePlan {
    /// Some stage of the page has been started.
    pub open spec fn started(self) -> bool {
        exists|i: int|
            0 <= i < self.stages.len() && (#[trigger] self.stages[i]).state != WorkState::Pending
    }

    /// Every stage of the page is finished.
    pub open spec fn finished(self) -> bool {
        forall|i: int|
            0 <= i < self.stages.len() ==> (#[trigger] self.stages[i]).state == WorkState::Finished
    }

    /// The work at `index` is the first of its page for `stage`.
    pub open spec fn is_first(self, index: int, stage: Stage) -> bool {
        &&& 0 <= index < self.stages.len()
        &&& self.stages[index].stage == stage
        &&& forall|j: int| 0 <= j < index ==> (#[trigger] self.stages[j]).stage != stage
    }

    /// What the stage at `index` needs on its own page is finished, as far as it is asked for.
    pub open spec fn ready(self, index: int) -> bool {
        self.stages[index].stage.required() matches Some(needed) ==> forall|i: int| #[trigger]
            self.is_first(i, needed) ==> self.stages[i].state == WorkState::Finished
    }

    /// The page with the work at `index` in the given state.
    pub open spec fn with_state(self, index: int, state: WorkState) -> PagePlan {
        PagePlan {
            stages: self.stages.update(
                index,
                (StageWork { stage: self.stages[index].stage, state }),
            ),
            ..self
        }
    }

    /// The page once the first work for `stage` is finished.
    pub open spec fn completed(self, stage: Stage) -> PagePlan {
        PagePlan {
            stages: Seq::new(
                self.stages.len(),
                |i: int|
                    if self.is_first(i, stage) {
                        (StageWork { stage, state: WorkState::Finished })
                    } else {
                        self.stages[i]
                    },
            ),
            ..self
        }
    }

    /// The page has started but is not finished.
    pub open spec fn active(self) -> bool {
        self.started() && !self.finished()
    }

    pub open spec fn finished_flags(self) -> Seq<bool> {
        self.stages.map_values(|work: StageWork| work.state == WorkState::Finished)
    }

    /// How many stages of the page are finished.
    pub open spec fn finished_count(self) -> nat {
        count(self.finished_flags())
    }
}

impl View for PageWork {
    type V = PagePlan;

    closed spec fn view(&self) -> PagePlan {
        PagePlan { page: self.page, stages: self.stages@ }
    }
}

impl PageWork {
    fn started(&self) -> (result: bool)
        ensures
            result == self@.started(),
    {
        let mut index: usize = 0;
        while index < self.stages.len()
            invariant
                index <= self.stages.len(),
                forall|j: int| 0 <= j < index ==> self.stages@[j].state == WorkState::Pending,
            decreases self.stages.len() - index,
        {
            if self.stages[index].state != WorkState::Pending {
                assert(self@.stages[index as int].state != WorkState::Pending);
                return true;
            }
            index += 1;
        }
        false
    }

    fn finished(&self) -> (result: bool)
        ensures
            result == self@.finished(),
    {
        let mut index: usize = 0;
        while index < self.stages.len()
            invariant
                index <= self.stages.len(),
                forall|j: int| 0 <= j < index ==> self.stages@[j].state == WorkState::Finished,
            decreases self.stages.len() - index,
        {
            if self.stages[index].state != WorkState::Finished {
                assert(self@.stages[index as int].state != WorkState::Finished);
                return false;
            }
            index += 1;
        }
        true
    }

    /// The first work for a stage, if the page has one.
    fn position(&self, stage: Stage) -> (result: Option<usize>)
        ensures
            match result {
                Some(index) => self@.is_first(index as int, stage),
                None => forall|i: int| !self@.is_first(i, stage),
            },
    {
        let mut index: usize = 0;
        while index < self.stages.len()
            invariant
                index <= self.stages.len(),
                forall|j: int| 0 <= j < index ==> self.stages@[j].stage != stage,
            decreases self.stages.len() - index,
        {
            if self.stages[index].stage == stage {
                return Some(index);
            }
            index += 1;
        }
        None
    }

    fn ready(&self, index: usize) -> (result: bool)
        requires
            index < self@.stages.len(),
        ensures
            result == self@.ready(index as int),
    {
        let Some(needed) = prerequisite(self.stages[index].stage) else {
            return true;
        };
        match self.position(needed) {
            Some(position) => {
                let done = self.stages[position].state == WorkState::Finished;
                proof {
                    assert forall|i: int| #[trigger] self@.is_first(i, needed) implies i
                        == position by {
                        if i < position {
                            assert(self@.stages[i].stage != needed);
                        }
                        if position < i {
                            assert(self@.stages[position as int].stage != needed);
                        }
                    }
                }
                done
            },
            None => true,
        }
    }

    fn set_state(&mut self, index: usize, state: WorkState)
        requires
            index < old(self)@.stages.len(),
        ensures
            final(self)@ == old(self)@.with_state(index as int, state),
    {
        let stage = self.stages[index].stage;
        self.stages.set(index, StageWork { stage, state });
    }

    fn complete(&mut self, stage: Stage)
        ensures
            final(self)@ =~= old(self)@.completed(stage),
    {
        if let Some(index) = self.position(stage) {
            proof {
                assert forall|i: int| #[trigger] self@.is_first(i, stage) implies i == index by {
                    if i < index {
                        assert(self@.stages[i].stage != stage);
                    }
                    if index < i {
                        assert(self@.stages[index as int].stage != stage);
                    }
                }
            }
            self.set_state(index, WorkState::Finished);
        }
        assert(self@.stages =~= old(self)@.completed(stage).stages);
    }
}

/// The state of a schedule, as a mathematical value.
#[verifier::ext_equal]
pub struct Plan {
    pub pages: Seq<PagePlan>,
    pub chapter: Option<WorkState>,
    pub project_scope: bool,
    pub page_window: nat,
    pub active_pages: nat,
    pub head: nat,
    pub total: nat,
}

impl Plan {
    /// Every stage before `stage` is finished on every page.
    pub open spec fn earlier_finished(self, stage: Stage) -> bool {
        forall|p: int, i: int|
            0 <= p < self.pages.len() && 0 <= i < self.pages[p].stages.len() ==> (
            #[trigger] self.pages[p].stages[i]).stage.order() < stage.order()
                ==> self.pages[p].stages[i].state == WorkState::Finished
    }

    /// The chapter's translation can start: everything before it is finished.
    pub open spec fn chapter_startable(self, busy: Set<Stage>) -> bool {
        &&& self.project_scope
        &&& self.chapter == Some(WorkState::Pending)
        &&& self.earlier_finished(Stage::Translation)
        &&& !busy.contains(Stage::Translation)
    }

    /// In project scope, a stage may run on a page: every earlier stage is finished
    /// on every page, and nothing is painted before the chapter is translated.
    pub open spec fn page_stage_open(self, stage: Stage) -> bool {
        &&& stage == Stage::Inpainting && self.chapter is Some ==> self.chapter == Some(
            WorkState::Finished,
        )
        &&& self.earlier_finished(stage)
    }

    /// A page may take on work: it has started, or there is room in the window and
    /// it is not behind another page that could not start.
    pub open spec fn page_open(self, p: int) -> bool {
        self.active_pages < self.page_window || forall|q: int|
            self.head <= q <= p ==> (#[trigger] self.pages[q]).started()
    }

    /// The work at `i` on page `p` is pending, its stage is idle, and what it needs is finished.
    pub open spec fn free(self, busy: Set<Stage>, p: int, i: int) -> bool {
        &&& self.pages[p].stages[i].state == WorkState::Pending
        &&& !busy.contains(self.pages[p].stages[i].stage)
        &&& if self.project_scope {
            self.page_stage_open(self.pages[p].stages[i].stage)
        } else {
            self.pages[p].ready(i)
        }
    }

    /// The work at `i` on page `p` can start.
    pub open spec fn startable(self, busy: Set<Stage>, p: int, i: int) -> bool {
        &&& 0 <= p < self.pages.len()
        &&& 0 <= i < self.pages[p].stages.len()
        &&& self.free(busy, p, i)
        &&& self.project_scope || self.page_open(p)
    }

    /// The work at `i` on page `p` is the first that can start, in the order of the
    /// pages and, on one page, of its stages.
    pub open spec fn chosen(self, busy: Set<Stage>, p: int, i: int) -> bool {
        &&& self.startable(busy, p, i)
        &&& forall|q: int, j: int|
            q < p || (q == p && j < i) ==> !#[trigger] self.startable(busy, q, j)
    }

    /// The schedule once the work at `i` on page `p` has been started.
    pub open spec fn begun(self, p: int, i: int) -> Plan {
        Plan {
            pages: self.pages.update(p, self.pages[p].with_state(i, WorkState::Running)),
            active_pages: if !self.project_scope && !self.pages[p].started() {
                self.active_pages + 1
            } else {
                self.active_pages
            },
            ..self
        }
    }

    /// `p` is the last page with the identifier `page`.
    pub open spec fn is_page(self, p: int, page: EntityId) -> bool {
        &&& 0 <= p < self.pages.len()
        &&& self.pages[p].page == page
        &&& forall|q: int| p < q < self.pages.len() ==> (#[trigger] self.pages[q]).page != page
    }

    /// Finishing `stage` on page `p` finishes the page.
    pub open spec fn finishes_page(self, p: int, stage: Stage) -> bool {
        !self.pages[p].finished() && self.pages[p].completed(stage).finished()
    }

    /// The schedule once the chapter's translation is finished.
    pub open spec fn chapter_completed(self, stage: Stage) -> Plan {
        if self.chapter is Some && stage == Stage::Translation {
            Plan { chapter: Some(WorkState::Finished), ..self }
        } else {
            self
        }
    }

    /// How `next` follows when `stage` is finished on page `p`: the page's work is
    /// marked, a page that is finished by it leaves the window, and the head moves to
    /// the first page that is not finished.
    pub open spec fn page_completed(self, next: Plan, p: int, stage: Stage) -> bool {
        &&& next.pages == self.pages.update(p, self.pages[p].completed(stage))
        &&& next.chapter == self.chapter
        &&& next.project_scope == self.project_scope
        &&& next.page_window == self.page_window
        &&& next.total == self.total
        &&& if self.finishes_page(p, stage) {
            &&& next.active_pages == if self.active_pages > 0 {
                (self.active_pages - 1) as nat
            } else {
                0
            }
            &&& self.head <= next.head <= next.pages.len()
            &&& forall|q: int| self.head <= q < next.head ==> (#[trigger] next.pages[q]).finished()
            &&& next.head < next.pages.len() ==> !next.pages[next.head as int].finished()
        } else {
            next.active_pages == self.active_pages && next.head == self.head
        }
    }

    /// How `next` follows when the next work is started: that of the chapter where it can start,
    /// else the first that can. Where none can, nothing changes.
    pub open spec fn starts(
        self,
        busy: Set<Stage>,
        result: Option<(StageTarget, Stage)>,
        next: Plan,
    ) -> bool {
        match result {
            Some((StageTarget::Chapter, stage)) => {
                &&& stage == Stage::Translation
                &&& self.chapter_startable(busy)
                &&& next == (Plan { chapter: Some(WorkState::Running), ..self })
            },
            Some((StageTarget::Page(page), stage)) => {
                &&& !self.chapter_startable(busy)
                &&& exists|p: int, i: int| #[trigger]
                    self.chosen(busy, p, i) && page == self.pages[p].page && stage
                        == self.pages[p].stages[i].stage && next == self.begun(p, i)
            },
            None => {
                &&& !self.chapter_startable(busy)
                &&& forall|p: int, i: int| !#[trigger] self.startable(busy, p, i)
                &&& next == self
            },
        }
    }

    /// How `next` follows when `stage` is finished on its target, and whether that finishes the
    /// page.
    pub open spec fn completes(
        self,
        target: StageTarget,
        stage: Stage,
        result: bool,
        next: Plan,
    ) -> bool {
        match target {
            StageTarget::Chapter => !result && next == self.chapter_completed(stage),
            StageTarget::Page(page) => {
                &&& (forall|p: int| !#[trigger] self.is_page(p, page)) ==> !result && next == self
                &&& forall|p: int| #[trigger]
                    self.is_page(p, page) ==> result == self.finishes_page(p, stage)
                        && self.page_completed(next, p, stage)
            },
        }
    }

    pub open spec fn started_flags(self) -> Seq<bool> {
        self.pages.map_values(|page: PagePlan| page.started())
    }

    /// The pages are scheduled for the same stages, and the pages before the head are finished.
    pub open spec fn well_formed(self) -> bool {
        &&& self.head <= self.pages.len()
        &&& forall|p: int| 0 <= p < self.head ==> (#[trigger] self.pages[p]).finished()
        &&& self.active_pages <= count(self.started_flags())
        &&& self.page_window >= 1
        &&& !self.project_scope ==> self.chapter is None
        &&& forall|p: int, q: int|
            0 <= p < self.pages.len() && 0 <= q < self.pages.len()
                ==> (#[trigger] self.pages[p]).stages.len() == (
            #[trigger] self.pages[q]).stages.len()
        &&& forall|p: int, q: int, i: int|
            0 <= p < self.pages.len() && 0 <= q < self.pages.len() && 0 <= i
                < self.pages[p].stages.len() ==> (#[trigger] self.pages[p].stages[i]).stage == (
            #[trigger] self.pages[q].stages[i]).stage
    }
}

/// The schedule of a run.
pub struct Scheduler {
    pages: Vec<PageWork>,
    page_index: PageIndex,
    page_window: usize,
    active_pages: usize,
    head: usize,
    chapter: Option<WorkState>,
    project_scope: bool,
    total: usize,
}

impl View for Scheduler {
    type V = Plan;

    closed spec fn view(&self) -> Plan {
        Plan {
            pages: self.pages@.map_values(|page: PageWork| page@),
            chapter: self.chapter,
            project_scope: self.project_scope,
            page_window: self.page_window as nat,
            active_pages: self.active_pages as nat,
            head: self.head as nat,
            total: self.total as nat,
        }
    }
}

/// The stages that run on each page.
pub open spec fn page_stages(stages: Seq<Stage>, project_scope: bool) -> Seq<Stage> {
    stages.filter(|stage: Stage| !(project_scope && stage == Stage::Translation))
}

pub open spec fn pending(stages: Seq<Stage>) -> Seq<StageWork> {
    stages.map_values(|stage: Stage| (StageWork { stage, state: WorkState::Pending }))
}

/// The number of work items of a schedule.
pub open spec fn work_items(pages: nat, stages: Seq<Stage>, project_scope: bool) -> nat {
    pages * page_stages(stages, project_scope).len() + (if project_scope && stages.contains(
        Stage::Translation,
    ) {
        1nat
    } else {
        0
    })
}

/// The schedule at the start of a run.
pub open spec fn initial_plan(
    pages: Seq<EntityId>,
    stages: Seq<Stage>,
    project_scope: bool,
) -> Plan {
    let own = page_stages(stages, project_scope);
    let items = work_items(pages.len(), stages, project_scope);
    Plan {
        pages: pages.map_values(|page: EntityId| (PagePlan { page, stages: pending(own) })),
        chapter: if project_scope && stages.contains(Stage::Translation) {
            Some(WorkState::Pending)
        } else {
            None
        },
        project_scope,
        page_window: if own.len() > 0 {
            own.len()
        } else {
            1
        },
        active_pages: 0,
        head: 0,
        total: if items <= usize::MAX {
            items
        } else {
            usize::MAX as nat
        },
    }
}

impl Scheduler {
    pub closed spec fn indexed(&self) -> bool {
        &&& forall|p: int|
            0 <= p < self.pages.len() ==> self.page_index@.contains_key(
                (#[trigger] self.pages@[p]).page,
            )
        &&& forall|key: EntityId| #[trigger]
            self.page_index@.contains_key(key) ==> {
                &&& self.page_index@[key] < self.pages.len()
                &&& self.pages@[self.page_index@[key] as int].page == key
                &&& forall|q: int|
                    self.page_index@[key] < q < self.pages.len() ==> (
                    #[trigger] self.pages@[q]).page != key
            }
    }

    /// The schedule is consistent.
    pub open spec fn well_formed(&self) -> bool {
        self@.well_formed() && self.indexed()
    }

    /// A schedule of `stages` for `pages`, with nothing started.
    pub fn new(pages: &[EntityId], stages: &[Stage], project_scope: bool) -> (result: Scheduler)
        ensures
            result.well_formed(),
            result@ == initial_plan(pages@, stages@, project_scope),
    {
        let ghost keep = |stage: Stage| !(project_scope && stage == Stage::Translation);
        let mut own: Vec<Stage> = Vec::new();
        let mut translation = false;
        let mut index: usize = 0;
        while index < stages.len()
            invariant
                index <= stages.len(),
                keep == (|stage: Stage| !(project_scope && stage == Stage::Translation)),
                own@ == stages@.take(index as int).filter(keep),
                translation == stages@.take(index as int).contains(Stage::Translation),
            decreases stages.len() - index,
        {
            let stage = stages[index];
            proof {
                let next = stages@.take(index as int + 1);
                assert(next.drop_last() =~= stages@.take(index as int));
                reveal(Seq::filter);
                assert(next =~= stages@.take(index as int).push(stage));
                if stage == Stage::Translation {
                    assert(next[index as int] == Stage::Translation);
                }
                if stages@.take(index as int).contains(Stage::Translation) {
                    let at = choose|at: int| 0 <= at < index && stages@.take(index as int)[at] == Stage::Translation;
                    assert(next[at] == Stage::Translation);
                }
            }
            if stage == Stage::Translation {
                translation = true;
            }
            if !(project_scope && stage == Stage::Translation) {
                own.push(stage);
            }
            index += 1;
        }
        proof {
            assert(stages@.take(index as int) =~= stages@);
        }
        let mut work: Vec<PageWork> = Vec::new();
        let mut page_index = PageIndex::new();
        let mut p: usize = 0;
        while p < pages.len()
            invariant
                p <= pages.len(),
                work.len() == p,
                forall|q: int|
                    0 <= q < p ==> (#[trigger] work@[q])@ =~= (PagePlan {
                        page: pages@[q],
                        stages: pending(own@),
                    }),
                forall|q: int| 0 <= q < p ==> page_index@.contains_key((#[trigger] work@[q]).page),
                forall|key: EntityId| #[trigger]
                    page_index@.contains_key(key) ==> {
                        &&& page_index@[key] < p
                        &&& work@[page_index@[key] as int].page == key
                        &&& forall|q: int| page_index@[key] < q < p ==> (#[trigger] work@[q]).page != key
                    },
            decreases pages.len() - p,
        {
            let mut list: Vec<StageWork> = Vec::new();
            let mut i: usize = 0;
            while i < own.len()
                invariant
                    i <= own.len(),
                    list@ == pending(own@).take(i as int),
                decreases own.len() - i,
            {
                list.push(StageWork { stage: own[i], state: WorkState::Pending });
                i += 1;
                proof {
                    assert(pending(own@).take(i as int) =~= pending(own@).take(i - 1).push(
                        pending(own@)[i - 1],
                    ));
                }
            }
            proof {
                assert(pending(own@).take(own.len() as int) =~= pending(own@));
            }
            page_index.insert(pages[p], p);
            work.push(PageWork { page: pages[p], stages: list });
            p += 1;
        }
        let total: usize = match pages.len().checked_mul(own.len()) {
            Some(items) => items.saturating_add(if project_scope && translation {
                1
            } else {
                0
            }),
            None => usize::MAX,
        };
        let page_window: usize = if own.len() > 0 {
            own.len()
        } else {
            1
        };
        let result = Scheduler {
            pages: work,
            page_index,
            page_window,
            active_pages: 0,
            head: 0,
            chapter: if project_scope && translation {
                Some(WorkState::Pending)
            } else {
                None
            },
            project_scope,
            total,
        };
        proof {
            assert(result@.pages =~= initial_plan(pages@, stages@, project_scope).pages);
        }
        result
    }

    /// The number of work items of the run.
    pub fn total(&self) -> (result: usize)
        ensures
            result == self@.total,
    {
        self.total
    }

    pub fn project_scope(&self) -> (result: bool)
        ensures
            result == self@.project_scope,
    {
        self.project_scope
    }

    /// Tests whether every stage before `stage` is finished on every page.
    fn earlier_finished(&self, stage: Stage) -> (result: bool)
        ensures
            result == self@.earlier_finished(stage),
    {
        let mut p: usize = 0;
        while p < self.pages.len()
            invariant
                p <= self.pages.len(),
                forall|q: int, i: int|
                    0 <= q < p && 0 <= i < self@.pages[q].stages.len() ==> (
                    #[trigger] self@.pages[q].stages[i]).stage.order() < stage.order()
                        ==> self@.pages[q].stages[i].state == WorkState::Finished,
            decreases self.pages.len() - p,
        {
            let page = &self.pages[p];
            assert(page@ == self@.pages[p as int]);
            let mut i: usize = 0;
            while i < page.stages.len()
                invariant
                    i <= page.stages.len(),
                    p < self.pages.len(),
                    page@ == self@.pages[p as int],
                    forall|j: int|
                        0 <= j < i ==> (#[trigger] page@.stages[j]).stage.order() < stage.order()
                            ==> page@.stages[j].state == WorkState::Finished,
                decreases page.stages.len() - i,
            {
                let work = page.stages[i];
                if work.stage.rank() < stage.rank() && work.state != WorkState::Finished {
                    assert(self@.pages[p as int].stages[i as int] == work);
                    return false;
                }
                i += 1;
            }
            p += 1;
        }
        true
    }

    fn chapter_ready(&self) -> (result: bool)
        ensures
            result == self@.earlier_finished(Stage::Translation),
    {
        self.earlier_finished(Stage::Translation)
    }

    fn page_stage_ready(&self, stage: Stage) -> (result: bool)
        ensures
            result == self@.page_stage_open(stage),
    {
        if stage == Stage::Inpainting {
            if let Some(state) = self.chapter {
                if state != WorkState::Finished {
                    return false;
                }
            }
        }
        self.earlier_finished(stage)
    }

    /// The first work of a page that is pending and free to run as far as the page,
    /// or in project scope all pages together, decide.
    fn find_work(&self, p: usize, busy: &StageSet) -> (result: Option<usize>)
        requires
            p < self@.pages.len(),
        ensures
            match result {
                Some(index) => {
                    &&& index < self@.pages[p as int].stages.len()
                    &&& self@.free(busy@, p as int, index as int)
                    &&& forall|j: int| 0 <= j < index ==> !#[trigger] self@.free(busy@, p as int, j)
                },
                None => forall|j: int|
                    0 <= j < self@.pages[p as int].stages.len() ==> !#[trigger] self@.free(
                        busy@,
                        p as int,
                        j,
                    ),
            },
    {
        let page = &self.pages[p];
        assert(page@ == self@.pages[p as int]);
        let mut index: usize = 0;
        while index < page.stages.len()
            invariant
                index <= page.stages.len(),
                page@ == self@.pages[p as int],
                forall|j: int| 0 <= j < index ==> !#[trigger] self@.free(busy@, p as int, j),
            decreases page.stages.len() - index,
        {
            let work = page.stages[index];
            if work.state == WorkState::Pending && !busy.contains(work.stage) {
                let open = if self.project_scope {
                    self.page_stage_ready(work.stage)
                } else {
                    page.ready(index)
                };
                if open {
                    assert(self@.free(busy@, p as int, index as int));
                    return Some(index);
                }
            }
            assert(!self@.free(busy@, p as int, index as int));
            index += 1;
        }
        None
    }

    /// Starts the work at `index` on page `p`.
    fn begin(&mut self, p: usize, index: usize) -> (result: (StageTarget, Stage))
        requires
            old(self).well_formed(),
            p < old(self)@.pages.len(),
            index < old(self)@.pages[p as int].stages.len(),
            old(self)@.pages[p as int].stages[index as int].state == WorkState::Pending,
        ensures
            final(self).well_formed(),
            final(self)@ == old(self)@.begun(p as int, index as int),
            result.0 == StageTarget::Page(old(self)@.pages[p as int].page),
            result.1 == old(self)@.pages[p as int].stages[index as int].stage,
    {
        proof {
            lemma_begun_well_formed(self@, p as int, index as int);
            lemma_count_at_most(self@.started_flags());
            lemma_count_at_most(self@.begun(p as int, index as int).started_flags());
        }
        assert(self.pages@[p as int]@ == self@.pages[p as int]);
        if !self.project_scope && !self.pages[p].started() {
            self.active_pages = self.active_pages + 1;
        }
        let page = self.pages[p].page;
        let stage = self.pages[p].stages[index].stage;
        self.pages[p].set_state(index, WorkState::Running);
        proof {
            assert(self@.pages =~= old(self)@.begun(p as int, index as int).pages);
            assert forall|q: int| 0 <= q < self.pages.len() implies (
            #[trigger] self.pages@[q]).page == old(self).pages@[q].page by {
                assert(self@.pages[q].page == old(self)@.pages[q].page);
            }
            assert(self.indexed());
        }
        (StageTarget::Page(page), stage)
    }

    /// Starts the next work that is free to run, and says which.
    pub fn start_next(&mut self, busy_stages: &StageSet) -> (result: Option<(StageTarget, Stage)>)
        requires
            old(self).well_formed(),
        ensures
            final(self).well_formed(),
            old(self)@.starts(busy_stages@, result, final(self)@),
    {
        if self.project_scope {
            return self.start_next_project(busy_stages);
        }
        let ghost plan = self@;
        let mut p: usize = self.head;
        while p < self.pages.len()
            invariant_except_break
                forall|q: int| plan.head <= q < p && plan.active_pages >= plan.page_window ==> (
                #[trigger] plan.pages[q]).started(),
            invariant
                self.well_formed(),
                *self == *old(self),
                plan == self@,
                !plan.project_scope,
                plan.head <= p <= plan.pages.len(),
                forall|q: int, j: int| q < p ==> !#[trigger] plan.startable(busy_stages@, q, j),
            ensures
                forall|q: int, j: int| !#[trigger] plan.startable(busy_stages@, q, j),
            decreases self.pages.len() - p,
        {
            assert(self.pages@[p as int]@ == plan.pages[p as int]);
            let started = self.pages[p].started();
            if !started && self.active_pages >= self.page_window {
                assert forall|q: int, j: int| !#[trigger] plan.startable(busy_stages@, q, j) by {
                    if q >= p {
                        assert(!plan.pages[p as int].started());
                        assert(!plan.page_open(q));
                    }
                }
                break;
            }
            if let Some(index) = self.find_work(p, busy_stages) {
                proof {
                    assert(plan.page_open(p as int));
                    assert(plan.startable(busy_stages@, p as int, index as int));
                    assert(plan.chosen(busy_stages@, p as int, index as int));
                }
                return Some(self.begin(p, index));
            }
            p += 1;
        }
        None
    }

    fn start_next_project(&mut self, busy_stages: &StageSet) -> (result: Option<
        (StageTarget, Stage),
    >)
        requires
            old(self).well_formed(),
            old(self)@.project_scope,
        ensures
            final(self).well_formed(),
            old(self)@.starts(busy_stages@, result, final(self)@),
    {
        if self.chapter_ready() && !busy_stages.contains(Stage::Translation) {
            if let Some(state) = self.chapter {
                if state == WorkState::Pending {
                    self.chapter = Some(WorkState::Running);
                    assert(self@.started_flags() == old(self)@.started_flags());
                    return Some((StageTarget::Chapter, Stage::Translation));
                }
            }
        }
        let ghost plan = self@;
        let mut p: usize = 0;
        while p < self.pages.len()
            invariant
                self.well_formed(),
                *self == *old(self),
                plan == self@,
                plan.project_scope,
                p <= plan.pages.len(),
                !plan.chapter_startable(busy_stages@),
                forall|q: int, j: int| q < p ==> !#[trigger] plan.startable(busy_stages@, q, j),
            decreases self.pages.len() - p,
        {
            if let Some(index) = self.find_work(p, busy_stages) {
                proof {
                    assert(plan.startable(busy_stages@, p as int, index as int));
                    assert(plan.chosen(busy_stages@, p as int, index as int));
                }
                return Some(self.begin(p, index));
            }
            p += 1;
        }
        None
    }

    /// Marks `stage` as finished on its target; tells whether that finished the page.
    pub fn complete_stage(&mut self, target: StageTarget, stage: Stage) -> (result: bool)
        requires
            old(self).well_formed(),
        ensures
            final(self).well_formed(),
            old(self)@.completes(target, stage, result, final(self)@),
    {
        let StageTarget::Page(page) = target else {
            if let Some(_) = self.chapter {
                if stage == Stage::Translation {
                    self.chapter = Some(WorkState::Finished);
                }
            }
            assert(self@.started_flags() == old(self)@.started_flags());
            return false;
        };
        let ghost plan = self@;
        let Some(p) = self.page_index.get(page) else {
            proof {
                assert forall|p: int| !#[trigger] plan.is_page(p, page) by {
                    if plan.is_page(p, page) {
                        assert(self.pages@[p]@ == plan.pages[p]);
                    }
                }
            }
            return false;
        };
        proof {
            assert(self.pages@[p as int]@ == plan.pages[p as int]);
            assert forall|q: int| p < q < plan.pages.len() implies (
            #[trigger] plan.pages[q]).page != page by {
                assert(self.pages@[q]@ == plan.pages[q]);
            }
            assert(plan.is_page(p as int, page));
            assert forall|q: int| #[trigger] plan.is_page(q, page) implies q == p by {
                if q < p {
                    assert(plan.pages[p as int].page != page);
                }
            }
        }
        let was_finished = self.pages[p].finished();
        self.pages[p].complete(stage);
        let page_finished = !was_finished && self.pages[p].finished();
        proof {
            assert(self@.pages =~= plan.pages.update(
                p as int,
                plan.pages[p as int].completed(stage),
            ));
            assert forall|q: int| 0 <= q < self.pages.len() implies (
            #[trigger] self.pages@[q]).page == old(self).pages@[q].page by {
                assert(self@.pages[q].page == plan.pages[q].page);
            }
            assert(self.indexed());
            lemma_completed_well_formed(plan, p as int, stage);
        }
        let ghost pages = self@.pages;
        if page_finished {
            self.active_pages = if self.active_pages > 0 {
                self.active_pages - 1
            } else {
                0
            };
            let ghost frame = self@;
            assert(frame.pages == pages);
            assert(self.indexed());
            while self.head < self.pages.len() && self.pages[self.head].finished()
                invariant
                    plan.head <= self.head <= self.pages.len(),
                    self.indexed(),
                    self@ == (Plan { head: self.head as nat, ..frame }),
                    pages == self@.pages,
                    forall|q: int| plan.head <= q < self.head ==> (#[trigger] pages[q]).finished(),
                decreases self.pages.len() - self.head,
            {
                self.head = self.head + 1;
            }
        }
        page_finished
    }
}

/// Starting pending work keeps a schedule consistent.
proof fn lemma_begun_well_formed(plan: Plan, p: int, i: int)
    requires
        plan.well_formed(),
        0 <= p < plan.pages.len(),
        0 <= i < plan.pages[p].stages.len(),
        plan.pages[p].stages[i].state == WorkState::Pending,
    ensures
        plan.begun(p, i).well_formed(),
        count(plan.begun(p, i).started_flags()) == count(plan.started_flags()) + (
        if plan.pages[p].started() {
            0int
        } else {
            1
        }),
{
    let next = plan.begun(p, i);
    assert(next.pages[p].stages[i].state == WorkState::Running);
    assert(next.started_flags() =~= plan.started_flags().update(p, true));
    lemma_count_update(plan.started_flags(), p, true);
    assert forall|q: int| 0 <= q < next.head implies (#[trigger] next.pages[q]).finished() by {
        assert(plan.pages[q].finished());
    }
    assert(plan.started_flags()[p] == plan.pages[p].started());
}

/// Finishing a stage on a page keeps what a consistent schedule says of its pages.
pub proof fn lemma_completed_well_formed(plan: Plan, p: int, stage: Stage)
    requires
        plan.well_formed(),
        0 <= p < plan.pages.len(),
    ensures
        ({
            let next = Plan {
                pages: plan.pages.update(p, plan.pages[p].completed(stage)),
                ..plan
            };
            next.well_formed()
        }),
{
    let next = Plan { pages: plan.pages.update(p, plan.pages[p].completed(stage)), ..plan };
    let before = plan.pages[p];
    let after = next.pages[p];
    if before.started() {
        let i = choose|i: int|
            0 <= i < before.stages.len() && (#[trigger] before.stages[i]).state
                != WorkState::Pending;
        assert(after.stages[i].state != WorkState::Pending);
    }
    assert(next.started_flags() =~= plan.started_flags().update(p, after.started()));
    lemma_count_update(plan.started_flags(), p, after.started());
    assert(plan.started_flags()[p] == before.started());
    assert forall|q: int| 0 <= q < next.head implies (#[trigger] next.pages[q]).finished() by {
        assert(plan.pages[q].finished());
    }
}

impl Plan {
    pub open spec fn active_flags(self) -> Seq<bool> {
        self.pages.map_values(|page: PagePlan| page.active())
    }

    /// No page and, on a page, no stage is scheduled twice.
    pub open spec fn distinct(self) -> bool {
        &&& forall|p: int, q: int|
            0 <= p < q < self.pages.len() ==> (#[trigger] self.pages[p]).page != (
            #[trigger] self.pages[q]).page
        &&& forall|p: int, i: int, j: int|
            0 <= p < self.pages.len() && 0 <= i < j < self.pages[p].stages.len() ==> (
            #[trigger] self.pages[p].stages[i]).stage != (
            #[trigger] self.pages[p].stages[j]).stage
    }

    /// The window counts the pages under way, no more of them than it has room for,
    /// and pages start in their order.
    pub open spec fn in_step(self) -> bool {
        &&& self.distinct()
        &&& !self.project_scope ==> {
            &&& self.active_pages == count(self.active_flags())
            &&& self.active_pages <= self.page_window
            &&& forall|p: int, q: int|
                0 <= p < q < self.pages.len() && (#[trigger] self.pages[q]).started() ==> (
                #[trigger] self.pages[p]).started()
        }
    }

    /// The work for `stage` on page `p` is under way.
    pub open spec fn running(self, p: int, stage: Stage) -> bool {
        exists|i: int|
            0 <= i < self.pages[p].stages.len() && #[trigger] self.pages[p].stages[i] == (
            StageWork { stage, state: WorkState::Running })
    }

    /// No work is under way.
    pub open spec fn idle(self) -> bool {
        &&& self.chapter != Some(WorkState::Running)
        &&& forall|p: int, i: int|
            0 <= p < self.pages.len() && 0 <= i < self.pages[p].stages.len() ==> (
            #[trigger] self.pages[p].stages[i]).state != WorkState::Running
    }

    /// Every page and the chapter are finished.
    pub open spec fn finished(self) -> bool {
        &&& self.chapter is Some ==> self.chapter == Some(WorkState::Finished)
        &&& forall|p: int| 0 <= p < self.pages.len() ==> (#[trigger] self.pages[p]).finished()
    }

    /// The number of work items.
    pub open spec fn items(self) -> nat {
        sum(self.pages.map_values(|page: PagePlan| page.stages.len())) + (if self.chapter is Some {
            1nat
        } else {
            0
        })
    }

    /// The number of finished work items.
    pub open spec fn finished_items(self) -> nat {
        sum(self.pages.map_values(|page: PagePlan| page.finished_count())) + (if self.chapter
            == Some(WorkState::Finished) {
            1nat
        } else {
            0
        })
    }
}

/// A run starts in step, with nothing finished, and its total counts its work items.
pub proof fn law_initial(pages: Seq<EntityId>, stages: Seq<Stage>, project_scope: bool)
    requires
        pages.no_duplicates(),
        stages.no_duplicates(),
    ensures
        initial_plan(pages, stages, project_scope).well_formed(),
        initial_plan(pages, stages, project_scope).in_step(),
        initial_plan(pages, stages, project_scope).idle(),
        initial_plan(pages, stages, project_scope).finished_items() == 0,
        initial_plan(pages, stages, project_scope).items() == work_items(
            pages.len(),
            stages,
            project_scope,
        ),
{
    let plan = initial_plan(pages, stages, project_scope);
    let own = page_stages(stages, project_scope);
    lemma_filter_distinct(
        stages,
        |stage: Stage| !(project_scope && stage == Stage::Translation),
    );
    assert forall|p: int| 0 <= p < plan.pages.len() implies !(
    #[trigger] plan.pages[p]).started() by {}
    lemma_count_zero(plan.active_flags());
    lemma_count_at_most(plan.started_flags());
    let counts = plan.pages.map_values(|page: PagePlan| page.finished_count());
    assert forall|p: int| 0 <= p < counts.len() implies #[trigger] counts[p] == 0 by {
        lemma_count_zero(plan.pages[p].finished_flags());
    }
    lemma_sum_constant(counts, 0);
    assert(plan.pages.len() * 0 == 0);
    lemma_sum_constant(plan.pages.map_values(|page: PagePlan| page.stages.len()), own.len());
}

pub proof fn lemma_filter_distinct(stages: Seq<Stage>, keep: spec_fn(Stage) -> bool)
    requires
        stages.no_duplicates(),
    ensures
        stages.filter(keep).no_duplicates(),
        forall|i: int|
            0 <= i < stages.filter(keep).len() ==> stages.contains(
                #[trigger] stages.filter(keep)[i],
            ),
    decreases stages.len(),
{
    reveal(Seq::filter);
    if stages.len() > 0 {
        let rest = stages.drop_last();
        lemma_filter_distinct(rest, keep);
        assert forall|i: int| 0 <= i < stages.filter(keep).len() implies stages.contains(
            #[trigger] stages.filter(keep)[i],
        ) by {
            if i < rest.filter(keep).len() {
                assert(rest.contains(rest.filter(keep)[i]));
                let at = choose|at: int| 0 <= at < rest.len() && rest[at] == rest.filter(keep)[i];
                assert(stages[at] == rest.filter(keep)[i]);
            } else {
                assert(stages[stages.len() - 1] == stages.last());
            }
        }
        assert forall|i: int, j: int|
            0 <= i < j < stages.filter(keep).len() implies stages.filter(keep)[i] != stages.filter(
            keep,
        )[j] by {
            if j == rest.filter(keep).len() {
                assert(rest.contains(rest.filter(keep)[i]));
                let at = choose|at: int| 0 <= at < rest.len() && rest[at] == rest.filter(keep)[i];
                assert(stages[at] != stages.last());
            }
        }
    }
}

/// Starting the chosen work keeps a schedule in step, and finishes nothing.
pub proof fn law_start_keeps_step(plan: Plan, busy: Set<Stage>, p: int, i: int)
    requires
        plan.well_formed(),
        plan.in_step(),
        plan.chosen(busy, p, i),
    ensures
        plan.begun(p, i).well_formed(),
        plan.begun(p, i).in_step(),
        plan.begun(p, i).running(p, plan.pages[p].stages[i].stage),
        plan.begun(p, i).items() == plan.items(),
        plan.begun(p, i).finished_items() == plan.finished_items(),
{
    lemma_begun_well_formed(plan, p, i);
    let next = plan.begun(p, i);
    let page = plan.pages[p];
    assert(next.pages[p].stages[i].state == WorkState::Running);
    assert(next.pages[p].finished_flags() =~= page.finished_flags());
    assert(next.pages.map_values(|page: PagePlan| page.finished_count())
        =~= plan.pages.map_values(|page: PagePlan| page.finished_count()));
    assert(next.pages.map_values(|page: PagePlan| page.stages.len())
        =~= plan.pages.map_values(|page: PagePlan| page.stages.len()));
    assert(next.distinct()) by {
        assert forall|q: int, j: int, k: int|
            0 <= q < next.pages.len() && 0 <= j < k < next.pages[q].stages.len() implies (
        #[trigger] next.pages[q].stages[j]).stage != (
        #[trigger] next.pages[q].stages[k]).stage by {
            assert(plan.pages[q].stages[j].stage != plan.pages[q].stages[k].stage);
        }
        assert forall|q: int, r: int| 0 <= q < r < next.pages.len() implies (
        #[trigger] next.pages[q]).page != (#[trigger] next.pages[r]).page by {
            assert(plan.pages[q].page != plan.pages[r].page);
        }
    }
    if !plan.project_scope {
        assert(!page.finished());
        assert(!next.pages[p].finished());
        assert(next.pages[p].active());
        assert(next.active_flags() =~= plan.active_flags().update(p, true));
        lemma_count_update(plan.active_flags(), p, true);
        assert(plan.active_flags()[p] == page.active());
        if !page.started() {
            assert(p >= plan.head) by {
                if p < plan.head {
                    assert(plan.pages[p].finished());
                }
            }
            assert(plan.active_pages < plan.page_window);
            assert forall|q: int| 0 <= q < p implies (#[trigger] plan.pages[q]).started() by {
                if !plan.pages[q].started() {
                    lemma_unstarted_alike(plan, busy, q, p, i);
                    assert(plan.startable(busy, q, i));
                }
            }
        }
        assert forall|q: int, r: int|
            0 <= q < r < next.pages.len() && (#[trigger] next.pages[r]).started() implies (
        #[trigger] next.pages[q]).started() by {
            if q != p {
                if r == p {
                    if page.started() {
                        assert(plan.pages[q].started());
                    }
                } else {
                    assert(plan.pages[r].started());
                    assert(plan.pages[q].started());
                }
            }
        }
    }
}

/// Two pages on which nothing has started are free for the same work.
proof fn lemma_unstarted_alike(plan: Plan, busy: Set<Stage>, q: int, p: int, i: int)
    requires
        plan.well_formed(),
        0 <= q < plan.pages.len(),
        0 <= p < plan.pages.len(),
        0 <= i < plan.pages[p].stages.len(),
        !plan.pages[q].started(),
        !plan.pages[p].started(),
        plan.free(busy, p, i),
    ensures
        i < plan.pages[q].stages.len(),
        plan.free(busy, q, i),
{
    let left = plan.pages[q].stages;
    let right = plan.pages[p].stages;
    assert(left.len() == right.len());
    assert forall|j: int| 0 <= j < left.len() implies left[j] == right[j] by {
        assert(plan.pages[q].stages[j].stage == plan.pages[p].stages[j].stage);
        assert(left[j].state == WorkState::Pending);
        assert(right[j].state == WorkState::Pending);
    }
    assert(left =~= right);
    assert forall|k: int, stage: Stage| #[trigger]
        plan.pages[q].is_first(k, stage) implies plan.pages[p].is_first(k, stage) by {}
}

/// Finishing work that is under way keeps a schedule in step and finishes one item more.
pub proof fn law_complete_keeps_step(plan: Plan, next: Plan, p: int, stage: Stage)
    requires
        plan.well_formed(),
        plan.in_step(),
        0 <= p < plan.pages.len(),
        plan.running(p, stage),
        plan.page_completed(next, p, stage),
    ensures
        next.in_step(),
        next.items() == plan.items(),
        next.finished_items() == plan.finished_items() + 1,
{
    let page = plan.pages[p];
    let i = choose|i: int|
        0 <= i < page.stages.len() && #[trigger] page.stages[i] == (StageWork {
            stage,
            state: WorkState::Running,
        });
    let done = page.completed(stage);
    assert(page.is_first(i, stage)) by {
        assert forall|j: int| 0 <= j < i implies (#[trigger] page.stages[j]).stage != stage by {
            assert(plan.pages[p].stages[j].stage != plan.pages[p].stages[i].stage);
        }
    }
    assert forall|j: int| #[trigger] page.is_first(j, stage) implies j == i by {
        if i < j {
            assert(page.stages[i].stage != stage);
        }
        if j < i {
            assert(page.stages[j].stage != stage);
        }
    }
    assert(done.finished_flags() =~= page.finished_flags().update(i, true));
    lemma_count_update(page.finished_flags(), i, true);
    let counts = plan.pages.map_values(|page: PagePlan| page.finished_count());
    assert(next.pages.map_values(|page: PagePlan| page.finished_count()) =~= counts.update(
        p,
        done.finished_count(),
    ));
    lemma_sum_update(counts, p, done.finished_count());
    assert(next.pages.map_values(|page: PagePlan| page.stages.len())
        =~= plan.pages.map_values(|page: PagePlan| page.stages.len()));
    assert(next.distinct()) by {
        assert forall|q: int, j: int, k: int|
            0 <= q < next.pages.len() && 0 <= j < k < next.pages[q].stages.len() implies (
        #[trigger] next.pages[q].stages[j]).stage != (
        #[trigger] next.pages[q].stages[k]).stage by {
            assert(plan.pages[q].stages[j].stage != plan.pages[q].stages[k].stage);
        }
        assert forall|q: int, r: int| 0 <= q < r < next.pages.len() implies (
        #[trigger] next.pages[q]).page != (#[trigger] next.pages[r]).page by {
            assert(plan.pages[q].page != plan.pages[r].page);
        }
    }
    if !plan.project_scope {
        assert(page.started());
        assert(!page.finished());
        assert(done.stages[i].state == WorkState::Finished);
        assert(done.started());
        assert(next.active_flags() =~= plan.active_flags().update(p, !done.finished()));
        lemma_count_update(plan.active_flags(), p, !done.finished());
        assert(plan.active_flags()[p] == page.active());
        assert forall|q: int, r: int|
            0 <= q < r < next.pages.len() && (#[trigger] next.pages[r]).started() implies (
        #[trigger] next.pages[q]).started() by {
            assert(plan.pages[r].started());
            if q != p {
                assert(plan.pages[q].started());
            }
        }
    }
}

/// Finishing the chapter's translation finishes one item more.
pub proof fn law_chapter_finishes_item(plan: Plan)
    requires
        plan.chapter == Some(WorkState::Running),
    ensures
        plan.chapter_completed(Stage::Translation).items() == plan.items(),
        plan.chapter_completed(Stage::Translation).finished_items() == plan.finished_items() + 1,
{
}

/// As many items are finished as there are exactly where everything is finished.
pub proof fn law_finished_items(plan: Plan)
    ensures
        plan.finished_items() <= plan.items(),
        plan.finished_items() == plan.items() <==> plan.finished(),
{
    let counts = plan.pages.map_values(|page: PagePlan| page.finished_count());
    let lengths = plan.pages.map_values(|page: PagePlan| page.stages.len());
    assert forall|p: int| 0 <= p < plan.pages.len() implies counts[p] <= lengths[p] && (counts[p]
        == lengths[p] <==> plan.pages[p].finished()) by {
        lemma_finished_count(plan.pages[p]);
    }
    lemma_sum_dominated(counts, lengths);
    if plan.finished_items() == plan.items() {
        assert forall|p: int| 0 <= p < plan.pages.len() implies (
        #[trigger] plan.pages[p]).finished() by {
            assert(counts[p] == lengths[p]);
        }
    }
    if plan.finished() {
        assert forall|p: int| 0 <= p < plan.pages.len() implies counts[p] == lengths[p] by {
            assert(plan.pages[p].finished());
        }
        assert(counts =~= lengths);
    }
}

proof fn lemma_finished_count(page: PagePlan)
    ensures
        page.finished_count() <= page.stages.len(),
        page.finished_count() == page.stages.len() <==> page.finished(),
{
    let flags = page.finished_flags();
    lemma_count_at_most(flags);
    assert forall|i: int| 0 <= i < flags.len() implies flags[i] == (page.stages[i].state
        == WorkState::Finished) by {}
    if page.finished_count() == page.stages.len() {
        assert forall|i: int| 0 <= i < page.stages.len() implies (#[trigger] page.stages[i]).state
            == WorkState::Finished by {
            assert(flags[i]);
        }
    }
}

proof fn lemma_sum_dominated(lower: Seq<nat>, upper: Seq<nat>)
    requires
        lower.len() == upper.len(),
        forall|i: int| 0 <= i < lower.len() ==> lower[i] <= upper[i],
    ensures
        sum(lower) <= sum(upper),
        sum(lower) == sum(upper) ==> forall|i: int| 0 <= i < lower.len() ==> lower[i] == upper[i],
    decreases lower.len(),
{
    if lower.len() > 0 {
        lemma_sum_dominated(lower.drop_last(), upper.drop_last());
        if sum(lower) == sum(upper) {
            assert forall|i: int| 0 <= i < lower.len() implies lower[i] == upper[i] by {
                if i < lower.len() - 1 {
                    assert(lower.drop_last()[i] == upper.drop_last()[i]);
                }
            }
        }
    }
}

/// Where nothing is under way and not everything is finished, some work can start:
/// a run never stalls.
pub proof fn law_never_stalls(plan: Plan)
    requires
        plan.well_formed(),
        plan.in_step(),
        plan.idle(),
        !plan.finished(),
    ensures
        plan.chapter_startable(Set::empty()) || exists|p: int, i: int| #[trigger]
            plan.startable(Set::empty(), p, i),
{
    let none = Set::<Stage>::empty();
    if exists|p: int| 0 <= p < plan.pages.len() && !(#[trigger] plan.pages[p]).finished() {
        if plan.project_scope {
            let (p, i) = lemma_earliest_pending(plan);
            let stage = plan.pages[p].stages[i].stage;
            if plan.chapter == Some(WorkState::Pending) && stage.order()
                >= Stage::Translation.order() {
                assert(plan.chapter_startable(none));
            } else {
                if let Some(state) = plan.chapter {
                    assert(state == WorkState::Pending || state == WorkState::Finished);
                }
                assert(plan.page_stage_open(stage));
                assert(plan.free(none, p, i));
                assert(plan.startable(none, p, i));
            }
        } else {
            let p = lemma_first_unfinished(plan, plan.pages.len() as int);
            let i = lemma_ready_work(plan.pages[p]);
            if !plan.pages[p].started() {
                assert forall|q: int| 0 <= q < plan.pages.len() implies !plan.active_flags()[q] by {
                    if q < p {
                        assert(plan.pages[q].finished());
                    } else if q > p {
                        assert(!plan.pages[q].started());
                    }
                }
                lemma_count_zero(plan.active_flags());
                assert(plan.page_open(p));
            } else {
                assert forall|q: int| plan.head <= q <= p implies (
                #[trigger] plan.pages[q]).started() by {
                    if q < p {
                        assert(plan.pages[p].started());
                    }
                }
                assert(plan.page_open(p));
            }
            assert(plan.startable(none, p, i));
        }
    } else {
        assert(plan.chapter == Some(WorkState::Pending));
        assert forall|p: int, i: int|
            0 <= p < plan.pages.len() && 0 <= i < plan.pages[p].stages.len() implies (
        #[trigger] plan.pages[p].stages[i]).state == WorkState::Finished by {
            assert(plan.pages[p].finished());
        }
        assert(plan.chapter_startable(none));
    }
}

/// The first of the pages before `end` that is not finished.
proof fn lemma_first_unfinished(plan: Plan, end: int) -> (p: int)
    requires
        end <= plan.pages.len(),
        exists|p: int| 0 <= p < end && !(#[trigger] plan.pages[p]).finished(),
    ensures
        0 <= p < end,
        !plan.pages[p].finished(),
        forall|q: int| 0 <= q < p ==> (#[trigger] plan.pages[q]).finished(),
    decreases end,
{
    if exists|p: int| 0 <= p < end - 1 && !(#[trigger] plan.pages[p]).finished() {
        lemma_first_unfinished(plan, end - 1)
    } else {
        end - 1
    }
}

/// A page on which nothing runs and something is pending has pending work whose needs are met.
proof fn lemma_ready_work(page: PagePlan) -> (i: int)
    requires
        !page.finished(),
        forall|i: int|
            0 <= i < page.stages.len() ==> (#[trigger] page.stages[i]).state != WorkState::Running,
    ensures
        0 <= i < page.stages.len(),
        page.stages[i].state == WorkState::Pending,
        page.ready(i),
{
    let i = lemma_earliest(page, 4);
    if let Some(needed) = page.stages[i].stage.required() {
        assert forall|j: int| #[trigger] page.is_first(j, needed) implies page.stages[j].state
            == WorkState::Finished by {}
    }
    i
}

/// A pending stage of a page that comes before every other pending one.
proof fn lemma_earliest(page: PagePlan, bound: int) -> (i: int)
    requires
        0 <= bound <= 4,
        exists|i: int|
            0 <= i < page.stages.len() && (#[trigger] page.stages[i]).state != WorkState::Finished
                && page.stages[i].stage.order() < bound,
        forall|i: int|
            0 <= i < page.stages.len() ==> (#[trigger] page.stages[i]).state != WorkState::Running,
    ensures
        0 <= i < page.stages.len(),
        page.stages[i].state == WorkState::Pending,
        forall|j: int|
            0 <= j < page.stages.len() && (#[trigger] page.stages[j]).stage.order()
                < page.stages[i].stage.order() ==> page.stages[j].state == WorkState::Finished,
    decreases bound,
{
    if exists|i: int|
        0 <= i < page.stages.len() && (#[trigger] page.stages[i]).state != WorkState::Finished
            && page.stages[i].stage.order() < bound - 1 {
        lemma_earliest(page, bound - 1)
    } else {
        choose|i: int|
            0 <= i < page.stages.len() && (#[trigger] page.stages[i]).state != WorkState::Finished
                && page.stages[i].stage.order() < bound
    }
}

/// Pending work of a stage that comes before every other stage that is pending on any page.
proof fn lemma_earliest_pending(plan: Plan) -> (r: (int, int))
    requires
        plan.idle(),
        exists|p: int| 0 <= p < plan.pages.len() && !(#[trigger] plan.pages[p]).finished(),
    ensures
        0 <= r.0 < plan.pages.len(),
        0 <= r.1 < plan.pages[r.0].stages.len(),
        plan.pages[r.0].stages[r.1].state == WorkState::Pending,
        plan.earlier_finished(plan.pages[r.0].stages[r.1].stage),
{
    let p = choose|p: int| 0 <= p < plan.pages.len() && !(#[trigger] plan.pages[p]).finished();
    let i = choose|i: int|
        0 <= i < plan.pages[p].stages.len() && (#[trigger] plan.pages[p].stages[i]).state
            != WorkState::Finished;
    lemma_earliest_pending_from(plan, p, i, plan.pages[p].stages[i].stage.order())
}

proof fn lemma_earliest_pending_from(plan: Plan, p: int, i: int, order: int) -> (r: (int, int))
    requires
        plan.idle(),
        0 <= p < plan.pages.len(),
        0 <= i < plan.pages[p].stages.len(),
        plan.pages[p].stages[i].state != WorkState::Finished,
        plan.pages[p].stages[i].stage.order() == order,
    ensures
        0 <= r.0 < plan.pages.len(),
        0 <= r.1 < plan.pages[r.0].stages.len(),
        plan.pages[r.0].stages[r.1].state == WorkState::Pending,
        plan.earlier_finished(plan.pages[r.0].stages[r.1].stage),
    decreases order,
{
    let stage = plan.pages[p].stages[i].stage;
    if plan.earlier_finished(stage) {
        (p, i)
    } else {
        let (q, j) = choose|q: int, j: int|
            0 <= q < plan.pages.len() && 0 <= j < plan.pages[q].stages.len() && (
            #[trigger] plan.pages[q].stages[j]).stage.order() < stage.order()
                && plan.pages[q].stages[j].state != WorkState::Finished;
        lemma_earliest_pending_from(plan, q, j, plan.pages[q].stages[j].stage.order())
    }
}

} // verus!
