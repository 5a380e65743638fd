//! Jobs: what they are asked for, how far they are, and what they warn of.

use vstd::prelude::*;

use crate::execution::RunStatus;
use crate::identifier::{hyphenated, write_identifier};
use crate::stage::{EntityId, Stage, StageTarget};
use crate::text::copy_text;

verus! {

/// Identifies a job.
#[derive(Clone, Copy, Debug, PartialEq, Eq, Hash, Structural)]
pub struct JobId(pub u128);

impl JobId {
    /// The identifier as text.
    pub fn text(self) -> (result: String)
        ensures
            result@ == hyphenated(self.0),
    {
        write_identifier(self.0)
    }
}

/// How a job stands.
#[derive(Clone, Copy, Debug, PartialEq, Eq, Structural)]
pub enum JobState {
    Running,
    Finished,
    Failed,
    Stopped,
}

/// A job as it is shown.
#[derive(Debug)]
pub struct Job {
    pub id: JobId,
    pub state: JobState,
    pub completed: usize,
    pub total: usize,
    pub target: Option<StageTarget>,
    pub stage: Option<Stage>,
    pub model: Option<String>,
    pub error: Option<String>,
}

impl Clone for Job {
    fn clone(&self) -> (result: Job)
        ensures
            result == *self,
    {
        Job {
            id: self.id,
            state: self.state,
            completed: self.completed,
            total: self.total,
            target: self.target,
            stage: self.stage,
            model: copy_text(&self.model),
            error: copy_text(&self.error),
        }
    }
}

impl Job {
    /// A job that has just begun.
    pub open spec fn begun(id: JobId) -> Job {
        Job {
            id,
            state: JobState::Running,
            completed: 0,
            total: 0,
            target: None,
            stage: None,
            model: None,
            error: None,
        }
    }

    fn begin(id: JobId) -> (result: Job)
        ensures
            result == Job::begun(id),
    {
        Job {
            id,
            state: JobState::Running,
            completed: 0,
            total: 0,
            target: None,
            stage: None,
            model: None,
            error: None,
        }
    }
}

/// The bounds of a region. Each number is held by the bits of its double-precision form, with one
/// zero, or is nothing where it is no number and therefore equal to nothing.
#[derive(Clone, Copy, Debug, PartialEq, Eq, Structural)]
pub struct Bounds {
    pub x: Option<u64>,
    pub y: Option<u64>,
    pub width: Option<u64>,
    pub height: Option<u64>,
}

impl Bounds {
    /// The bounds are equal as numbers.
    pub open spec fn equals(self, other: Bounds) -> bool {
        &&& self.x is Some && self.x == other.x
        &&& self.y is Some && self.y == other.y
        &&& self.width is Some && self.width == other.width
        &&& self.height is Some && self.height == other.height
    }

    fn is_same(self, other: Bounds) -> (result: bool)
        ensures
            result == self.equals(other),
    {
        same_number(self.x, other.x) && same_number(self.y, other.y) && same_number(
            self.width,
            other.width,
        ) && same_number(self.height, other.height)
    }
}

fn same_number(left: Option<u64>, right: Option<u64>) -> (result: bool)
    ensures
        result == (left is Some && left == right),
{
    match (left, right) {
        (Some(a), Some(b)) => a == b,
        _ => false,
    }
}

/// What of a project a job works on.
#[derive(Clone, Debug)]
pub enum Scope {
    Project,
    Pages(Vec<EntityId>),
    Region { page: EntityId, bounds: Bounds },
    Entities(Vec<EntityId>),
}

/// What a job does.
#[derive(Clone, Debug)]
pub enum Operation {
    Full,
    Through { stage: Stage },
    Only { stage: Stage },
    Stages { stages: Vec<Stage> },
}

/// A mask that was painted by hand.
#[derive(Clone, Debug)]
pub struct InpaintingMask {
    pub page: EntityId,
    pub png: Vec<u8>,
}

impl InpaintingMask {
    /// Tests whether the mask is handed to a stage: to the painting of its page.
    pub fn is_meant_for(&self, target: StageTarget, stage: Stage) -> (result: bool)
        ensures
            result == (stage == Stage::Inpainting && target == StageTarget::Page(self.page)),
    {
        stage == Stage::Inpainting && target == StageTarget::Page(self.page)
    }
}

fn copy_ids(ids: &Vec<EntityId>) -> (result: Vec<EntityId>)
    ensures
        result@ == ids@,
{
    let mut result: Vec<EntityId> = Vec::new();
    let mut index: usize = 0;
    while index < ids.len()
        invariant
            index <= ids.len(),
            result@ == ids@.take(index as int),
        decreases ids.len() - index,
    {
        result.push(ids[index]);
        index += 1;
        proof {
            assert(result@ =~= ids@.take(index as int));
        }
    }
    proof {
        assert(ids@.take(ids@.len() as int) =~= ids@);
    }
    result
}

fn same_ids(left: &Vec<EntityId>, right: &Vec<EntityId>) -> (result: bool)
    ensures
        result == (left@ == right@),
{
    if left.len() != right.len() {
        return false;
    }
    let mut index: usize = 0;
    while index < left.len()
        invariant
            index <= left.len() == right.len(),
            forall|i: int| 0 <= i < index ==> #[trigger] left@[i] == right@[i],
        decreases left.len() - index,
    {
        if left[index] != right[index] {
            return false;
        }
        index += 1;
    }
    proof {
        assert(left@ =~= right@);
    }
    true
}

fn same_stages(left: &Vec<Stage>, right: &Vec<Stage>) -> (result: bool)
    ensures
        result == (left@ == right@),
{
    if left.len() != right.len() {
        return false;
    }
    let mut index: usize = 0;
    while index < left.len()
        invariant
            index <= left.len() == right.len(),
            forall|i: int| 0 <= i < index ==> #[trigger] left@[i] == right@[i],
        decreases left.len() - index,
    {
        if left[index] != right[index] {
            return false;
        }
        index += 1;
    }
    proof {
        assert(left@ =~= right@);
    }
    true
}

impl Scope {
    /// Two scopes are equal.
    pub open spec fn equals(self, other: Scope) -> bool {
        match (self, other) {
            (Scope::Project, Scope::Project) => true,
            (Scope::Pages(left), Scope::Pages(right)) => left@ == right@,
            (
                Scope::Region { page, bounds },
                Scope::Region { page: other_page, bounds: other_bounds },
            ) => page == other_page && bounds.equals(other_bounds),
            (Scope::Entities(left), Scope::Entities(right)) => left@ == right@,
            _ => false,
        }
    }

    pub fn is_same(&self, other: &Scope) -> (result: bool)
        ensures
            result == self.equals(*other),
    {
        match (self, other) {
            (Scope::Project, Scope::Project) => true,
            (Scope::Pages(left), Scope::Pages(right)) => same_ids(left, right),
            (
                Scope::Region { page, bounds },
                Scope::Region { page: other_page, bounds: other_bounds },
            ) => *page == *other_page && bounds.is_same(*other_bounds),
            (Scope::Entities(left), Scope::Entities(right)) => same_ids(left, right),
            _ => false,
        }
    }

    /// The pages of a scope; `pages` are those of the project.
    pub open spec fn covered(self, pages: Seq<EntityId>) -> Seq<EntityId> {
        match self {
            Scope::Project => pages,
            Scope::Pages(chosen) => chosen@,
            Scope::Region { page, .. } => seq![page],
            Scope::Entities(_) => Seq::empty(),
        }
    }

    fn pages(&self, pages: &Vec<EntityId>) -> (result: Vec<EntityId>)
        ensures
            result@ == self.covered(pages@),
    {
        match self {
            Scope::Project => copy_ids(pages),
            Scope::Pages(chosen) => copy_ids(chosen),
            Scope::Region { page, .. } => {
                let mut result: Vec<EntityId> = Vec::new();
                result.push(*page);
                proof {
                    assert(result@ =~= seq![*page]);
                }
                result
            },
            Scope::Entities(_) => Vec::new(),
        }
    }
}

impl Operation {
    /// Two operations are equal.
    pub open spec fn equals(self, other: Operation) -> bool {
        match (self, other) {
            (Operation::Full, Operation::Full) => true,
            (Operation::Through { stage }, Operation::Through { stage: other_stage }) => stage
                == other_stage,
            (Operation::Only { stage }, Operation::Only { stage: other_stage }) => stage
                == other_stage,
            (Operation::Stages { stages }, Operation::Stages { stages: other_stages }) => stages@
                == other_stages@,
            _ => false,
        }
    }

    pub fn is_same(&self, other: &Operation) -> (result: bool)
        ensures
            result == self.equals(*other),
    {
        match (self, other) {
            (Operation::Full, Operation::Full) => true,
            (Operation::Through { stage }, Operation::Through { stage: other_stage }) => *stage
                == *other_stage,
            (Operation::Only { stage }, Operation::Only { stage: other_stage }) => *stage
                == *other_stage,
            (Operation::Stages { stages }, Operation::Stages { stages: other_stages }) =>
            same_stages(stages, other_stages),
            _ => false,
        }
    }

    /// The operation removes lettering.
    pub open spec fn inpaints(self) -> bool {
        match self {
            Operation::Full => true,
            Operation::Through { stage } => stage == Stage::Inpainting,
            Operation::Only { stage } => stage == Stage::Inpainting,
            Operation::Stages { stages } => stages@.contains(Stage::Inpainting),
        }
    }
}

fn holds_stage(stages: &Vec<Stage>, stage: Stage) -> (result: bool)
    ensures
        result == stages@.contains(stage),
{
    let mut index: usize = 0;
    while index < stages.len()
        invariant
            index <= stages.len(),
            forall|i: int| 0 <= i < index ==> #[trigger] stages@[i] != stage,
        decreases stages.len() - index,
    {
        if stages[index] == stage {
            proof {
                assert(stages@[index as int] == stage);
            }
            return true;
        }
        index += 1;
    }
    false
}

/// Whether an operation removes lettering.
pub fn requests_inpainting(operation: &Operation) -> (result: bool)
    ensures
        result == operation.inpaints(),
{
    match operation {
        Operation::Full => true,
        Operation::Through { stage } => *stage == Stage::Inpainting,
        Operation::Only { stage } => *stage == Stage::Inpainting,
        Operation::Stages { stages } => holds_stage(stages, Stage::Inpainting),
    }
}

/// What a job was asked for.
#[derive(Clone, Debug)]
pub struct ProcessingRequest {
    pub project: u128,
    pub scope: Scope,
    pub operation: Operation,
    pub inpainting_mask: Option<InpaintingMask>,
}

impl ProcessingRequest {
    /// Two requests are for the same selection.
    pub open spec fn selects(self, other: ProcessingRequest) -> bool {
        &&& self.project == other.project
        &&& self.scope.equals(other.scope)
        &&& self.operation.equals(other.operation)
    }

    fn is_for(&self, other: &ProcessingRequest) -> (result: bool)
        ensures
            result == self.selects(*other),
    {
        self.project == other.project && self.scope.is_same(&other.scope)
            && self.operation.is_same(&other.operation)
    }
}

/// A stage could not do its work on a page.
#[derive(Debug)]
pub struct PageWarning {
    pub stage: Stage,
    pub model: String,
    pub message: String,
}

impl Clone for PageWarning {
    fn clone(&self) -> (result: PageWarning)
        ensures
            result == *self,
    {
        PageWarning {
            stage: self.stage,
            model: self.model.clone(),
            message: self.message.clone(),
        }
    }
}

/// A page of a project.
#[derive(Clone, Copy, Debug, PartialEq, Eq, Structural)]
pub struct PageKey {
    pub project: u128,
    pub page: EntityId,
}

/// A page of a project.
pub open spec fn page_key(project: u128, page: EntityId) -> PageKey {
    PageKey { project, page }
}

/// The warnings about pages, at most one for each.
#[derive(Debug)]
pub struct Warnings {
    entries: Vec<(PageKey, PageWarning)>,
}

/// The warnings that a list holds.
pub open spec fn warnings_in(entries: Seq<(PageKey, PageWarning)>) -> Map<PageKey, PageWarning>
    decreases entries.len(),
{
    if entries.len() == 0 {
        Map::empty()
    } else {
        warnings_in(entries.drop_last()).insert(entries.last().0, entries.last().1)
    }
}

proof fn lemma_warnings(entries: Seq<(PageKey, PageWarning)>)
    requires
        forall|i: int, j: int|
            0 <= i < j < entries.len() ==> (#[trigger] entries[i]).0 != (#[trigger] entries[j]).0,
    ensures
        forall|i: int|
            0 <= i < entries.len() ==> #[trigger] warnings_in(entries).dom().contains(entries[i].0),
        forall|i: int|
            0 <= i < entries.len() ==> warnings_in(entries)[(#[trigger] entries[i]).0]
                == entries[i].1,
        forall|key: PageKey|
            #[trigger] warnings_in(entries).dom().contains(key) ==> exists|i: int|
                0 <= i < entries.len() && (#[trigger] entries[i]).0 == key,
    decreases entries.len(),
{
    if entries.len() > 0 {
        let shorter = entries.drop_last();
        assert forall|i: int, j: int| 0 <= i < j < shorter.len() implies (#[trigger] shorter[i]).0
            != (#[trigger] shorter[j]).0 by {
            assert(entries[i].0 != entries[j].0);
        }
        lemma_warnings(shorter);
        assert forall|i: int| 0 <= i < entries.len() implies (#[trigger] warnings_in(
            entries,
        ).dom().contains(entries[i].0)) by {
            if i < shorter.len() {
                assert(shorter[i] == entries[i]);
            }
        }
        assert forall|i: int| 0 <= i < entries.len() implies warnings_in(entries)[(
        #[trigger] entries[i]).0] == entries[i].1 by {
            if i < shorter.len() {
                assert(shorter[i] == entries[i]);
                assert(entries[i].0 != entries[entries.len() - 1].0);
            }
        }
        assert forall|key: PageKey| #[trigger] warnings_in(entries).dom().contains(
            key,
        ) implies exists|i: int| 0 <= i < entries.len() && (#[trigger] entries[i]).0 == key by {
            if shorter.len() < entries.len() && entries.last().0 == key {
                assert(entries[entries.len() - 1].0 == key);
            } else {
                assert(warnings_in(shorter).dom().contains(key));
                let i = choose|i: int| 0 <= i < shorter.len() && (#[trigger] shorter[i]).0 == key;
                assert(entries[i].0 == key);
            }
        }
    }
}

impl View for Warnings {
    type V = Map<PageKey, PageWarning>;

    closed spec fn view(&self) -> Map<PageKey, PageWarning> {
        warnings_in(self.entries@)
    }
}

impl Warnings {
    #[verifier::type_invariant]
    spec fn distinct(self) -> bool {
        forall|i: int, j: int|
            0 <= i < j < self.entries.len() ==> (#[trigger] self.entries@[i]).0 != (
            #[trigger] self.entries@[j]).0
    }

    pub fn new() -> (result: Warnings)
        ensures
            result@ == Map::<PageKey, PageWarning>::empty(),
    {
        Warnings { entries: Vec::new() }
    }

    fn place(&self, key: PageKey) -> (result: Option<usize>)
        ensures
            match result {
                Some(place) => place < self.entries.len() && self.entries@[place as int].0 == key,
                None => forall|i: int|
                    0 <= i < self.entries.len() ==> (#[trigger] self.entries@[i]).0 != key,
            },
    {
        let mut index: usize = 0;
        while index < self.entries.len()
            invariant
                index <= self.entries.len(),
                forall|i: int| 0 <= i < index ==> (#[trigger] self.entries@[i]).0 != key,
            decreases self.entries.len() - index,
        {
            if self.entries[index].0 == key {
                return Some(index);
            }
            index += 1;
        }
        None
    }

    /// The warning about a page.
    pub fn get(&self, key: PageKey) -> (result: Option<PageWarning>)
        ensures
            match result {
                Some(warning) => self@.dom().contains(key) && self@[key] == warning,
                None => !self@.dom().contains(key),
            },
    {
        proof {
            use_type_invariant(self);
            lemma_warnings(self.entries@);
        }
        match self.place(key) {
            Some(place) => Some(self.entries[place].1.clone()),
            None => None,
        }
    }

    /// Takes back the warning about a page.
    pub fn remove(&mut self, key: PageKey)
        ensures
            final(self)@ == old(self)@.remove(key),
    {
        proof {
            use_type_invariant(&*self);
            lemma_warnings(self.entries@);
        }
        let found = self.place(key);
        let ghost before = self.entries@;
        match found {
            Some(place) => {
                let mut entries: Vec<(PageKey, PageWarning)> = Vec::new();
                let mut index: usize = 0;
                while index < self.entries.len()
                    invariant
                        place < self.entries.len(),
                        index <= self.entries.len(),
                        self.entries@ == before,
                        index <= place ==> entries@ == before.take(index as int),
                        index > place ==> entries@ == before.take(index as int).remove(
                            place as int,
                        ),
                    decreases self.entries.len() - index,
                {
                    if index != place {
                        let entry = &self.entries[index];
                        entries.push((entry.0, entry.1.clone()));
                    }
                    index += 1;
                    proof {
                        if index <= place {
                            assert(entries@ =~= before.take(index as int));
                        } else {
                            assert(entries@ =~= before.take(index as int).remove(place as int));
                        }
                    }
                }
                proof {
                    assert(before.take(before.len() as int) =~= before);
                    let after = before.remove(place as int);
                    assert(entries@ == after);
                    assert forall|i: int, j: int| 0 <= i < j < after.len() implies (
                    #[trigger] after[i]).0 != (#[trigger] after[j]).0 by {
                        let a = if i < place {
                            i
                        } else {
                            i + 1
                        };
                        let b = if j < place {
                            j
                        } else {
                            j + 1
                        };
                        assert(before[a].0 != before[b].0);
                    }
                    lemma_warnings(after);
                    assert forall|other: PageKey| #[trigger] warnings_in(after).dom().contains(
                        other,
                    ) implies warnings_in(before).remove(key).dom().contains(other) by {
                        let i = choose|i: int|
                            0 <= i < after.len() && (#[trigger] after[i]).0 == other;
                        let a = if i < place {
                            i
                        } else {
                            i + 1
                        };
                        assert(before[a] == after[i]);
                        assert(before[a].0 != before[place as int].0);
                    }
                    assert forall|other: PageKey| #[trigger] warnings_in(before).remove(
                        key,
                    ).dom().contains(other) implies warnings_in(after).dom().contains(other)
                        && warnings_in(after)[other] == warnings_in(before)[other] by {
                        assert(warnings_in(before).dom().contains(other));
                        let a = choose|a: int|
                            0 <= a < before.len() && (#[trigger] before[a]).0 == other;
                        assert(a != place);
                        let i = if a < place {
                            a
                        } else {
                            a - 1
                        };
                        assert(after[i] == before[a]);
                    }
                    assert(warnings_in(after) =~= warnings_in(before).remove(key));
                }
                *self = Warnings { entries };
            },
            None => {
                proof {
                    if warnings_in(before).dom().contains(key) {
                        let a = choose|a: int|
                            0 <= a < before.len() && (#[trigger] before[a]).0 == key;
                        assert(before[a].0 == key);
                    }
                    assert(warnings_in(before).remove(key) =~= warnings_in(before));
                }
            },
        }
    }

    /// Keeps a warning about a page, in place of the one before.
    pub fn insert(&mut self, key: PageKey, warning: PageWarning)
        ensures
            final(self)@ == old(self)@.insert(key, warning),
    {
        self.remove(key);
        proof {
            use_type_invariant(&*self);
            lemma_warnings(self.entries@);
        }
        let ghost before = self.entries@;
        let mut entries: Vec<(PageKey, PageWarning)> = Vec::new();
        let mut index: usize = 0;
        while index < self.entries.len()
            invariant
                index <= self.entries.len(),
                self.entries@ == before,
                entries@ == before.take(index as int),
            decreases self.entries.len() - index,
        {
            let entry = &self.entries[index];
            entries.push((entry.0, entry.1.clone()));
            index += 1;
            proof {
                assert(entries@ =~= before.take(index as int));
            }
        }
        entries.push((key, warning));
        proof {
            let after = before.push((key, warning));
            assert(entries@ =~= after);
            assert(after.drop_last() =~= before);
            assert forall|i: int, j: int| 0 <= i < j < after.len() implies (#[trigger] after[i]).0
                != (#[trigger] after[j]).0 by {
                if j < before.len() {
                    assert(before[i].0 != before[j].0);
                } else {
                    assert(warnings_in(before).dom().contains(before[i].0));
                }
            }
            assert(old(self)@.remove(key).insert(key, warning) =~= old(self)@.insert(key, warning));
        }
        *self = Warnings { entries };
    }
}

/// How many steps of a job are done, and how many there are.
#[derive(Clone, Copy, Debug, PartialEq, Eq, Structural)]
pub struct Counter {
    pub completed: usize,
    pub total: usize,
}

impl Counter {
    /// One step more is done, as far as there are steps.
    pub open spec fn advanced(self) -> Counter {
        Counter {
            completed: if self.completed < self.total {
                (self.completed + 1) as usize
            } else {
                self.total
            },
            total: self.total,
        }
    }

    fn advance(self) -> (result: Counter)
        ensures
            result == self.advanced(),
    {
        Counter {
            completed: if self.completed < self.total {
                self.completed + 1
            } else {
                self.total
            },
            total: self.total,
        }
    }
}

/// What a run tells of its progress.
#[derive(Debug)]
pub enum Progress {
    Started { pages: Vec<EntityId>, stages: Vec<Stage>, total: usize },
    Loading { target: StageTarget, stage: Stage, model: String },
    Running { target: StageTarget, stage: Stage, model: String },
    Finished { target: StageTarget, stage: Stage, model: String },
    Skipped { target: StageTarget, stage: Stage },
    Warning { target: StageTarget, stage: Stage, model: String, error: String },
}

impl Progress {
    /// What is counted after it.
    pub open spec fn counted(self, counter: Counter) -> Counter {
        match self {
            Progress::Started { total, .. } => Counter { completed: 0, total },
            Progress::Loading { .. } | Progress::Running { .. } => counter,
            Progress::Finished { .. } | Progress::Skipped { .. } | Progress::Warning { .. } =>
            counter.advanced(),
        }
    }

    /// The job as it is shown after it, or nothing where it shows nothing new. A stage that was
    /// skipped is not at work, so the one before stays in sight.
    pub open spec fn shown(self, job: Job, counter: Counter) -> Option<Job> {
        let after = self.counted(counter);
        let counted = Job { completed: after.completed, total: after.total, ..job };
        match self {
            Progress::Started { .. } => Some(
                Job { target: None, stage: None, model: None, ..counted },
            ),
            Progress::Loading { target, stage, model } => Some(
                Job { target: Some(target), stage: Some(stage), model: Some(model), ..counted },
            ),
            Progress::Finished { target, stage, model } => Some(
                Job { target: Some(target), stage: Some(stage), model: Some(model), ..counted },
            ),
            Progress::Warning { target, stage, model, .. } => Some(
                Job { target: Some(target), stage: Some(stage), model: Some(model), ..counted },
            ),
            Progress::Skipped { .. } => Some(counted),
            Progress::Running { .. } => None,
        }
    }

    /// The warnings after it; `active` says whether its job still runs.
    pub open spec fn warned(
        self,
        warnings: Map<PageKey, PageWarning>,
        project: u128,
        active: bool,
    ) -> Map<PageKey, PageWarning> {
        match self {
            Progress::Finished { target: StageTarget::Page(page), stage: Stage::Inpainting, .. } =>
            warnings.remove(PageKey { project, page }),
            Progress::Skipped { target: StageTarget::Page(page), stage: Stage::Inpainting } =>
            warnings.remove(PageKey { project, page }),
            Progress::Warning { target: StageTarget::Page(page), stage, model, error } => if active {
                warnings.insert(
                    PageKey { project, page },
                    PageWarning { stage, model, message: error },
                )
            } else {
                warnings
            },
            _ => warnings,
        }
    }
}

/// A job never counts more steps than it has, once it has begun.
pub proof fn law_jobs_never_pass_their_total(progress: Progress, counter: Counter)
    requires
        counter.completed <= counter.total,
    ensures
        progress.counted(counter).completed <= progress.counted(counter).total,
{
}

/// Skipping a stage keeps what is shown of the stage before.
pub proof fn law_skipped_stages_stay_out_of_sight(
    target: StageTarget,
    stage: Stage,
    job: Job,
    counter: Counter,
)
    ensures
        ((Progress::Skipped { target, stage }).shown(job, counter)) matches Some(after)
            && after.target == job.target && after.stage == job.stage && after.model == job.model,
{
}

/// The place of a job.
pub open spec fn job_place(jobs: Seq<Job>, id: JobId) -> Option<int>
    decreases jobs.len(),
{
    if jobs.len() == 0 {
        None
    } else if jobs.last().id == id {
        Some(jobs.len() - 1)
    } else {
        job_place(jobs.drop_last(), id)
    }
}

/// The jobs that run, what they left to be resumed, and what they warned of.
#[derive(Debug)]
pub struct Processing {
    pub running: Option<JobId>,
    pub jobs: Vec<Job>,
    pub inpainting_mask: Option<InpaintingMask>,
    pub warnings: Warnings,
    pub resume: Option<ProcessingRequest>,
}

/// What is told where a job cannot begin.
pub const BUSY: &'static str = "another process is already running";

/// The request that runs, and what is left to be resumed: an interrupted request runs again in
/// place of one for the same stages of the same selection.
pub open spec fn selected(resume: Option<ProcessingRequest>, request: ProcessingRequest) -> (
    ProcessingRequest,
    Option<ProcessingRequest>,
) {
    if !(request.operation is Stages) {
        (request, resume)
    } else {
        match resume {
            Some(before) => if before.selects(request) {
                (before, None)
            } else {
                (request, None)
            },
            None => (request, None),
        }
    }
}

/// What is left to be resumed after a request has run.
pub open spec fn resumable(
    resume: Option<ProcessingRequest>,
    request: ProcessingRequest,
    interrupted: bool,
) -> Option<ProcessingRequest> {
    if interrupted && request.operation is Stages {
        Some(request)
    } else {
        resume
    }
}

/// A request for stages that was interrupted runs again when the same selection is asked for.
pub proof fn law_interrupted_requests_are_resumed(
    resume: Option<ProcessingRequest>,
    interrupted: ProcessingRequest,
    request: ProcessingRequest,
)
    requires
        interrupted.operation is Stages,
        interrupted.selects(request),
    ensures
        selected(resumable(resume, interrupted, true), request).0 == interrupted,
{
}

/// A request for another selection runs as it was asked for.
pub proof fn law_changed_selections_run_as_asked(
    resume: Option<ProcessingRequest>,
    request: ProcessingRequest,
)
    requires
        resume matches Some(before) ==> !before.selects(request),
    ensures
        selected(resume, request).0 == request,
{
}

/// What is not a request for stages neither replaces nor uses up what is to be resumed.
pub proof fn law_other_operations_leave_the_retry(
    resume: Option<ProcessingRequest>,
    request: ProcessingRequest,
    interrupted: bool,
)
    requires
        !(request.operation is Stages),
    ensures
        resumable(resume, request, interrupted) == resume,
        selected(resume, request) == (request, resume),
{
}

/// The warnings about some pages are taken back.
pub open spec fn cleared(
    warnings: Map<PageKey, PageWarning>,
    project: u128,
    pages: Seq<EntityId>,
) -> Map<PageKey, PageWarning>
    decreases pages.len(),
{
    if pages.len() == 0 {
        warnings
    } else {
        cleared(warnings, project, pages.drop_last()).remove(
            PageKey { project, page: pages.last() },
        )
    }
}

/// How a job stands at its end.
pub open spec fn end_state(result: Result<RunStatus, String>) -> JobState {
    match result {
        Ok(RunStatus::Stopped) => JobState::Stopped,
        Ok(_) => JobState::Finished,
        Err(_) => JobState::Failed,
    }
}

impl Processing {
    pub fn new() -> (result: Processing)
        ensures
            result.running is None,
            result.jobs.len() == 0,
            result.inpainting_mask is None,
            result.warnings@ == Map::<PageKey, PageWarning>::empty(),
            result.resume is None,
    {
        Processing {
            running: None,
            jobs: Vec::new(),
            inpainting_mask: None,
            warnings: Warnings::new(),
            resume: None,
        }
    }

    /// Forgets the warnings.
    pub fn clear_warnings(&mut self)
        ensures
            *final(self) == (Processing { warnings: final(self).warnings, ..*old(self) }),
            final(self).warnings@ == Map::<PageKey, PageWarning>::empty(),
    {
        self.warnings = Warnings::new();
    }

    /// The warning about a page.
    pub fn warning(&self, project: u128, page: EntityId) -> (result: Option<PageWarning>)
        ensures
            match result {
                Some(warning) => {
                    &&& self.warnings@.dom().contains(page_key(project, page))
                    &&& self.warnings@[page_key(project, page)] == warning
                },
                None => !self.warnings@.dom().contains(page_key(project, page)),
            },
    {
        self.warnings.get(PageKey { project, page })
    }

    /// Takes back the warning about a page.
    pub fn clear_warning(&mut self, project: u128, page: EntityId)
        ensures
            *final(self) == (Processing { warnings: final(self).warnings, ..*old(self) }),
            final(self).warnings@ == old(self).warnings@.remove(page_key(project, page)),
    {
        self.warnings.remove(PageKey { project, page });
    }

    /// Keeps a warning about a page.
    pub fn record_warning(&mut self, project: u128, page: EntityId, warning: PageWarning)
        ensures
            *final(self) == (Processing { warnings: final(self).warnings, ..*old(self) }),
            final(self).warnings@ == old(self).warnings@.insert(page_key(project, page), warning),
    {
        self.warnings.insert(PageKey { project, page }, warning);
    }

    /// Takes back the warnings about the pages on which lettering is removed again; `pages` are
    /// those of the project.
    pub fn clear_inpainting_warnings(
        &mut self,
        project: u128,
        pages: &Vec<EntityId>,
        scope: &Scope,
        operation: &Operation,
    )
        ensures
            *final(self) == (Processing { warnings: final(self).warnings, ..*old(self) }),
            final(self).warnings@ == if operation.inpaints() {
                cleared(old(self).warnings@, project, scope.covered(pages@))
            } else {
                old(self).warnings@
            },
    {
        if !requests_inpainting(operation) {
            return;
        }
        let covered = scope.pages(pages);
        let mut index: usize = 0;
        let ghost before = *self;
        proof {
            assert(covered@.take(0) =~= Seq::empty());
        }
        while index < covered.len()
            invariant
                index <= covered.len(),
                before == *old(self),
                *self == (Processing { warnings: self.warnings, ..before }),
                self.warnings@ == cleared(before.warnings@, project, covered@.take(index as int)),
            decreases covered.len() - index,
        {
            proof {
                let longer = covered@.take(index as int + 1);
                assert(longer.drop_last() =~= covered@.take(index as int));
                assert(longer.last() == covered@[index as int]);
            }
            self.clear_warning(project, covered[index]);
            index += 1;
        }
        proof {
            assert(covered@.take(covered@.len() as int) =~= covered@);
        }
    }

    /// Chooses the request that runs.
    pub fn select_request(&mut self, request: ProcessingRequest) -> (result: ProcessingRequest)
        ensures
            *final(self) == (Processing { resume: final(self).resume, ..*old(self) }),
            (result, final(self).resume) == selected(old(self).resume, request),
    {
        match &request.operation {
            Operation::Stages { .. } => {},
            _ => {
                return request;
            },
        }
        match self.resume.take() {
            Some(resume) => {
                if resume.is_for(&request) {
                    resume
                } else {
                    request
                }
            },
            None => request,
        }
    }

    /// Begins a job, where none runs: the job as it is shown, and the request that runs. It takes
    /// the mask that was painted, and the warnings about what is painted anew are taken back.
    pub fn process(
        &mut self,
        id: JobId,
        project: u128,
        pages: &Vec<EntityId>,
        scope: Scope,
        operation: Operation,
    ) -> (result: Result<(Job, ProcessingRequest), &'static str>)
        ensures
            old(self).running is Some ==> *final(self) == *old(self) && (result matches Err(message)
                && message@ == BUSY@),
            old(self).running is None ==> {
                let asked = ProcessingRequest {
                    project,
                    scope,
                    operation,
                    inpainting_mask: old(self).inpainting_mask,
                };
                &&& result matches Ok((job, request))
                &&& job == Job::begun(id)
                &&& (request, final(self).resume) == selected(old(self).resume, asked)
                &&& final(self).running == Some(id)
                &&& final(self).jobs@ == (match job_place(old(self).jobs@, id) {
                    Some(place) => old(self).jobs@.update(place, Job::begun(id)),
                    None => old(self).jobs@.push(Job::begun(id)),
                })
                &&& final(self).inpainting_mask is None
                &&& final(self).warnings@ == if request.operation.inpaints() {
                    cleared(old(self).warnings@, project, request.scope.covered(pages@))
                } else {
                    old(self).warnings@
                }
            },
    {
        let job = match self.begin(id) {
            Ok(job) => job,
            Err(message) => return Err(message),
        };
        let inpainting_mask = self.inpainting_mask.take();
        let request = self.select_request(
            ProcessingRequest { project, scope, operation, inpainting_mask },
        );
        self.clear_inpainting_warnings(project, pages, &request.scope, &request.operation);
        Ok((job, request))
    }

    /// Keeps a request that was interrupted.
    pub fn finish(&mut self, request: ProcessingRequest, interrupted: bool)
        ensures
            *final(self) == (Processing { resume: final(self).resume, ..*old(self) }),
            final(self).resume == resumable(old(self).resume, request, interrupted),
    {
        let stages = match &request.operation {
            Operation::Stages { .. } => true,
            _ => false,
        };
        if interrupted && stages {
            self.resume = Some(request);
        }
    }

    /// Begins a job, where none runs: the job as it is shown.
    pub fn begin(&mut self, id: JobId) -> (result: Result<Job, &'static str>)
        ensures
            old(self).running is Some ==> *final(self) == *old(self) && (result matches Err(message)
                && message@ == BUSY@),
            old(self).running is None ==> {
                &&& result == Ok::<Job, &'static str>(Job::begun(id))
                &&& *final(self) == (Processing {
                    running: Some(id),
                    jobs: final(self).jobs,
                    ..*old(self)
                })
                &&& final(self).jobs@ == (match job_place(old(self).jobs@, id) {
                    Some(place) => old(self).jobs@.update(place, Job::begun(id)),
                    None => old(self).jobs@.push(Job::begun(id)),
                })
            },
    {
        if self.running.is_some() {
            return Err(BUSY);
        }
        self.running = Some(id);
        let job = Job::begin(id);
        match self.find(id) {
            Some(place) => {
                self.jobs.set(place, job.clone());
            },
            None => {
                self.jobs.push(job.clone());
            },
        }
        Ok(job)
    }

    fn find(&self, id: JobId) -> (result: Option<usize>)
        ensures
            match result {
                Some(place) => place < self.jobs.len() && job_place(self.jobs@, id) == Some(
                    place as int,
                ) && self.jobs@[place as int].id == id,
                None => job_place(self.jobs@, id) is None,
            },
    {
        let mut index: usize = self.jobs.len();
        proof {
            assert(self.jobs@.take(index as int) =~= self.jobs@);
        }
        while index > 0
            invariant
                index <= self.jobs.len(),
                job_place(self.jobs@, id) == job_place(self.jobs@.take(index as int), id),
            decreases index,
        {
            proof {
                let part = self.jobs@.take(index as int);
                assert(part.last() == self.jobs@[index - 1]);
                assert(part.drop_last() =~= self.jobs@.take(index - 1));
            }
            if self.jobs[index - 1].id == id {
                return Some(index - 1);
            }
            index -= 1;
        }
        None
    }

    /// Takes in what a run tells of its progress: the job as it is shown then, where that changes.
    pub fn progress(
        &mut self,
        id: JobId,
        project: u128,
        counter: &mut Counter,
        event: Progress,
    ) -> (result: Option<Job>)
        ensures
            *final(counter) == event.counted(*old(counter)),
            *final(self) == (Processing {
                warnings: final(self).warnings,
                jobs: final(self).jobs,
                ..*old(self)
            }),
            final(self).warnings@ == event.warned(
                old(self).warnings@,
                project,
                job_place(old(self).jobs@, id) is Some,
            ),
            match job_place(old(self).jobs@, id) {
                Some(place) => {
                    &&& result == event.shown(old(self).jobs@[place], *old(counter))
                    &&& final(self).jobs@ == (match result {
                        Some(job) => old(self).jobs@.update(place, job),
                        None => old(self).jobs@,
                    })
                },
                None => result is None && final(self).jobs@ == old(self).jobs@,
            },
    {
        let found = self.find(id);
        match &event {
            Progress::Started { total, .. } => {
                *counter = Counter { completed: 0, total: *total };
            },
            Progress::Loading { .. } => {},
            Progress::Running { .. } => {},
            Progress::Finished { target, stage, .. } => {
                if *stage == Stage::Inpainting {
                    if let StageTarget::Page(page) = *target {
                        self.clear_warning(project, page);
                    }
                }
                *counter = counter.advance();
            },
            Progress::Skipped { target, stage } => {
                if *stage == Stage::Inpainting {
                    if let StageTarget::Page(page) = *target {
                        self.clear_warning(project, page);
                    }
                }
                *counter = counter.advance();
            },
            Progress::Warning { target, stage, model, error } => {
                *counter = counter.advance();
                if found.is_some() {
                    if let StageTarget::Page(page) = *target {
                        self.record_warning(
                            project,
                            page,
                            PageWarning {
                                stage: *stage,
                                model: model.clone(),
                                message: error.clone(),
                            },
                        );
                    }
                }
            },
        }
        let place = match found {
            Some(place) => place,
            None => return None,
        };
        let mut job = self.jobs[place].clone();
        job.completed = counter.completed;
        job.total = counter.total;
        match event {
            Progress::Started { .. } => {
                job.target = None;
                job.stage = None;
                job.model = None;
            },
            Progress::Loading { target, stage, model } => {
                job.target = Some(target);
                job.stage = Some(stage);
                job.model = Some(model);
            },
            Progress::Finished { target, stage, model } => {
                job.target = Some(target);
                job.stage = Some(stage);
                job.model = Some(model);
            },
            Progress::Warning { target, stage, model, .. } => {
                job.target = Some(target);
                job.stage = Some(stage);
                job.model = Some(model);
            },
            Progress::Skipped { .. } => {},
            Progress::Running { .. } => {
                return None;
            },
        }
        self.jobs.set(place, job.clone());
        Some(job)
    }

    /// Ends a job: the job as it is shown for the last time. A request that did not come to its end
    /// can be resumed.
    pub fn end(&mut self, id: JobId, request: ProcessingRequest, result: Result<RunStatus, String>) -> (
    job: Option<Job>)
        ensures
            *final(self) == (Processing {
                running: final(self).running,
                jobs: final(self).jobs,
                resume: final(self).resume,
                ..*old(self)
            }),
            final(self).running == (if old(self).running == Some(id) {
                None
            } else {
                old(self).running
            }),
            final(self).resume == resumable(
                old(self).resume,
                request,
                end_state(result) != JobState::Finished,
            ),
            match job_place(old(self).jobs@, id) {
                Some(place) => {
                    &&& job == Some(
                        Job {
                            state: end_state(result),
                            error: match result {
                                Ok(_) => None,
                                Err(message) => Some(message),
                            },
                            ..old(self).jobs@[place]
                        },
                    )
                    &&& final(self).jobs@ == old(self).jobs@.remove(place)
                },
                None => job is None && final(self).jobs@ == old(self).jobs@,
            },
    {
        let (state, error) = match result {
            Ok(RunStatus::Stopped) => (JobState::Stopped, None),
            Ok(_) => (JobState::Finished, None),
            Err(message) => (JobState::Failed, Some(message)),
        };
        self.finish(request, state != JobState::Finished);
        if let Some(running) = self.running {
            if running == id {
                self.running = None;
            }
        }
        match self.find(id) {
            Some(place) => {
                let mut job = self.jobs.remove(place);
                job.state = state;
                job.error = error;
                Some(job)
            },
            None => None,
        }
    }

    /// Checks that a job runs, before it is asked to stop.
    pub fn stop_job(&self, job: JobId) -> (result: Result<(), String>)
        ensures
            self.running == Some(job) ==> result is Ok,
            self.running != Some(job) ==> (result matches Err(message) && message@ == "job "@
                + hyphenated(job.0) + " is not running"@),
    {
        if let Some(running) = self.running {
            if running == job {
                return Ok(());
            }
        }
        let mut message = "job ".to_owned();
        let id = job.text();
        message.append(id.as_str());
        message.append(" is not running");
        Err(message)
    }

    /// Checks that no job runs, before something that must not happen during one.
    pub fn ensure_idle(&self, message: &'static str) -> (result: Result<(), &'static str>)
        ensures
            self.running is None ==> result is Ok,
            self.running is Some ==> result == Err::<(), &'static str>(message),
    {
        if self.running.is_some() {
            return Err(message);
        }
        Ok(())
    }
}

/// Taking back the warnings about some pages of a project takes back these and no others.
pub proof fn law_only_warnings_about_the_pages_are_cleared(
    warnings: Map<PageKey, PageWarning>,
    project: u128,
    pages: Seq<EntityId>,
    key: PageKey,
)
    ensures
        key.project == project && pages.contains(key.page) ==> !cleared(
            warnings,
            project,
            pages,
        ).dom().contains(key),
        !(key.project == project && pages.contains(key.page)) ==> {
            &&& cleared(warnings, project, pages).dom().contains(key) == warnings.dom().contains(
                key,
            )
            &&& warnings.dom().contains(key) ==> cleared(warnings, project, pages)[key]
                == warnings[key]
        },
    decreases pages.len(),
{
    if pages.len() > 0 {
        let rest = pages.drop_last();
        law_only_warnings_about_the_pages_are_cleared(warnings, project, rest, key);
        assert(pages[pages.len() - 1] == pages.last());
        if rest.contains(key.page) {
            let k = choose|k: int| 0 <= k < rest.len() && rest[k] == key.page;
            assert(pages[k] == key.page);
        }
        if pages.contains(key.page) && key.page != pages.last() {
            let k = choose|k: int| 0 <= k < pages.len() && pages[k] == key.page;
            assert(rest[k] == key.page);
        }
    }
}

/// What a run tells leaves the warnings about all other pages and projects alone. A page whose
/// lettering was removed, or left, has none. One that a stage warns of has that warning while the
/// job runs.
pub proof fn law_progress_changes_the_warning_about_its_page(
    progress: Progress,
    warnings: Map<PageKey, PageWarning>,
    project: u128,
    active: bool,
    page: EntityId,
    key: PageKey,
)
    ensures
        key.project != project ==> progress.warned(warnings, project, active).dom().contains(key)
            == warnings.dom().contains(key),
        progress matches Progress::Finished { target, stage, .. } ==> {
            &&& target == StageTarget::Page(page) && stage == Stage::Inpainting
                ==> !progress.warned(warnings, project, active).dom().contains(
                page_key(project, page),
            )
            &&& stage != Stage::Inpainting ==> progress.warned(warnings, project, active)
                == warnings
        },
        progress matches Progress::Warning { target, stage, model, error } ==> {
            &&& target == StageTarget::Page(page) && active ==> {
                let after = progress.warned(warnings, project, active);
                &&& after.dom().contains(page_key(project, page))
                &&& after[page_key(project, page)].stage == stage
                &&& after[page_key(project, page)].model == model
                &&& after[page_key(project, page)].message == error
            }
            &&& !active ==> progress.warned(warnings, project, active) == warnings
        },
        progress is Started || progress is Loading || progress is Running ==> progress.warned(
            warnings,
            project,
            active,
        ) == warnings,
{
}

/// A job counts one step for every stage that is finished, skipped or warned of, and none for one
/// that is loaded or runs. It begins to count when it is told how much there is.
pub proof fn law_every_ended_stage_counts(progress: Progress, counter: Counter)
    requires
        counter.completed < counter.total,
    ensures
        progress is Finished || progress is Skipped || progress is Warning ==> progress.counted(
            counter,
        ).completed == counter.completed + 1 && progress.counted(counter).total == counter.total,
        progress is Loading || progress is Running ==> progress.counted(counter) == counter,
        progress matches Progress::Started { total, .. } ==> progress.counted(counter).completed
            == 0 && progress.counted(counter).total == total,
{
}

/// A job that was stopped is shown as stopped, one that failed as failed, and any other as finished.
pub proof fn law_jobs_end_as_their_run(result: Result<RunStatus, String>)
    ensures
        result is Err <==> end_state(result) == JobState::Failed,
        result == Ok::<RunStatus, String>(RunStatus::Stopped) <==> end_state(result)
            == JobState::Stopped,
        result == Ok::<RunStatus, String>(RunStatus::Completed) <==> end_state(result)
            == JobState::Finished,
{
}

/// The pages of a scope are all of the project, those that were chosen, or that of the region.
pub proof fn law_scopes_cover_their_pages(scope: Scope, pages: Seq<EntityId>, page: EntityId)
    ensures
        scope is Project ==> scope.covered(pages) == pages,
        scope matches Scope::Pages(chosen) ==> (scope.covered(pages).contains(page)
            <==> chosen@.contains(page)),
        scope matches Scope::Region { page: own, .. } ==> (scope.covered(pages).contains(page)
            <==> page == own),
        scope is Entities ==> !scope.covered(pages).contains(page),
{
    if let Scope::Region { page: own, .. } = scope {
        assert(scope.covered(pages)[0] == own);
    }
}

/// Lettering is removed by whatever goes through all stages or names that one.
pub proof fn law_operations_that_remove_lettering(operation: Operation)
    ensures
        operation is Full ==> operation.inpaints(),
        operation matches Operation::Through { stage } ==> (operation.inpaints() <==> stage
            == Stage::Inpainting),
        operation matches Operation::Only { stage } ==> (operation.inpaints() <==> stage
            == Stage::Inpainting),
        operation matches Operation::Stages { stages } ==> (operation.inpaints() <==> exists|i: int|
            0 <= i < stages@.len() && #[trigger] stages@[i] == Stage::Inpainting),
{
}

} // verus!
