//! The stages of the pipeline and what they run on.

use vstd::prelude::*;

use crate::text;

verus! {

/// Identifies a page or another entity of a scene.
#[derive(Clone, Copy, Debug, PartialEq, Eq, PartialOrd, Ord, Hash, Structural)]
pub struct EntityId(pub u128);

/// A step of the pipeline, in the order in which a page passes through them.
#[derive(Clone, Copy, Debug, PartialEq, Eq, PartialOrd, Ord, Hash, Structural)]
pub enum Stage {
    Detection,
    Ocr,
    Translation,
    Inpainting,
}

impl Stage {
    pub const ALL: [Stage; 4] = [
        Stage::Detection,
        Stage::Ocr,
        Stage::Translation,
        Stage::Inpainting,
    ];

    /// The place of a stage in the order of the stages.
    pub open spec fn order(self) -> int {
        match self {
            Stage::Detection => 0,
            Stage::Ocr => 1,
            Stage::Translation => 2,
            Stage::Inpainting => 3,
        }
    }

    pub fn rank(self) -> (result: u8)
        ensures
            result == self.order(),
    {
        match self {
            Stage::Detection => 0,
            Stage::Ocr => 1,
            Stage::Translation => 2,
            Stage::Inpainting => 3,
        }
    }

    /// The name under which a stage is written down.
    pub open spec fn text(self) -> Seq<char> {
        match self {
            Stage::Detection => "detection"@,
            Stage::Ocr => "ocr"@,
            Stage::Translation => "translation"@,
            Stage::Inpainting => "inpainting"@,
        }
    }

    pub fn name(self) -> (result: &'static str)
        ensures
            result@ == self.text(),
    {
        match self {
            Stage::Detection => "detection",
            Stage::Ocr => "ocr",
            Stage::Translation => "translation",
            Stage::Inpainting => "inpainting",
        }
    }

    /// The stage that must be finished on a page before this one starts there.
    pub open spec fn required(self) -> Option<Stage> {
        match self {
            Stage::Detection => None,
            Stage::Ocr => Some(Stage::Detection),
            Stage::Inpainting => Some(Stage::Detection),
            Stage::Translation => Some(Stage::Ocr),
        }
    }
}

/// What one run of a stage works on.
#[derive(Clone, Copy, Debug, PartialEq, Eq, Structural)]
pub enum StageTarget {
    Page(EntityId),
    Chapter,
}

impl StageTarget {
    pub open spec fn target_page(self) -> Option<EntityId> {
        match self {
            StageTarget::Page(page) => Some(page),
            StageTarget::Chapter => None,
        }
    }

    /// The page of the target, if it is one page.
    pub fn page(self) -> (result: Option<EntityId>)
        ensures
            result == self.target_page(),
    {
        match self {
            StageTarget::Page(page) => Some(page),
            StageTarget::Chapter => None,
        }
    }

    pub open spec fn label(self, page: Seq<char>) -> Seq<char> {
        match self {
            StageTarget::Page(_) => "page "@ + page,
            StageTarget::Chapter => "chapter"@,
        }
    }

    /// How the target is called in messages; `page` is the text of the page's identifier.
    pub fn describe(self, page: &str) -> (result: String)
        ensures
            result@ == self.label(page@),
    {
        match self {
            StageTarget::Page(_) => {
                let mut result = "page ".to_owned();
                result.append(page);
                result
            },
            StageTarget::Chapter => "chapter".to_owned(),
        }
    }
}

/// A set of stages.
#[derive(Clone, Copy, Debug, PartialEq, Eq, Structural)]
pub struct StageSet {
    detection: bool,
    ocr: bool,
    translation: bool,
    inpainting: bool,
}

impl View for StageSet {
    type V = Set<Stage>;

    closed spec fn view(&self) -> Set<Stage> {
        Set::new(
            |stage: Stage|
                match stage {
                    Stage::Detection => self.detection,
                    Stage::Ocr => self.ocr,
                    Stage::Translation => self.translation,
                    Stage::Inpainting => self.inpainting,
                },
        )
    }
}

impl StageSet {
    pub fn new() -> (result: StageSet)
        ensures
            result@ == Set::<Stage>::empty(),
    {
        StageSet { detection: false, ocr: false, translation: false, inpainting: false }
    }

    pub fn contains(&self, stage: Stage) -> (result: bool)
        ensures
            result == self@.contains(stage),
    {
        match stage {
            Stage::Detection => self.detection,
            Stage::Ocr => self.ocr,
            Stage::Translation => self.translation,
            Stage::Inpainting => self.inpainting,
        }
    }

    fn put(&mut self, stage: Stage, present: bool)
        ensures
            final(self)@ == if present {
                old(self)@.insert(stage)
            } else {
                old(self)@.remove(stage)
            },
    {
        match stage {
            Stage::Detection => {
                self.detection = present;
            },
            Stage::Ocr => {
                self.ocr = present;
            },
            Stage::Translation => {
                self.translation = present;
            },
            Stage::Inpainting => {
                self.inpainting = present;
            },
        }
    }

    pub fn insert(&mut self, stage: Stage)
        ensures
            final(self)@ == old(self)@.insert(stage),
    {
        self.put(stage, true);
    }

    pub fn remove(&mut self, stage: Stage)
        ensures
            final(self)@ == old(self)@.remove(stage),
    {
        self.put(stage, false);
    }
}

/// The stage that must be finished on a page before `stage` starts there.
pub fn prerequisite(stage: Stage) -> (result: Option<Stage>)
    ensures
        result == stage.required(),
{
    match stage {
        Stage::Detection => None,
        Stage::Ocr => Some(Stage::Detection),
        Stage::Inpainting => Some(Stage::Detection),
        Stage::Translation => Some(Stage::Ocr),
    }
}

/// A page is detected before anything else. Its text is read before it is translated, and its
/// lettering is removed after detection alone. A stage only ever needs an earlier one.
pub proof fn law_stages_need_earlier_ones(stage: Stage)
    ensures
        stage.required() is None <==> stage == Stage::Detection,
        stage.required() matches Some(needed) ==> needed.order() < stage.order(),
        Stage::Translation.required() == Some(Stage::Ocr),
        Stage::Ocr.required() == Some(Stage::Detection),
        Stage::Inpainting.required() == Some(Stage::Detection),
{
}

/// The stages come one after the other, and no two have the same place or the same name.
pub proof fn law_stages_are_told_apart(left: Stage, right: Stage)
    ensures
        left.order() == right.order() <==> left == right,
        left.text() == right.text() <==> left == right,
        Stage::Detection.order() < Stage::Ocr.order() < Stage::Translation.order()
            < Stage::Inpainting.order(),
{
    reveal_strlit("detection");
    reveal_strlit("ocr");
    reveal_strlit("translation");
    reveal_strlit("inpainting");
    assert("detection"@.len() == 9 && "ocr"@.len() == 3 && "translation"@.len() == 11
        && "inpainting"@.len() == 10);
}

} // verus!
