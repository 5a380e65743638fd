//! The processors of the stages, and the models that can be chosen for one of them.

use vstd::prelude::*;

use crate::config::{
    automatic_inpainting, local_inpainting, unknown_fal_model, InpaintingModel,
    InpaintingModelChoice, InpaintingProvider, PipelineConfig, TranslationConfig,
    TranslationProfile,
};
use crate::fal::ImageEditConfig;
use crate::image_catalog::OpenRouterImageModelChoice;
use crate::stage::{Stage, StageTarget};
use crate::text::same;
use crate::translator::Provider;

verus! {

/// A model that can be chosen, as plain values.
pub type ChoiceView = (InpaintingProvider, Seq<char>, Seq<char>);

/// What can be chosen, as plain values.
pub open spec fn choice_views(choices: Seq<InpaintingModelChoice>) -> Seq<ChoiceView> {
    choices.map_values(
        |choice: InpaintingModelChoice| (choice.provider, choice.model@, choice.name@),
    )
}

/// The models that can always be chosen.
pub open spec fn pinned_choices() -> Seq<ChoiceView> {
    seq![
        (
            InpaintingProvider::Fal,
            "microsoft/mai-image-2.5/edit"@,
            "Microsoft MAI Image 2.5 Edit"@,
        ),
        (
            InpaintingProvider::Fal,
            "microsoft/mai-image-2.5-pro/edit"@,
            "Microsoft MAI Image 2.5 Pro Edit"@,
        ),
        (InpaintingProvider::OpenRouter, "microsoft/mai-image-2.5"@, "Microsoft MAI Image 2.5"@),
        (
            InpaintingProvider::OpenRouter,
            "microsoft/mai-image-2.5-pro"@,
            "Microsoft MAI Image 2.5 Pro"@,
        ),
    ]
}

/// A model of OpenRouter is among those that can be chosen.
pub open spec fn offers(choices: Seq<ChoiceView>, model: Seq<char>) -> bool {
    exists|i: int|
        0 <= i < choices.len() && (#[trigger] choices[i]).0 == InpaintingProvider::OpenRouter
            && choices[i].1 == model
}

/// The models that can be chosen, with the first of those that were found: each of them once.
pub open spec fn merged_choices(discovered: Seq<OpenRouterImageModelChoice>) -> Seq<ChoiceView>
    decreases discovered.len(),
{
    if discovered.len() == 0 {
        pinned_choices()
    } else {
        let before = merged_choices(discovered.drop_last());
        let last = discovered.last();
        if offers(before, last.model@) {
            before
        } else {
            before.push((InpaintingProvider::OpenRouter, last.model@, last.name@))
        }
    }
}

fn choice(provider: InpaintingProvider, model: &str, name: &str) -> (result: InpaintingModelChoice)
    ensures
        result.provider == provider,
        result.model@ == model@,
        result.name@ == name@,
{
    InpaintingModelChoice { provider, model: model.to_owned(), name: name.to_owned() }
}

/// The models that can be chosen to remove lettering, with those that were found.
pub fn merge_inpainting_models(discovered: &Vec<OpenRouterImageModelChoice>) -> (result: Vec<
    InpaintingModelChoice,
>)
    ensures
        choice_views(result@) == merged_choices(discovered@),
{
    let mut models: Vec<InpaintingModelChoice> = Vec::new();
    models.push(
        choice(
            InpaintingProvider::Fal,
            "microsoft/mai-image-2.5/edit",
            "Microsoft MAI Image 2.5 Edit",
        ),
    );
    models.push(
        choice(
            InpaintingProvider::Fal,
            "microsoft/mai-image-2.5-pro/edit",
            "Microsoft MAI Image 2.5 Pro Edit",
        ),
    );
    models.push(
        choice(
            InpaintingProvider::OpenRouter,
            "microsoft/mai-image-2.5",
            "Microsoft MAI Image 2.5",
        ),
    );
    models.push(
        choice(
            InpaintingProvider::OpenRouter,
            "microsoft/mai-image-2.5-pro",
            "Microsoft MAI Image 2.5 Pro",
        ),
    );
    let mut index: usize = 0;
    proof {
        assert(choice_views(models@) =~= pinned_choices());
        assert(discovered@.take(0) =~= Seq::empty());
    }
    while index < discovered.len()
        invariant
            index <= discovered.len(),
            choice_views(models@) == merged_choices(discovered@.take(index as int)),
        decreases discovered.len() - index,
    {
        let found = &discovered[index];
        let ghost before = models@;
        proof {
            let longer = discovered@.take(index as int + 1);
            assert(longer.drop_last() =~= discovered@.take(index as int));
            assert(longer.last() == discovered@[index as int]);
        }
        if !offered(&models, found.model.as_str()) {
            models.push(
                choice(InpaintingProvider::OpenRouter, found.model.as_str(), found.name.as_str()),
            );
            proof {
                assert(choice_views(models@) =~= choice_views(before).push(
                    (InpaintingProvider::OpenRouter, found.model@, found.name@),
                ));
            }
        }
        index += 1;
    }
    proof {
        assert(discovered@.take(index as int) =~= discovered@);
    }
    models
}

fn offered(choices: &Vec<InpaintingModelChoice>, model: &str) -> (result: bool)
    ensures
        result == offers(choice_views(choices@), model@),
{
    let ghost views = choice_views(choices@);
    let mut index: usize = 0;
    while index < choices.len()
        invariant
            index <= choices.len(),
            views == choice_views(choices@),
            forall|i: int|
                0 <= i < index ==> !((#[trigger] views[i]).0 == InpaintingProvider::OpenRouter
                    && views[i].1 == model@),
        decreases choices.len() - index,
    {
        if choices[index].provider == InpaintingProvider::OpenRouter && same(
            choices[index].model.as_str(),
            model,
        ) {
            assert(views[index as int].1 == model@);
            return true;
        }
        index += 1;
    }
    false
}

/// No model of OpenRouter is offered twice, and every one that was found is offered.
pub proof fn law_models_are_offered_once(discovered: Seq<OpenRouterImageModelChoice>)
    ensures
        forall|i: int, j: int|
            0 <= i < j < merged_choices(discovered).len() && (#[trigger] merged_choices(
                discovered,
            )[i]).0 == InpaintingProvider::OpenRouter && (#[trigger] merged_choices(
                discovered,
            )[j]).0 == InpaintingProvider::OpenRouter ==> merged_choices(discovered)[i].1
                != merged_choices(discovered)[j].1,
        forall|i: int|
            0 <= i < discovered.len() ==> offers(
                merged_choices(discovered),
                (#[trigger] discovered[i]).model@,
            ),
        merged_choices(discovered).len() >= 4,
        merged_choices(discovered).take(4) == pinned_choices(),
    decreases discovered.len(),
{
    let all = merged_choices(discovered);
    if discovered.len() == 0 {
        reveal_strlit("microsoft/mai-image-2.5");
        reveal_strlit("microsoft/mai-image-2.5-pro");
        assert(all[2].1.len() != all[3].1.len());
        assert(all.take(4) =~= pinned_choices());
    } else {
        law_models_are_offered_once(discovered.drop_last());
        let before = merged_choices(discovered.drop_last());
        let last = discovered.last();
        assert(all.take(4) =~= before.take(4));
        assert forall|i: int| 0 <= i < discovered.len() implies offers(
            all,
            (#[trigger] discovered[i]).model@,
        ) by {
            if i < discovered.len() - 1 {
                assert(discovered.drop_last()[i] == discovered[i]);
                assert(offers(before, discovered[i].model@));
                let k = choose|k: int|
                    0 <= k < before.len() && (#[trigger] before[k]).0
                        == InpaintingProvider::OpenRouter && before[k].1 == discovered[i].model@;
                assert(all[k] == before[k]);
            } else if !offers(before, last.model@) {
                assert(all[all.len() - 1].1 == last.model@);
            }
        }
        assert forall|i: int, j: int|
            0 <= i < j < all.len() && (#[trigger] all[i]).0 == InpaintingProvider::OpenRouter && (
            #[trigger] all[j]).0 == InpaintingProvider::OpenRouter implies all[i].1
            != all[j].1 by {
            if j < before.len() {
                assert(all[i] == before[i] && all[j] == before[j]);
            } else {
                assert(all[i] == before[i]);
                if before[i].1 == last.model@ {
                    assert(offers(before, last.model@));
                }
            }
        }
    }
}

/// What processes a stage.
#[derive(Clone, Copy, Debug, PartialEq, Eq, Structural)]
pub enum ProcessorSlot {
    Detection,
    Ocr,
    Translation,
    Inpainting,
    ManualInpainting,
}

/// The processors of the stages: lettering may be removed by one model in the pipeline and by
/// another by hand.
#[derive(Debug)]
pub struct Stages {
    pub inpainting: InpaintingModel,
    pub manual_inpainting: Option<InpaintingModel>,
}

/// The settings of an edit as plain values.
pub open spec fn edit_view(config: ImageEditConfig) -> (
    Seq<char>,
    crate::fal::InpaintingApplyMode,
) {
    (config.prompt@, config.apply_mode)
}

/// Two models with their settings are the same.
pub open spec fn same_inpainting(left: InpaintingModel, right: InpaintingModel) -> bool {
    match (left, right) {
        (InpaintingModel::LaMa {  }, InpaintingModel::LaMa {  }) => true,
        (InpaintingModel::AotInpainting {  }, InpaintingModel::AotInpainting {  }) => true,
        (InpaintingModel::Flux2Klein(left), InpaintingModel::Flux2Klein(right)) => left.prompt@
            == right.prompt@,
        (InpaintingModel::RoremMixed(left), InpaintingModel::RoremMixed(right)) => left.prompt@
            == right.prompt@ && left.negative_prompt@ == right.negative_prompt@,
        (InpaintingModel::MaiImage2_5Edit(left), InpaintingModel::MaiImage2_5Edit(right)) =>
            edit_view(left) == edit_view(right),
        (InpaintingModel::MaiImage2_5ProEdit(left), InpaintingModel::MaiImage2_5ProEdit(right)) =>
            edit_view(left) == edit_view(right),
        (
            InpaintingModel::OpenRouterImageEdit { model: left_model, config: left },
            InpaintingModel::OpenRouterImageEdit { model: right_model, config: right },
        ) => left_model@ == right_model@ && edit_view(left) == edit_view(right),
        _ => false,
    }
}

fn same_edit(left: &ImageEditConfig, right: &ImageEditConfig) -> (result: bool)
    ensures
        result == (edit_view(*left) == edit_view(*right)),
{
    same(left.prompt.as_str(), right.prompt.as_str()) && left.apply_mode == right.apply_mode
}

fn same_model(left: &InpaintingModel, right: &InpaintingModel) -> (result: bool)
    ensures
        result == same_inpainting(*left, *right),
{
    match (left, right) {
        (InpaintingModel::LaMa {  }, InpaintingModel::LaMa {  }) => true,
        (InpaintingModel::AotInpainting {  }, InpaintingModel::AotInpainting {  }) => true,
        (InpaintingModel::Flux2Klein(left), InpaintingModel::Flux2Klein(right)) => same(
            left.prompt.as_str(),
            right.prompt.as_str(),
        ),
        (InpaintingModel::RoremMixed(left), InpaintingModel::RoremMixed(right)) => same(
            left.prompt.as_str(),
            right.prompt.as_str(),
        ) && same(left.negative_prompt.as_str(), right.negative_prompt.as_str()),
        (InpaintingModel::MaiImage2_5Edit(left), InpaintingModel::MaiImage2_5Edit(right)) =>
            same_edit(left, right),
        (InpaintingModel::MaiImage2_5ProEdit(left), InpaintingModel::MaiImage2_5ProEdit(right)) =>
            same_edit(left, right),
        (
            InpaintingModel::OpenRouterImageEdit { model: left_model, config: left },
            InpaintingModel::OpenRouterImageEdit { model: right_model, config: right },
        ) => same(left_model.as_str(), right_model.as_str()) && same_edit(left, right),
        _ => false,
    }
}

impl Stages {
    /// The processors that settings ask for: a second one for lettering that is removed by hand,
    /// where that is done otherwise.
    pub fn new(config: &PipelineConfig) -> (result: Result<Stages, String>)
        ensures
            match result {
                Ok(stages) => {
                    let manual = local_inpainting(
                        config.inpainting.manual_model,
                        config.processor,
                    );
                    &&& automatic_inpainting(
                        config.inpainting,
                        config.processor,
                        Ok::<InpaintingModel, String>(stages.inpainting),
                    )
                    &&& stages.manual_inpainting == (if same_inpainting(
                        manual,
                        stages.inpainting,
                    ) {
                        None
                    } else {
                        Some(manual)
                    })
                },
                Err(message) => unknown_fal_model(config.inpainting) && automatic_inpainting(
                    config.inpainting,
                    config.processor,
                    Err::<InpaintingModel, String>(message),
                ),
            },
    {
        let inpainting = match config.inpainting() {
            Ok(model) => model,
            Err(message) => return Err(message),
        };
        let manual = config.manual_inpainting();
        let manual_inpainting = if same_model(&manual, &inpainting) {
            None
        } else {
            Some(manual)
        };
        Ok(Stages { inpainting, manual_inpainting })
    }

    /// The processor of a stage, given whether lettering is removed by hand.
    pub fn processor(&self, stage: Stage, by_hand: bool) -> (result: ProcessorSlot)
        ensures
            result == (match stage {
                Stage::Detection => ProcessorSlot::Detection,
                Stage::Ocr => ProcessorSlot::Ocr,
                Stage::Translation => ProcessorSlot::Translation,
                Stage::Inpainting => if by_hand && self.manual_inpainting is Some {
                    ProcessorSlot::ManualInpainting
                } else {
                    ProcessorSlot::Inpainting
                },
            }),
    {
        match stage {
            Stage::Detection => ProcessorSlot::Detection,
            Stage::Ocr => ProcessorSlot::Ocr,
            Stage::Translation => ProcessorSlot::Translation,
            Stage::Inpainting => if by_hand && self.manual_inpainting.is_some() {
                ProcessorSlot::ManualInpainting
            } else {
                ProcessorSlot::Inpainting
            },
        }
    }

    /// The processors whose models are unloaded with a stage, in order: all of them, whatever the
    /// first ones answer.
    pub fn unload(&self, stage: Stage) -> (result: Vec<ProcessorSlot>)
        ensures
            result@ == (match stage {
                Stage::Detection => seq![ProcessorSlot::Detection],
                Stage::Ocr => seq![ProcessorSlot::Ocr],
                Stage::Translation => seq![ProcessorSlot::Translation],
                Stage::Inpainting => if self.manual_inpainting is Some {
                    seq![ProcessorSlot::Inpainting, ProcessorSlot::ManualInpainting]
                } else {
                    seq![ProcessorSlot::Inpainting]
                },
            }),
    {
        let mut result: Vec<ProcessorSlot> = Vec::new();
        match stage {
            Stage::Detection => result.push(ProcessorSlot::Detection),
            Stage::Ocr => result.push(ProcessorSlot::Ocr),
            Stage::Translation => result.push(ProcessorSlot::Translation),
            Stage::Inpainting => {
                result.push(ProcessorSlot::Inpainting);
                if self.manual_inpainting.is_some() {
                    result.push(ProcessorSlot::ManualInpainting);
                }
            },
        }
        proof {
            match stage {
                Stage::Detection => {
                    assert(result@ =~= seq![ProcessorSlot::Detection]);
                },
                Stage::Ocr => {
                    assert(result@ =~= seq![ProcessorSlot::Ocr]);
                },
                Stage::Translation => {
                    assert(result@ =~= seq![ProcessorSlot::Translation]);
                },
                Stage::Inpainting => {
                    if self.manual_inpainting is Some {
                        assert(result@ =~= seq![
                            ProcessorSlot::Inpainting,
                            ProcessorSlot::ManualInpainting,
                        ]);
                    } else {
                        assert(result@ =~= seq![ProcessorSlot::Inpainting]);
                    }
                },
            }
        }
        result
    }
}

/// The profile with which a target is translated.
pub fn translation_profile<'a>(config: &'a TranslationConfig, target: StageTarget) -> (result:
    &'a TranslationProfile)
    ensures
        *result == (match target {
            StageTarget::Page(_) => config.page,
            StageTarget::Chapter => config.chapter,
        }),
{
    match target {
        StageTarget::Page(_) => &config.page,
        StageTarget::Chapter => &config.chapter,
    }
}

/// Whether room can be made for the model that translates a target.
pub fn translation_recovers(config: &TranslationConfig, target: StageTarget) -> (result: bool)
    ensures
        result == ((match target {
            StageTarget::Page(_) => config.page,
            StageTarget::Chapter => config.chapter,
        }).model.provider == Provider::Local),
{
    translation_profile(config, target).model.provider == Provider::Local
}

/// Whether the models of a stage were unloaded, given what its processors answered: one of them
/// had a model to unload.
pub fn unloaded(answers: &Vec<bool>) -> (result: bool)
    ensures
        result == answers@.contains(true),
{
    let mut index: usize = 0;
    while index < answers.len()
        invariant
            index <= answers.len(),
            forall|i: int| 0 <= i < index ==> !(#[trigger] answers@[i]),
        decreases answers.len() - index,
    {
        if answers[index] {
            return true;
        }
        index += 1;
    }
    false
}

/// The models that are found come behind those that can always be chosen, and each model that was
/// found can be chosen.
pub proof fn law_found_models_can_be_chosen(
    discovered: Seq<OpenRouterImageModelChoice>,
    at: int,
)
    requires
        0 <= at < discovered.len(),
    ensures
        offers(merged_choices(discovered), discovered[at].model@),
        merged_choices(discovered).len() >= 4,
        merged_choices(discovered).take(4) == pinned_choices(),
        merged_choices(discovered).len() <= 4 + discovered.len(),
    decreases discovered.len(),
{
    let rest = discovered.drop_last();
    let before = merged_choices(rest);
    let after = merged_choices(discovered);
    if rest.len() > 0 {
        law_found_models_can_be_chosen(
            rest,
            if at < rest.len() {
                at
            } else {
                0
            },
        );
    } else {
        assert(before =~= pinned_choices());
        assert(before.take(4) =~= before);
    }
    assert(after.take(4) =~= before.take(4));
    if !offers(before, discovered.last().model@) {
        assert(after[before.len() as int].1 == discovered.last().model@);
        if at < rest.len() {
            assert(offers(before, discovered[at].model@));
            let k = choose|k: int|
                0 <= k < before.len() && (#[trigger] before[k]).0 == InpaintingProvider::OpenRouter
                    && before[k].1 == discovered[at].model@;
            assert(after[k] == before[k]);
        }
    }
}

/// Whether two models are the same does not depend on which of them is looked at first, every model
/// is the same as itself, and two with different instructions are not.
pub proof fn law_models_are_compared_by_their_settings(
    left: InpaintingModel,
    right: InpaintingModel,
)
    ensures
        same_inpainting(left, left),
        same_inpainting(left, right) == same_inpainting(right, left),
        same_inpainting(left, right) ==> {
            &&& left is LaMa == right is LaMa
            &&& left is AotInpainting == right is AotInpainting
            &&& left matches InpaintingModel::Flux2Klein(one)
                ==> (right matches InpaintingModel::Flux2Klein(other) && one.prompt@
                == other.prompt@)
            &&& left matches InpaintingModel::RoremMixed(one)
                ==> (right matches InpaintingModel::RoremMixed(other) && one.prompt@
                == other.prompt@ && one.negative_prompt@ == other.negative_prompt@)
            &&& left matches InpaintingModel::MaiImage2_5Edit(one)
                ==> (right matches InpaintingModel::MaiImage2_5Edit(other) && one.prompt@
                == other.prompt@ && one.apply_mode == other.apply_mode)
            &&& left matches InpaintingModel::MaiImage2_5ProEdit(one)
                ==> (right matches InpaintingModel::MaiImage2_5ProEdit(other) && one.prompt@
                == other.prompt@ && one.apply_mode == other.apply_mode)
            &&& left matches InpaintingModel::OpenRouterImageEdit { model, config }
                ==> (right matches InpaintingModel::OpenRouterImageEdit {
                model: other_model,
                config: other,
            } && model@ == other_model@ && config.prompt@ == other.prompt@ && config.apply_mode
                == other.apply_mode)
        },
{
}

} // verus!
