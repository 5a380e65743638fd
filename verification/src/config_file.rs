//! The settings of the pipeline as they are stored.

use vstd::prelude::*;

use crate::config::{
    plain_profile, proposed_inpainting, proposed_ocr, used_detection, ApiInpaintingConfig,
    DetectionModel, Flux2KleinConfig, InpaintingConfig, InpaintingMethod, InpaintingProvider,
    KoharuLayoutRFDetrSeg2XLConfig, LocalInpaintingModel, OcrConfig, OcrMethod, OcrModel,
    PipelineConfig, ProcessorConfig, RoremMixedConfig, TranslationConfig, TranslationUnitPolicy,
};
use crate::fal::{
    is_previous_prompt, normalize_cleanup_prompt, ImageEditConfig, InpaintingApplyMode,
    DEFAULT_CLEANUP_PROMPT,
};
use crate::language::Language;
use crate::text::same;
use crate::translator::ModelSelection;

verus! {

/// The stored name of the model that finds text.
pub const DETECTION_MODEL: &'static str = "koharu-layout-rfdetr-seg-2xl";

/// The stored name of the model that removes lettering where none is stored.
pub const LAMA_MODEL: &'static str = "lama";

/// A model as it is stored.
#[derive(Debug)]
pub struct ModelName {
    pub model: String,
}

/// The model that removes lettering where none is stored.
pub fn lama_selection() -> (result: ModelName)
    ensures
        result.model@ == LAMA_MODEL@,
{
    ModelName { model: LAMA_MODEL.to_owned() }
}

/// How lettering is removed, as it is stored.
pub struct InpaintingFile {
    pub method: InpaintingMethod,
    pub local_model: ModelName,
    pub manual_model: ModelName,
    pub api: ApiInpaintingConfig,
}

/// The settings as they are stored.
pub struct PipelineFile {
    pub detection: ModelName,
    pub ocr: OcrConfig,
    pub translation: TranslationConfig,
    pub inpainting: InpaintingFile,
    pub processor: ProcessorConfig,
}

impl Default for InpaintingFile {
    fn default() -> (result: InpaintingFile)
        ensures
            result.method == InpaintingMethod::Local,
            result.local_model.model@ == LAMA_MODEL@,
            result.manual_model.model@ == LAMA_MODEL@,
            proposed_inpainting(result.api),
    {
        InpaintingFile {
            method: InpaintingMethod::Local,
            local_model: lama_selection(),
            manual_model: lama_selection(),
            api: ApiInpaintingConfig::default(),
        }
    }
}

impl PipelineFile {
    /// What is stored where nothing was chosen but the model of translations.
    pub fn standard(model: &ModelSelection) -> (result: PipelineFile)
        ensures
            result.detection.model@ == DETECTION_MODEL@,
            result.ocr.method == OcrMethod::Local,
            result.ocr.local_model == OcrModel::PaddleOcrVl1_6,
            proposed_ocr(result.ocr.api),
            result.translation.source_language == Language::Japanese,
            result.translation.target_language == Language::English,
            plain_profile(result.translation.page, *model, TranslationUnitPolicy::PageOnly),
            plain_profile(result.translation.chapter, *model, TranslationUnitPolicy::AdaptiveV1),
            result.inpainting.method == InpaintingMethod::Local,
            result.inpainting.local_model.model@ == LAMA_MODEL@,
            result.inpainting.manual_model.model@ == LAMA_MODEL@,
            proposed_inpainting(result.inpainting.api),
            result.processor == (ProcessorConfig {
                koharu_layout_rfdetr_seg_2xl: None,
                flux2_klein: None,
                rorem_mixed: None,
                mai_image_2_5_edit: None,
                mai_image_2_5_pro_edit: None,
            }),
    {
        PipelineFile {
            detection: ModelName { model: DETECTION_MODEL.to_owned() },
            ocr: OcrConfig::default(),
            translation: TranslationConfig::standard(model),
            inpainting: InpaintingFile::default(),
            processor: ProcessorConfig::default(),
        }
    }
}

/// The settings of models for which none are stored.
pub struct ProfileDefaults {
    pub flux2_klein: Flux2KleinConfig,
    pub rorem_mixed: RoremMixedConfig,
}

/// The stored name of a model on this machine.
pub open spec fn local_model_name(model: LocalInpaintingModel) -> Seq<char> {
    match model {
        LocalInpaintingModel::LaMa {  } => LAMA_MODEL@,
        LocalInpaintingModel::AotInpainting {  } => "aot-inpainting"@,
        LocalInpaintingModel::Flux2Klein(_) => "flux2-klein"@,
        LocalInpaintingModel::RoremMixed(_) => "rorem-mixed"@,
    }
}

/// The stored name of a model on this machine.
pub fn local_inpainting_model_id(model: &LocalInpaintingModel) -> (result: &'static str)
    ensures
        result@ == local_model_name(*model),
{
    match model {
        LocalInpaintingModel::LaMa {  } => LAMA_MODEL,
        LocalInpaintingModel::AotInpainting {  } => "aot-inpainting",
        LocalInpaintingModel::Flux2Klein(_) => "flux2-klein",
        LocalInpaintingModel::RoremMixed(_) => "rorem-mixed",
    }
}

/// Profiles with that of a model on this machine.
pub open spec fn remembered(processor: ProcessorConfig, model: LocalInpaintingModel) ->
    ProcessorConfig {
    match model {
        LocalInpaintingModel::Flux2Klein(config) => ProcessorConfig {
            flux2_klein: Some(config),
            ..processor
        },
        LocalInpaintingModel::RoremMixed(config) => ProcessorConfig {
            rorem_mixed: Some(config),
            ..processor
        },
        _ => processor,
    }
}

/// Keeps the profile of a model on this machine.
pub fn remember_local_inpainting_profile(
    processor: &mut ProcessorConfig,
    model: &LocalInpaintingModel,
)
    ensures
        *final(processor) == remembered(*old(processor), *model),
{
    match model {
        LocalInpaintingModel::Flux2Klein(config) => {
            processor.flux2_klein = Some(config.clone());
        },
        LocalInpaintingModel::RoremMixed(config) => {
            processor.rorem_mixed = Some(config.clone());
        },
        _ => {},
    }
}

/// The model on this machine with a stored name, or nothing where there is none.
pub open spec fn named_model(
    name: Seq<char>,
    processor: ProcessorConfig,
    defaults: ProfileDefaults,
) -> Option<LocalInpaintingModel> {
    if name == LAMA_MODEL@ {
        Some(LocalInpaintingModel::LaMa {  })
    } else if name == "aot-inpainting"@ {
        Some(LocalInpaintingModel::AotInpainting {  })
    } else if name == "flux2-klein"@ {
        Some(
            LocalInpaintingModel::Flux2Klein(
                match processor.flux2_klein {
                    Some(config) => config,
                    None => defaults.flux2_klein,
                },
            ),
        )
    } else if name == "rorem-mixed"@ {
        Some(
            LocalInpaintingModel::RoremMixed(
                match processor.rorem_mixed {
                    Some(config) => config,
                    None => defaults.rorem_mixed,
                },
            ),
        )
    } else {
        None
    }
}

/// What is told of a stored name that no model on this machine has.
pub open spec fn unsupported_local(name: Seq<char>) -> Seq<char> {
    "unsupported local inpainting model "@ + name
}

/// The model on this machine with a stored name.
pub fn restore_local_inpainting_model(
    model: &str,
    processor: &ProcessorConfig,
    defaults: &ProfileDefaults,
) -> (result: Result<LocalInpaintingModel, String>)
    ensures
        match named_model(model@, *processor, *defaults) {
            Some(found) => result == Ok::<LocalInpaintingModel, String>(found),
            None => result matches Err(message) && message@ == unsupported_local(model@),
        },
{
    if same(model, LAMA_MODEL) {
        Ok(LocalInpaintingModel::LaMa {  })
    } else if same(model, "aot-inpainting") {
        Ok(LocalInpaintingModel::AotInpainting {  })
    } else if same(model, "flux2-klein") {
        let config = match &processor.flux2_klein {
            Some(config) => config.clone(),
            None => defaults.flux2_klein.clone(),
        };
        Ok(LocalInpaintingModel::Flux2Klein(config))
    } else if same(model, "rorem-mixed") {
        let config = match &processor.rorem_mixed {
            Some(config) => config.clone(),
            None => defaults.rorem_mixed.clone(),
        };
        Ok(LocalInpaintingModel::RoremMixed(config))
    } else {
        let mut message = "unsupported local inpainting model ".to_owned();
        message.append(model);
        Err(message)
    }
}

/// The settings of an edit with the current instruction in place of one that was the default at
/// an earlier time.
pub open spec fn renewed(
    prompt: Seq<char>,
    mode: InpaintingApplyMode,
    new_prompt: Seq<char>,
    new_mode: InpaintingApplyMode,
) -> bool {
    if is_previous_prompt(prompt) {
        new_prompt == DEFAULT_CLEANUP_PROMPT@ && new_mode == InpaintingApplyMode::FullPage
    } else {
        new_prompt == prompt && new_mode == mode
    }
}

/// A profile with the current instruction in place of one that was the default at an earlier time.
pub open spec fn renewed_profile(
    profile: Option<ImageEditConfig>,
    after: Option<ImageEditConfig>,
) -> bool {
    match (profile, after) {
        (Some(before), Some(after)) => renewed(
            before.prompt@,
            before.apply_mode,
            after.prompt@,
            after.apply_mode,
        ),
        (None, None) => true,
        _ => false,
    }
}

fn renew_profile(profile: Option<ImageEditConfig>) -> (result: Option<ImageEditConfig>)
    ensures
        renewed_profile(profile, result),
{
    match profile {
        Some(config) => {
            let mut prompt = config.prompt;
            let mut apply_mode = config.apply_mode;
            if normalize_cleanup_prompt(&mut prompt) {
                apply_mode = InpaintingApplyMode::FullPage;
            }
            Some(ImageEditConfig { prompt, apply_mode })
        },
        None => None,
    }
}

/// The profiles as they are used.
pub open spec fn renewed_processor(before: ProcessorConfig, after: ProcessorConfig) -> bool {
    &&& after.koharu_layout_rfdetr_seg_2xl == before.koharu_layout_rfdetr_seg_2xl
    &&& after.flux2_klein == before.flux2_klein
    &&& after.rorem_mixed == before.rorem_mixed
    &&& renewed_profile(before.mai_image_2_5_edit, after.mai_image_2_5_edit)
    &&& renewed_profile(before.mai_image_2_5_pro_edit, after.mai_image_2_5_pro_edit)
}

/// The profile of a model of the service.
pub open spec fn service_profile(
    api: ApiInpaintingConfig,
    processor: ProcessorConfig,
) -> Option<ImageEditConfig> {
    if api.provider != InpaintingProvider::Fal {
        None
    } else if api.model@ == "microsoft/mai-image-2.5/edit"@ {
        processor.mai_image_2_5_edit
    } else if api.model@ == "microsoft/mai-image-2.5-pro/edit"@ {
        processor.mai_image_2_5_pro_edit
    } else {
        None
    }
}

/// How a provider is used: as the profile of its model says, where there is one.
pub open spec fn used_api(
    stored: ApiInpaintingConfig,
    processor: ProcessorConfig,
    api: ApiInpaintingConfig,
) -> bool {
    &&& api.provider == stored.provider
    &&& api.model == stored.model
    &&& match service_profile(stored, processor) {
        Some(profile) => api.prompt@ == profile.prompt@ && api.apply_mode == profile.apply_mode,
        None => renewed(stored.prompt@, stored.apply_mode, api.prompt@, api.apply_mode),
    }
}

fn use_api(stored: ApiInpaintingConfig, processor: &ProcessorConfig) -> (result:
    ApiInpaintingConfig)
    ensures
        used_api(stored, *processor, result),
{
    let provider = stored.provider;
    let model = stored.model;
    let mut prompt = stored.prompt;
    let mut apply_mode = stored.apply_mode;
    if normalize_cleanup_prompt(&mut prompt) {
        apply_mode = InpaintingApplyMode::FullPage;
    }
    if provider == InpaintingProvider::Fal {
        let profile = if same(model.as_str(), "microsoft/mai-image-2.5/edit") {
            &processor.mai_image_2_5_edit
        } else if same(model.as_str(), "microsoft/mai-image-2.5-pro/edit") {
            &processor.mai_image_2_5_pro_edit
        } else {
            &None
        };
        if let Some(profile) = profile {
            prompt = profile.prompt.clone();
            apply_mode = profile.apply_mode;
        }
    }
    ApiInpaintingConfig { provider, model, prompt, apply_mode }
}

/// Why stored settings cannot be used.
pub open spec fn stored_problem(file: PipelineFile, defaults: ProfileDefaults) -> Option<
    Seq<char>,
> {
    if file.detection.model@ != DETECTION_MODEL@ {
        Some("unsupported detection model "@ + file.detection.model@)
    } else if named_model(file.inpainting.local_model.model@, file.processor, defaults) is None {
        Some(unsupported_local(file.inpainting.local_model.model@))
    } else if named_model(file.inpainting.manual_model.model@, file.processor, defaults) is None {
        Some(unsupported_local(file.inpainting.manual_model.model@))
    } else {
        None
    }
}

/// The settings that stored ones stand for.
pub open spec fn stands_for(
    file: PipelineFile,
    defaults: ProfileDefaults,
    config: PipelineConfig,
) -> bool {
    &&& renewed_processor(file.processor, config.processor)
    &&& config.detection == DetectionModel::KoharuLayoutRFDetrSeg2XL(
        match file.processor.koharu_layout_rfdetr_seg_2xl {
            Some(profile) => profile,
            None => KoharuLayoutRFDetrSeg2XLConfig {
                text_threshold: None,
                bubble_threshold: None,
                panel_threshold: None,
            },
        },
    )
    &&& config.ocr == file.ocr
    &&& config.translation == file.translation
    &&& config.inpainting.method == file.inpainting.method
    &&& Some(config.inpainting.local_model) == named_model(
        file.inpainting.local_model.model@,
        file.processor,
        defaults,
    )
    &&& Some(config.inpainting.manual_model) == named_model(
        file.inpainting.manual_model.model@,
        file.processor,
        defaults,
    )
    &&& used_api(file.inpainting.api, config.processor, config.inpainting.api)
}

/// Reads stored settings.
pub fn restore(file: PipelineFile, defaults: &ProfileDefaults) -> (result: Result<
    PipelineConfig,
    String,
>)
    ensures
        match result {
            Ok(config) => stored_problem(file, *defaults) is None && stands_for(
                file,
                *defaults,
                config,
            ),
            Err(message) => stored_problem(file, *defaults) == Some(message@),
        },
{
    let stored = file.processor;
    let processor = ProcessorConfig {
        koharu_layout_rfdetr_seg_2xl: stored.koharu_layout_rfdetr_seg_2xl,
        flux2_klein: stored.flux2_klein,
        rorem_mixed: stored.rorem_mixed,
        mai_image_2_5_edit: renew_profile(stored.mai_image_2_5_edit),
        mai_image_2_5_pro_edit: renew_profile(stored.mai_image_2_5_pro_edit),
    };
    if !same(file.detection.model.as_str(), DETECTION_MODEL) {
        let mut message = "unsupported detection model ".to_owned();
        message.append(file.detection.model.as_str());
        return Err(message);
    }
    let detection = DetectionModel::KoharuLayoutRFDetrSeg2XL(
        match processor.koharu_layout_rfdetr_seg_2xl {
            Some(profile) => profile,
            None => KoharuLayoutRFDetrSeg2XLConfig::default(),
        },
    );
    let local_model = match restore_local_inpainting_model(
        file.inpainting.local_model.model.as_str(),
        &processor,
        defaults,
    ) {
        Ok(model) => model,
        Err(message) => return Err(message),
    };
    let manual_model = match restore_local_inpainting_model(
        file.inpainting.manual_model.model.as_str(),
        &processor,
        defaults,
    ) {
        Ok(model) => model,
        Err(message) => return Err(message),
    };
    let api = use_api(file.inpainting.api, &processor);
    Ok(
        PipelineConfig {
            detection,
            ocr: file.ocr,
            translation: file.translation,
            inpainting: InpaintingConfig {
                method: file.inpainting.method,
                local_model,
                manual_model,
                api,
            },
            processor,
        },
    )
}

/// The profiles that are stored with settings.
pub open spec fn stored_profiles(config: PipelineConfig) -> ProcessorConfig {
    let found = ProcessorConfig {
        koharu_layout_rfdetr_seg_2xl: Some(used_detection(config)),
        ..config.processor
    };
    let kept = remembered(
        remembered(found, config.inpainting.local_model),
        config.inpainting.manual_model,
    );
    let edit = ImageEditConfig {
        prompt: config.inpainting.api.prompt,
        apply_mode: config.inpainting.api.apply_mode,
    };
    if config.inpainting.api.provider != InpaintingProvider::Fal {
        kept
    } else if config.inpainting.api.model@ == "microsoft/mai-image-2.5/edit"@ {
        ProcessorConfig { mai_image_2_5_edit: Some(edit), ..kept }
    } else if config.inpainting.api.model@ == "microsoft/mai-image-2.5-pro/edit"@ {
        ProcessorConfig { mai_image_2_5_pro_edit: Some(edit), ..kept }
    } else {
        kept
    }
}

/// The settings as they are stored.
pub open spec fn is_stored(config: PipelineConfig, file: PipelineFile) -> bool {
    &&& file.detection.model@ == DETECTION_MODEL@
    &&& file.ocr == config.ocr
    &&& file.translation == config.translation
    &&& file.inpainting.method == config.inpainting.method
    &&& file.inpainting.local_model.model@ == local_model_name(config.inpainting.local_model)
    &&& file.inpainting.manual_model.model@ == local_model_name(config.inpainting.manual_model)
    &&& file.inpainting.api == config.inpainting.api
    &&& file.processor == stored_profiles(config)
}

/// Writes settings as they are stored.
pub fn store(config: &PipelineConfig) -> (result: PipelineFile)
    ensures
        is_stored(*config, result),
{
    let mut processor = config.processor.clone();
    let DetectionModel::KoharuLayoutRFDetrSeg2XL(settings) = config.detection;
    if processor.koharu_layout_rfdetr_seg_2xl.is_none() {
        processor.koharu_layout_rfdetr_seg_2xl = Some(settings);
    }
    remember_local_inpainting_profile(&mut processor, &config.inpainting.local_model);
    remember_local_inpainting_profile(&mut processor, &config.inpainting.manual_model);
    let api = &config.inpainting.api;
    if api.provider == InpaintingProvider::Fal {
        let profile = ImageEditConfig { prompt: api.prompt.clone(), apply_mode: api.apply_mode };
        if same(api.model.as_str(), "microsoft/mai-image-2.5/edit") {
            processor.mai_image_2_5_edit = Some(profile);
        } else if same(api.model.as_str(), "microsoft/mai-image-2.5-pro/edit") {
            processor.mai_image_2_5_pro_edit = Some(profile);
        }
    }
    PipelineFile {
        detection: ModelName { model: DETECTION_MODEL.to_owned() },
        ocr: config.ocr.clone(),
        translation: config.translation.clone(),
        inpainting: InpaintingFile {
            method: config.inpainting.method,
            local_model: ModelName {
                model: local_inpainting_model_id(&config.inpainting.local_model).to_owned(),
            },
            manual_model: ModelName {
                model: local_inpainting_model_id(&config.inpainting.manual_model).to_owned(),
            },
            api: config.inpainting.api.clone(),
        },
        processor,
    }
}

proof fn lemma_names_differ()
    ensures
        LAMA_MODEL@ != "aot-inpainting"@,
        LAMA_MODEL@ != "flux2-klein"@,
        LAMA_MODEL@ != "rorem-mixed"@,
        "aot-inpainting"@ != "flux2-klein"@,
        "aot-inpainting"@ != "rorem-mixed"@,
        "flux2-klein"@ != "rorem-mixed"@,
{
    reveal_strlit("lama");
    reveal_strlit("aot-inpainting");
    reveal_strlit("flux2-klein");
    reveal_strlit("rorem-mixed");
    assert("aot-inpainting"@[0] == 'a');
    assert("flux2-klein"@[0] == 'f');
    assert("rorem-mixed"@[0] == 'r');
    assert(LAMA_MODEL@[0] == 'l');
}

/// Settings that were stored are read as they were: the same detection is used, text is read and
/// translated as before, and lettering is removed by the same models in the same way. This leaves
/// out settings with an instruction that was the default at an earlier time, which is renewed, and
/// those that use one model on this machine with two different profiles, of which one is kept.
pub proof fn law_stored_settings_are_restored(
    config: PipelineConfig,
    file: PipelineFile,
    defaults: ProfileDefaults,
    restored: PipelineConfig,
)
    requires
        is_stored(config, file),
        !is_previous_prompt(config.inpainting.api.prompt@),
        local_model_name(config.inpainting.local_model) == local_model_name(
            config.inpainting.manual_model,
        ) ==> config.inpainting.local_model == config.inpainting.manual_model,
    ensures
        stored_problem(file, defaults) is None,
        stands_for(file, defaults, restored) ==> {
            &&& used_detection(restored) == used_detection(config)
            &&& restored.ocr == config.ocr
            &&& restored.translation == config.translation
            &&& restored.inpainting.method == config.inpainting.method
            &&& restored.inpainting.local_model == config.inpainting.local_model
            &&& restored.inpainting.manual_model == config.inpainting.manual_model
            &&& restored.inpainting.api.provider == config.inpainting.api.provider
            &&& restored.inpainting.api.model == config.inpainting.api.model
            &&& restored.inpainting.api.prompt@ == config.inpainting.api.prompt@
            &&& restored.inpainting.api.apply_mode == config.inpainting.api.apply_mode
        },
{
    lemma_names_differ();
}

/// Keeping the settings of a model on this machine keeps these, and leaves those of every other model
/// alone.
pub proof fn law_profiles_are_kept_apart(processor: ProcessorConfig, model: LocalInpaintingModel)
    ensures
        model matches LocalInpaintingModel::Flux2Klein(settings) ==> remembered(
            processor,
            model,
        ).flux2_klein == Some(settings),
        model matches LocalInpaintingModel::RoremMixed(settings) ==> remembered(
            processor,
            model,
        ).rorem_mixed == Some(settings),
        !(model is Flux2Klein) ==> remembered(processor, model).flux2_klein
            == processor.flux2_klein,
        !(model is RoremMixed) ==> remembered(processor, model).rorem_mixed
            == processor.rorem_mixed,
        remembered(processor, model).koharu_layout_rfdetr_seg_2xl
            == processor.koharu_layout_rfdetr_seg_2xl,
        remembered(processor, model).mai_image_2_5_edit == processor.mai_image_2_5_edit,
        remembered(processor, model).mai_image_2_5_pro_edit == processor.mai_image_2_5_pro_edit,
{
}

/// A model on this machine is found again under the name that it is stored by, with the settings
/// that were kept for it.
pub proof fn law_local_models_are_found_by_their_names(
    processor: ProcessorConfig,
    model: LocalInpaintingModel,
    defaults: ProfileDefaults,
)
    ensures
        named_model(local_model_name(model), remembered(processor, model), defaults) == Some(model),
{
    lemma_names_differ();
}

/// An instruction that was the default once is replaced by the current one and the whole page is
/// then replaced. Any other stays as it is, with the way in which it is applied.
pub proof fn law_only_old_defaults_are_renewed(
    before: ImageEditConfig,
    after: Option<ImageEditConfig>,
)
    requires
        renewed_profile(Some(before), after),
    ensures
        after matches Some(used) && {
            &&& !is_previous_prompt(before.prompt@) ==> used.prompt@ == before.prompt@
                && used.apply_mode == before.apply_mode
            &&& is_previous_prompt(before.prompt@) ==> used.prompt@ == DEFAULT_CLEANUP_PROMPT@
                && used.apply_mode == InpaintingApplyMode::FullPage
        },
{
}

/// A file is refused exactly if it names a model that is not known: for detection, or for lettering
/// on this machine, in the pipeline or by hand.
pub proof fn law_files_with_unknown_models_are_refused(
    file: PipelineFile,
    defaults: ProfileDefaults,
)
    ensures
        stored_problem(file, defaults) is None <==> {
            &&& file.detection.model@ == "koharu-layout-rfdetr-seg-2xl"@
            &&& known_local(file.inpainting.local_model.model@)
            &&& known_local(file.inpainting.manual_model.model@)
        },
{
}

/// The name of a model on this machine.
pub open spec fn known_local(name: Seq<char>) -> bool {
    ||| name == "lama"@
    ||| name == "aot-inpainting"@
    ||| name == "flux2-klein"@
    ||| name == "rorem-mixed"@
}

} // verus!
