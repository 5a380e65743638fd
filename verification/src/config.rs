//! The settings of the pipeline.

use vstd::prelude::*;

use crate::bits::{is_fraction, single_order, within_fraction};
use crate::fal::{ImageEditConfig, InpaintingApplyMode, DEFAULT_CLEANUP_PROMPT};
use crate::language::Language;
use crate::text::{
    contains, copy_text, is_space, law_trimmed_stands_in_the_text, occurs, occurs_at, same, trim,
    trimmed,
};
use crate::translator::{GenerationConfig, ModelSelection, Provider};

verus! {

/// How sure the detection has to be; each threshold is held by its bits.
#[derive(Clone, Copy, Debug, PartialEq, Eq, Structural)]
pub struct KoharuLayoutRFDetrSeg2XLConfig {
    pub text_threshold: Option<u32>,
    pub bubble_threshold: Option<u32>,
    pub panel_threshold: Option<u32>,
}

impl Default for KoharuLayoutRFDetrSeg2XLConfig {
    fn default() -> (result: KoharuLayoutRFDetrSeg2XLConfig)
        ensures
            result == (KoharuLayoutRFDetrSeg2XLConfig {
                text_threshold: None,
                bubble_threshold: None,
                panel_threshold: None,
            }),
    {
        KoharuLayoutRFDetrSeg2XLConfig {
            text_threshold: None,
            bubble_threshold: None,
            panel_threshold: None,
        }
    }
}

/// A threshold that can be used: one between zero and one.
pub open spec fn usable_threshold(threshold: Option<u32>) -> Option<u32> {
    match threshold {
        Some(bits) => if is_fraction(bits) {
            Some(bits)
        } else {
            None
        },
        None => None,
    }
}

fn use_threshold(threshold: Option<u32>) -> (result: Option<u32>)
    ensures
        result == usable_threshold(threshold),
{
    match threshold {
        Some(bits) => if within_fraction(bits) {
            Some(bits)
        } else {
            None
        },
        None => None,
    }
}

impl KoharuLayoutRFDetrSeg2XLConfig {
    /// The settings without thresholds that cannot be used.
    pub fn usable(self) -> (result: KoharuLayoutRFDetrSeg2XLConfig)
        ensures
            result.text_threshold == usable_threshold(self.text_threshold),
            result.bubble_threshold == usable_threshold(self.bubble_threshold),
            result.panel_threshold == usable_threshold(self.panel_threshold),
    {
        KoharuLayoutRFDetrSeg2XLConfig {
            text_threshold: use_threshold(self.text_threshold),
            bubble_threshold: use_threshold(self.bubble_threshold),
            panel_threshold: use_threshold(self.panel_threshold),
        }
    }
}

/// The model that finds text, bubbles and panels.
#[derive(Clone, Copy, Debug, PartialEq, Eq, Structural)]
pub enum DetectionModel {
    KoharuLayoutRFDetrSeg2XL(KoharuLayoutRFDetrSeg2XLConfig),
}

/// The models that read text on this machine.
#[derive(Clone, Copy, Debug, PartialEq, Eq, Structural)]
pub enum OcrModel {
    PaddleOcrVl1_6,
    MangaOcr,
    BaberuOcr,
}

/// Where text is read.
#[derive(Clone, Copy, Debug, PartialEq, Eq, Structural)]
pub enum OcrMethod {
    Local,
    Api,
}

impl Default for OcrMethod {
    fn default() -> (result: OcrMethod)
        ensures
            result == OcrMethod::Local,
    {
        OcrMethod::Local
    }
}

/// How text is read by a provider.
#[derive(Debug)]
pub struct ApiOcrConfig {
    pub model: ModelSelection,
    pub generation: GenerationConfig,
    pub instructions: Option<String>,
}

impl Clone for ApiOcrConfig {
    fn clone(&self) -> (result: ApiOcrConfig)
        ensures
            result == *self,
    {
        ApiOcrConfig {
            model: self.model.clone(),
            generation: self.generation,
            instructions: copy_text(&self.instructions),
        }
    }
}

/// Text is read by the model that is proposed first.
pub open spec fn proposed_ocr(config: ApiOcrConfig) -> bool {
    &&& config.model.provider == Provider::OpenRouter
    &&& config.model.model matches Some(model)
    &&& model@ == "qwen/qwen3-vl-32b-instruct"@
    &&& config.model.quantization is None
    &&& config.model.vision
    &&& config.model.reasoning
    &&& !config.model.reasoning_required
    &&& config.generation == (GenerationConfig {
        temperature: Some(0),
        max_tokens: Some(1024),
        vision: Some(true),
        reasoning: Some(false),
    })
    &&& config.instructions is None
}

impl Default for ApiOcrConfig {
    fn default() -> (result: ApiOcrConfig)
        ensures
            proposed_ocr(result),
    {
        ApiOcrConfig {
            model: ModelSelection {
                provider: Provider::OpenRouter,
                model: Some("qwen/qwen3-vl-32b-instruct".to_owned()),
                quantization: None,
                vision: true,
                reasoning: true,
                reasoning_required: false,
            },
            generation: GenerationConfig {
                temperature: Some(0),
                max_tokens: Some(1024),
                vision: Some(true),
                reasoning: Some(false),
            },
            instructions: None,
        }
    }
}

/// How text is read.
#[derive(Debug)]
pub struct OcrConfig {
    pub method: OcrMethod,
    pub local_model: OcrModel,
    pub api: ApiOcrConfig,
}

impl Clone for OcrConfig {
    fn clone(&self) -> (result: OcrConfig)
        ensures
            result == *self,
    {
        OcrConfig { method: self.method, local_model: self.local_model, api: self.api.clone() }
    }
}

impl Default for OcrConfig {
    fn default() -> (result: OcrConfig)
        ensures
            result.method == OcrMethod::Local,
            result.local_model == OcrModel::PaddleOcrVl1_6,
            proposed_ocr(result.api),
    {
        OcrConfig {
            method: OcrMethod::Local,
            local_model: OcrModel::PaddleOcrVl1_6,
            api: ApiOcrConfig::default(),
        }
    }
}

/// How segments are grouped for a translation.
#[derive(Clone, Copy, Debug, PartialEq, Eq, Structural)]
pub enum TranslationUnitPolicy {
    PageOnly,
    AdaptiveV1,
}

impl TranslationUnitPolicy {
    /// The name of the policy in a request.
    pub open spec fn text(self) -> Seq<char> {
        match self {
            TranslationUnitPolicy::PageOnly => "page_only"@,
            TranslationUnitPolicy::AdaptiveV1 => "adaptive_v1"@,
        }
    }

    /// The name of the policy in a request.
    pub fn name(self) -> (result: &'static str)
        ensures
            result@ == self.text(),
    {
        match self {
            TranslationUnitPolicy::PageOnly => "page_only",
            TranslationUnitPolicy::AdaptiveV1 => "adaptive_v1",
        }
    }
}

impl Default for TranslationUnitPolicy {
    fn default() -> (result: TranslationUnitPolicy)
        ensures
            result == TranslationUnitPolicy::PageOnly,
    {
        TranslationUnitPolicy::PageOnly
    }
}

/// How a page or a chapter is translated.
#[derive(Debug)]
pub struct TranslationProfile {
    pub model: ModelSelection,
    pub generation: GenerationConfig,
    pub instructions: Option<String>,
    pub unit_policy: TranslationUnitPolicy,
}

impl Clone for TranslationProfile {
    fn clone(&self) -> (result: TranslationProfile)
        ensures
            result == *self,
    {
        TranslationProfile {
            model: self.model.clone(),
            generation: self.generation,
            instructions: copy_text(&self.instructions),
            unit_policy: self.unit_policy,
        }
    }
}

/// A profile as it is stored, where a policy may be missing.
pub struct TranslationProfileFile {
    pub model: ModelSelection,
    pub generation: GenerationConfig,
    pub instructions: Option<String>,
    pub unit_policy: Option<TranslationUnitPolicy>,
}

impl TranslationProfileFile {
    /// The profile, with a policy of its own where one is stored.
    pub fn into_profile(self, default_policy: TranslationUnitPolicy) -> (result: TranslationProfile)
        ensures
            result.model == self.model,
            result.generation == self.generation,
            result.instructions == self.instructions,
            result.unit_policy == (match self.unit_policy {
                Some(policy) => policy,
                None => default_policy,
            }),
    {
        TranslationProfile {
            model: self.model,
            generation: self.generation,
            instructions: self.instructions,
            unit_policy: match self.unit_policy {
                Some(policy) => policy,
                None => default_policy,
            },
        }
    }
}

/// The language that text is read in where none is stored.
pub fn default_source_language() -> (result: Language)
    ensures
        result == Language::Japanese,
{
    Language::Japanese
}

/// The language that text is translated into where none is stored.
pub fn default_target_language() -> (result: Language)
    ensures
        result == Language::English,
{
    Language::English
}

/// How text is translated.
#[derive(Debug)]
pub struct TranslationConfig {
    pub source_language: Language,
    pub target_language: Language,
    pub page: TranslationProfile,
    pub chapter: TranslationProfile,
}

impl Clone for TranslationConfig {
    fn clone(&self) -> (result: TranslationConfig)
        ensures
            result == *self,
    {
        TranslationConfig {
            source_language: self.source_language,
            target_language: self.target_language,
            page: self.page.clone(),
            chapter: self.chapter.clone(),
        }
    }
}

/// Settings for translation as they are stored, where parts may be missing.
pub struct TranslationConfigFile {
    pub source_language: Option<Language>,
    pub target_language: Option<Language>,
    pub page: Option<TranslationProfileFile>,
    pub chapter: Option<TranslationProfileFile>,
}

/// A profile in which nothing was chosen but the model.
pub open spec fn plain_profile(
    profile: TranslationProfile,
    model: ModelSelection,
    policy: TranslationUnitPolicy,
) -> bool {
    &&& profile.model == model
    &&& profile.generation == (GenerationConfig {
        temperature: None,
        max_tokens: None,
        vision: None,
        reasoning: None,
    })
    &&& profile.instructions is None
    &&& profile.unit_policy == policy
}

/// A stored profile as it is used.
pub open spec fn used_profile(
    file: Option<TranslationProfileFile>,
    profile: TranslationProfile,
    model: ModelSelection,
    policy: TranslationUnitPolicy,
) -> bool {
    match file {
        Some(file) => profile == (TranslationProfile {
            model: file.model,
            generation: file.generation,
            instructions: file.instructions,
            unit_policy: match file.unit_policy {
                Some(stored) => stored,
                None => policy,
            },
        }),
        None => plain_profile(profile, model, policy),
    }
}

fn use_profile(
    file: Option<TranslationProfileFile>,
    model: &ModelSelection,
    policy: TranslationUnitPolicy,
) -> (result: TranslationProfile)
    ensures
        used_profile(file, result, *model, policy),
{
    match file {
        Some(file) => file.into_profile(policy),
        None => TranslationProfile {
            model: model.clone(),
            generation: GenerationConfig::default(),
            instructions: None,
            unit_policy: policy,
        },
    }
}

impl TranslationConfig {
    /// The settings where nothing was chosen but the model.
    pub fn standard(model: &ModelSelection) -> (result: TranslationConfig)
        ensures
            result.source_language == Language::Japanese,
            result.target_language == Language::English,
            plain_profile(result.page, *model, TranslationUnitPolicy::PageOnly),
            plain_profile(result.chapter, *model, TranslationUnitPolicy::AdaptiveV1),
    {
        TranslationConfig {
            source_language: default_source_language(),
            target_language: default_target_language(),
            page: use_profile(None, model, TranslationUnitPolicy::PageOnly),
            chapter: use_profile(None, model, TranslationUnitPolicy::AdaptiveV1),
        }
    }

    /// The settings that are stored, completed where parts are missing.
    pub fn restore(file: TranslationConfigFile, model: &ModelSelection) -> (result:
        TranslationConfig)
        ensures
            result.source_language == (match file.source_language {
                Some(language) => language,
                None => Language::Japanese,
            }),
            result.target_language == (match file.target_language {
                Some(language) => language,
                None => Language::English,
            }),
            used_profile(file.page, result.page, *model, TranslationUnitPolicy::PageOnly),
            used_profile(file.chapter, result.chapter, *model, TranslationUnitPolicy::AdaptiveV1),
    {
        TranslationConfig {
            source_language: match file.source_language {
                Some(language) => language,
                None => default_source_language(),
            },
            target_language: match file.target_language {
                Some(language) => language,
                None => default_target_language(),
            },
            page: use_profile(file.page, model, TranslationUnitPolicy::PageOnly),
            chapter: use_profile(file.chapter, model, TranslationUnitPolicy::AdaptiveV1),
        }
    }
}

/// Where lettering is removed.
#[derive(Clone, Copy, Debug, PartialEq, Eq, Structural)]
pub enum InpaintingMethod {
    Local,
    Api,
}

impl Default for InpaintingMethod {
    fn default() -> (result: InpaintingMethod)
        ensures
            result == InpaintingMethod::Local,
    {
        InpaintingMethod::Local
    }
}

/// Who removes lettering.
#[derive(Clone, Copy, Debug, PartialEq, Eq, Structural)]
pub enum InpaintingProvider {
    Fal,
    OpenRouter,
}

impl Default for InpaintingProvider {
    fn default() -> (result: InpaintingProvider)
        ensures
            result == InpaintingProvider::Fal,
    {
        InpaintingProvider::Fal
    }
}

/// A model that can be chosen to remove lettering.
#[derive(Clone, Debug)]
pub struct InpaintingModelChoice {
    pub provider: InpaintingProvider,
    pub model: String,
    pub name: String,
}

/// How one of the models on this machine is used.
#[derive(Debug)]
pub struct Flux2KleinConfig {
    pub prompt: String,
}

impl Clone for Flux2KleinConfig {
    fn clone(&self) -> (result: Flux2KleinConfig)
        ensures
            result == *self,
    {
        Flux2KleinConfig { prompt: self.prompt.clone() }
    }
}

/// How another of the models on this machine is used.
#[derive(Debug)]
pub struct RoremMixedConfig {
    pub prompt: String,
    pub negative_prompt: String,
}

impl Clone for RoremMixedConfig {
    fn clone(&self) -> (result: RoremMixedConfig)
        ensures
            result == *self,
    {
        RoremMixedConfig {
            prompt: self.prompt.clone(),
            negative_prompt: self.negative_prompt.clone(),
        }
    }
}

/// The models that remove lettering on this machine.
#[derive(Debug)]
pub enum LocalInpaintingModel {
    LaMa {  },
    AotInpainting {  },
    Flux2Klein(Flux2KleinConfig),
    RoremMixed(RoremMixedConfig),
}

impl Clone for LocalInpaintingModel {
    fn clone(&self) -> (result: LocalInpaintingModel)
        ensures
            result == *self,
    {
        match self {
            LocalInpaintingModel::LaMa {  } => LocalInpaintingModel::LaMa {  },
            LocalInpaintingModel::AotInpainting {  } => LocalInpaintingModel::AotInpainting {  },
            LocalInpaintingModel::Flux2Klein(config) => LocalInpaintingModel::Flux2Klein(
                config.clone(),
            ),
            LocalInpaintingModel::RoremMixed(config) => LocalInpaintingModel::RoremMixed(
                config.clone(),
            ),
        }
    }
}

/// The model that removes lettering by hand where none is chosen.
pub fn default_manual_inpainting_model() -> (result: LocalInpaintingModel)
    ensures
        result == (LocalInpaintingModel::LaMa {  }),
{
    LocalInpaintingModel::LaMa {  }
}

/// How lettering is removed by a provider.
#[derive(Debug)]
pub struct ApiInpaintingConfig {
    pub provider: InpaintingProvider,
    pub model: String,
    pub prompt: String,
    pub apply_mode: InpaintingApplyMode,
}

impl Clone for ApiInpaintingConfig {
    fn clone(&self) -> (result: ApiInpaintingConfig)
        ensures
            result == *self,
    {
        ApiInpaintingConfig {
            provider: self.provider,
            model: self.model.clone(),
            prompt: self.prompt.clone(),
            apply_mode: self.apply_mode,
        }
    }
}

/// Lettering is removed by the model that is proposed first.
pub open spec fn proposed_inpainting(config: ApiInpaintingConfig) -> bool {
    &&& config.provider == InpaintingProvider::Fal
    &&& config.model@ == "microsoft/mai-image-2.5/edit"@
    &&& config.prompt@ == DEFAULT_CLEANUP_PROMPT@
    &&& config.apply_mode == InpaintingApplyMode::FullPage
}

impl Default for ApiInpaintingConfig {
    fn default() -> (result: ApiInpaintingConfig)
        ensures
            proposed_inpainting(result),
    {
        ApiInpaintingConfig {
            provider: InpaintingProvider::Fal,
            model: "microsoft/mai-image-2.5/edit".to_owned(),
            prompt: ImageEditConfig::default().prompt,
            apply_mode: InpaintingApplyMode::FullPage,
        }
    }
}

/// How lettering is removed.
#[derive(Debug)]
pub struct InpaintingConfig {
    pub method: InpaintingMethod,
    pub local_model: LocalInpaintingModel,
    pub manual_model: LocalInpaintingModel,
    pub api: ApiInpaintingConfig,
}

impl Default for InpaintingConfig {
    fn default() -> (result: InpaintingConfig)
        ensures
            result.method == InpaintingMethod::Local,
            result.local_model == (LocalInpaintingModel::LaMa {  }),
            result.manual_model == (LocalInpaintingModel::LaMa {  }),
            proposed_inpainting(result.api),
    {
        InpaintingConfig {
            method: InpaintingMethod::Local,
            local_model: LocalInpaintingModel::LaMa {  },
            manual_model: default_manual_inpainting_model(),
            api: ApiInpaintingConfig::default(),
        }
    }
}

/// The settings that are kept for every model, whether it is used or not.
#[derive(Debug)]
pub struct ProcessorConfig {
    pub koharu_layout_rfdetr_seg_2xl: Option<KoharuLayoutRFDetrSeg2XLConfig>,
    pub flux2_klein: Option<Flux2KleinConfig>,
    pub rorem_mixed: Option<RoremMixedConfig>,
    pub mai_image_2_5_edit: Option<ImageEditConfig>,
    pub mai_image_2_5_pro_edit: Option<ImageEditConfig>,
}

fn copy_edit(profile: &Option<ImageEditConfig>) -> (result: Option<ImageEditConfig>)
    ensures
        result == *profile,
{
    match profile {
        Some(config) => Some(config.clone()),
        None => None,
    }
}

impl Clone for ProcessorConfig {
    fn clone(&self) -> (result: ProcessorConfig)
        ensures
            result == *self,
    {
        ProcessorConfig {
            koharu_layout_rfdetr_seg_2xl: self.koharu_layout_rfdetr_seg_2xl,
            flux2_klein: match &self.flux2_klein {
                Some(config) => Some(config.clone()),
                None => None,
            },
            rorem_mixed: match &self.rorem_mixed {
                Some(config) => Some(config.clone()),
                None => None,
            },
            mai_image_2_5_edit: copy_edit(&self.mai_image_2_5_edit),
            mai_image_2_5_pro_edit: copy_edit(&self.mai_image_2_5_pro_edit),
        }
    }
}

impl Default for ProcessorConfig {
    fn default() -> (result: ProcessorConfig)
        ensures
            result == (ProcessorConfig {
                koharu_layout_rfdetr_seg_2xl: None,
                flux2_klein: None,
                rorem_mixed: None,
                mai_image_2_5_edit: None,
                mai_image_2_5_pro_edit: None,
            }),
    {
        ProcessorConfig {
            koharu_layout_rfdetr_seg_2xl: None,
            flux2_klein: None,
            rorem_mixed: None,
            mai_image_2_5_edit: None,
            mai_image_2_5_pro_edit: None,
        }
    }
}

/// The settings of the pipeline.
#[derive(Debug)]
pub struct PipelineConfig {
    pub detection: DetectionModel,
    pub ocr: OcrConfig,
    pub translation: TranslationConfig,
    pub inpainting: InpaintingConfig,
    pub processor: ProcessorConfig,
}

/// A model that removes lettering, with its settings.
#[derive(Debug)]
pub enum InpaintingModel {
    LaMa {  },
    AotInpainting {  },
    Flux2Klein(Flux2KleinConfig),
    RoremMixed(RoremMixedConfig),
    MaiImage2_5Edit(ImageEditConfig),
    MaiImage2_5ProEdit(ImageEditConfig),
    OpenRouterImageEdit { model: String, config: ImageEditConfig },
}

/// Settings of a profile, or others where there is none.
pub open spec fn profile_or<T>(profile: Option<T>, otherwise: T) -> T {
    match profile {
        Some(settings) => settings,
        None => otherwise,
    }
}

/// A model on this machine with the settings of its profile, where there is one, and those that
/// were chosen with it otherwise.
pub open spec fn local_inpainting(
    model: LocalInpaintingModel,
    processor: ProcessorConfig,
) -> InpaintingModel {
    match model {
        LocalInpaintingModel::LaMa {  } => InpaintingModel::LaMa {  },
        LocalInpaintingModel::AotInpainting {  } => InpaintingModel::AotInpainting {  },
        LocalInpaintingModel::Flux2Klein(config) => InpaintingModel::Flux2Klein(
            profile_or(processor.flux2_klein, config),
        ),
        LocalInpaintingModel::RoremMixed(config) => InpaintingModel::RoremMixed(
            profile_or(processor.rorem_mixed, config),
        ),
    }
}

/// A model on this machine with its settings: the choice of the model selects its profile.
pub fn configured_local_inpainting_model(
    model: &LocalInpaintingModel,
    processor: &ProcessorConfig,
) -> (result: InpaintingModel)
    ensures
        result == local_inpainting(*model, *processor),
{
    match model {
        LocalInpaintingModel::LaMa {  } => InpaintingModel::LaMa {  },
        LocalInpaintingModel::AotInpainting {  } => InpaintingModel::AotInpainting {  },
        LocalInpaintingModel::Flux2Klein(config) => match &processor.flux2_klein {
            Some(profile) => InpaintingModel::Flux2Klein(profile.clone()),
            None => InpaintingModel::Flux2Klein(config.clone()),
        },
        LocalInpaintingModel::RoremMixed(config) => match &processor.rorem_mixed {
            Some(profile) => InpaintingModel::RoremMixed(profile.clone()),
            None => InpaintingModel::RoremMixed(config.clone()),
        },
    }
}

/// How the service of the settings edits an image.
pub open spec fn api_edit(api: ApiInpaintingConfig) -> ImageEditConfig {
    ImageEditConfig { prompt: api.prompt, apply_mode: api.apply_mode }
}

fn used_edit(profile: &Option<ImageEditConfig>, api: &ApiInpaintingConfig) -> (result:
    ImageEditConfig)
    ensures
        result == profile_or(*profile, api_edit(*api)),
{
    match profile {
        Some(profile) => profile.clone(),
        None => ImageEditConfig { prompt: api.prompt.clone(), apply_mode: api.apply_mode },
    }
}

/// The model that removes lettering in the pipeline, or why there is none.
pub open spec fn automatic_inpainting(
    inpainting: InpaintingConfig,
    processor: ProcessorConfig,
    result: Result<InpaintingModel, String>,
) -> bool {
    let api = inpainting.api;
    if inpainting.method == InpaintingMethod::Local {
        result == Ok::<InpaintingModel, String>(
            local_inpainting(inpainting.local_model, processor),
        )
    } else if api.provider == InpaintingProvider::OpenRouter {
        result == Ok::<InpaintingModel, String>(
            InpaintingModel::OpenRouterImageEdit { model: api.model, config: api_edit(api) },
        )
    } else if api.model@ == "microsoft/mai-image-2.5/edit"@ {
        result == Ok::<InpaintingModel, String>(
            InpaintingModel::MaiImage2_5Edit(
                profile_or(processor.mai_image_2_5_edit, api_edit(api)),
            ),
        )
    } else if api.model@ == "microsoft/mai-image-2.5-pro/edit"@ {
        result == Ok::<InpaintingModel, String>(
            InpaintingModel::MaiImage2_5ProEdit(
                profile_or(processor.mai_image_2_5_pro_edit, api_edit(api)),
            ),
        )
    } else {
        result matches Err(message) && message@ == unsupported_fal(api.model@)
    }
}

/// What is told of a model that the service is not known to have.
pub open spec fn unsupported_fal(model: Seq<char>) -> Seq<char> {
    "unsupported Fal.ai inpainting model "@ + model
}

/// The service of the settings is not known to have their model.
pub open spec fn unknown_fal_model(config: InpaintingConfig) -> bool {
    &&& config.method == InpaintingMethod::Api
    &&& config.api.provider == InpaintingProvider::Fal
    &&& config.api.model@ != "microsoft/mai-image-2.5/edit"@
    &&& config.api.model@ != "microsoft/mai-image-2.5-pro/edit"@
}

/// The detection that is used: that of the profile, where there is one.
pub open spec fn used_detection(config: PipelineConfig) -> KoharuLayoutRFDetrSeg2XLConfig {
    match config.processor.koharu_layout_rfdetr_seg_2xl {
        Some(profile) => profile,
        None => config.detection->KoharuLayoutRFDetrSeg2XL_0,
    }
}

/// What is wrong with the settings of text that is read by a provider.
pub open spec fn ocr_problem(ocr: OcrConfig) -> Option<Seq<char>> {
    let model = ocr.api.model;
    if ocr.method == OcrMethod::Local {
        None
    } else if model.provider != Provider::OpenAi && model.provider != Provider::OpenAiCompatible
        && model.provider != Provider::OpenRouter {
        Some("API OCR supports only OpenAI, OpenAI-compatible, and OpenRouter providers"@)
    } else if !model.vision {
        Some("API OCR requires a vision model"@)
    } else if model.model is None || model.model->0@.len() == 0 {
        Some("API OCR requires a selected model"@)
    } else {
        None
    }
}

/// What is wrong with the settings of lettering that is removed by a provider.
pub open spec fn inpainting_problem(inpainting: InpaintingConfig) -> Option<Seq<char>> {
    if inpainting.method == InpaintingMethod::Local {
        None
    } else if trimmed(inpainting.api.model@).len() == 0 {
        Some("API inpainting requires a selected model"@)
    } else if occurs(inpainting.api.prompt@, "\0"@) {
        Some("API inpainting prompt contains NUL"@)
    } else {
        None
    }
}

/// What is wrong with the settings.
pub open spec fn config_problem(config: PipelineConfig) -> Option<Seq<char>> {
    if unknown_fal_model(config.inpainting) {
        Some(unsupported_fal(config.inpainting.api.model@))
    } else {
        match ocr_problem(config.ocr) {
            Some(problem) => Some(problem),
            None => inpainting_problem(config.inpainting),
        }
    }
}

fn check_ocr(ocr: &OcrConfig) -> (result: Option<&'static str>)
    ensures
        match result {
            Some(message) => ocr_problem(*ocr) == Some(message@),
            None => ocr_problem(*ocr) is None,
        },
{
    if ocr.method == OcrMethod::Local {
        return None;
    }
    let model = &ocr.api.model;
    if model.provider != Provider::OpenAi && model.provider != Provider::OpenAiCompatible
        && model.provider != Provider::OpenRouter {
        return Some("API OCR supports only OpenAI, OpenAI-compatible, and OpenRouter providers");
    }
    if !model.vision {
        return Some("API OCR requires a vision model");
    }
    let chosen = match &model.model {
        Some(name) => !name.as_str().is_empty(),
        None => false,
    };
    if chosen {
        None
    } else {
        Some("API OCR requires a selected model")
    }
}

fn check_inpainting(inpainting: &InpaintingConfig) -> (result: Option<&'static str>)
    ensures
        match result {
            Some(message) => inpainting_problem(*inpainting) == Some(message@),
            None => inpainting_problem(*inpainting) is None,
        },
{
    if inpainting.method == InpaintingMethod::Local {
        return None;
    }
    if trim(inpainting.api.model.as_str()).as_str().is_empty() {
        return Some("API inpainting requires a selected model");
    }
    if contains(inpainting.api.prompt.as_str(), "\0") {
        return Some("API inpainting prompt contains NUL");
    }
    None
}

impl PipelineConfig {
    /// The settings where nothing was chosen but the model of translations.
    pub fn standard(model: &ModelSelection) -> (result: PipelineConfig)
        ensures
            result.detection == DetectionModel::KoharuLayoutRFDetrSeg2XL(
                (KoharuLayoutRFDetrSeg2XLConfig {
                    text_threshold: None,
                    bubble_threshold: None,
                    panel_threshold: None,
                }),
            ),
            result.processor == (ProcessorConfig {
                koharu_layout_rfdetr_seg_2xl: None,
                flux2_klein: None,
                rorem_mixed: None,
                mai_image_2_5_edit: None,
                mai_image_2_5_pro_edit: None,
            }),
            result.ocr.method == OcrMethod::Local,
            result.ocr.local_model == OcrModel::PaddleOcrVl1_6,
            proposed_ocr(result.ocr.api),
            result.translation.source_language == Language::Japanese,
            result.translation.target_language == Language::English,
            plain_profile(result.translation.page, *model, TranslationUnitPolicy::PageOnly),
            plain_profile(result.translation.chapter, *model, TranslationUnitPolicy::AdaptiveV1),
            result.inpainting.method == InpaintingMethod::Local,
            result.inpainting.local_model == (LocalInpaintingModel::LaMa {  }),
            result.inpainting.manual_model == (LocalInpaintingModel::LaMa {  }),
            proposed_inpainting(result.inpainting.api),
            config_problem(result) is None,
    {
        PipelineConfig {
            detection: DetectionModel::KoharuLayoutRFDetrSeg2XL(
                KoharuLayoutRFDetrSeg2XLConfig::default(),
            ),
            ocr: OcrConfig::default(),
            translation: TranslationConfig::standard(model),
            inpainting: InpaintingConfig::default(),
            processor: ProcessorConfig::default(),
        }
    }

    /// The detection that is used.
    pub fn detection(&self) -> (result: DetectionModel)
        ensures
            result == DetectionModel::KoharuLayoutRFDetrSeg2XL(used_detection(*self)),
    {
        let DetectionModel::KoharuLayoutRFDetrSeg2XL(config) = self.detection;
        match self.processor.koharu_layout_rfdetr_seg_2xl {
            Some(profile) => DetectionModel::KoharuLayoutRFDetrSeg2XL(profile),
            None => DetectionModel::KoharuLayoutRFDetrSeg2XL(config),
        }
    }

    /// The model that removes lettering in the pipeline. What is chosen selects the model; the
    /// settings come from its profile, where there is one.
    pub fn inpainting(&self) -> (result: Result<InpaintingModel, String>)
        ensures
            automatic_inpainting(self.inpainting, self.processor, result),
            result is Err <==> unknown_fal_model(self.inpainting),
    {
        if self.inpainting.method == InpaintingMethod::Local {
            return Ok(
                configured_local_inpainting_model(&self.inpainting.local_model, &self.processor),
            );
        }
        let api = &self.inpainting.api;
        match api.provider {
            InpaintingProvider::Fal => if same(
                api.model.as_str(),
                "microsoft/mai-image-2.5/edit",
            ) {
                Ok(
                    InpaintingModel::MaiImage2_5Edit(
                        used_edit(&self.processor.mai_image_2_5_edit, api),
                    ),
                )
            } else if same(api.model.as_str(), "microsoft/mai-image-2.5-pro/edit") {
                Ok(
                    InpaintingModel::MaiImage2_5ProEdit(
                        used_edit(&self.processor.mai_image_2_5_pro_edit, api),
                    ),
                )
            } else {
                let mut message = "unsupported Fal.ai inpainting model ".to_owned();
                message.append(api.model.as_str());
                Err(message)
            },
            InpaintingProvider::OpenRouter => Ok(
                InpaintingModel::OpenRouterImageEdit {
                    model: api.model.clone(),
                    config: used_edit(&None, api),
                },
            ),
        }
    }

    /// The model that removes lettering by hand.
    pub fn manual_inpainting(&self) -> (result: InpaintingModel)
        ensures
            result == local_inpainting(self.inpainting.manual_model, self.processor),
    {
        configured_local_inpainting_model(&self.inpainting.manual_model, &self.processor)
    }

    /// Tests whether the settings can be used, and tells what is wrong with them where not.
    pub fn validate(&self) -> (result: Result<(), String>)
        ensures
            match result {
                Ok(_) => config_problem(*self) is None,
                Err(message) => config_problem(*self) == Some(message@),
            },
    {
        if let Err(message) = self.inpainting() {
            return Err(message);
        }
        if let Some(message) = check_ocr(&self.ocr) {
            return Err(message.to_owned());
        }
        match check_inpainting(&self.inpainting) {
            Some(message) => Err(message.to_owned()),
            None => Ok(()),
        }
    }
}

/// Settings can be used exactly if what a service does has what it needs: a model that can read
/// pictures, of a service that can, for text; a model, one that is known where Fal.ai is asked, and
/// an instruction without NUL, for lettering. What is done on this machine needs nothing.
pub proof fn law_settings_are_refused_for_what_a_service_lacks(config: PipelineConfig)
    ensures
        config_problem(config) is None <==> {
            &&& config.ocr.method == OcrMethod::Api ==> {
                let model = config.ocr.api.model;
                &&& model.provider == Provider::OpenAi || model.provider
                    == Provider::OpenAiCompatible || model.provider == Provider::OpenRouter
                &&& model.vision
                &&& model.model matches Some(name) && name@.len() > 0
            }
            &&& config.inpainting.method == InpaintingMethod::Api ==> {
                let api = config.inpainting.api;
                &&& exists|i: int| 0 <= i < api.model@.len() && !is_space(#[trigger] api.model@[i])
                &&& forall|i: int|
                    0 <= i < api.prompt@.len() ==> #[trigger] api.prompt@[i] != '\0'
                &&& api.provider == InpaintingProvider::Fal ==> api.model@
                    == "microsoft/mai-image-2.5/edit"@ || api.model@
                    == "microsoft/mai-image-2.5-pro/edit"@
            }
        },
{
    let api = config.inpainting.api;
    let start = law_trimmed_stands_in_the_text(api.model@);
    if trimmed(api.model@).len() > 0 {
        assert(!is_space(api.model@[start])) by {
            assert(trimmed(api.model@)[0] == api.model@[start]);
        }
    }
    reveal_strlit("\0");
    assert("\0"@ =~= seq!['\0']);
    if occurs(api.prompt@, "\0"@) {
        let at = choose|at: int| occurs_at(api.prompt@, "\0"@, at);
        assert(api.prompt@.subrange(at, at + 1)[0] == api.prompt@[at]);
        assert(api.prompt@[at] == '\0');
    } else {
        assert forall|i: int| 0 <= i < api.prompt@.len() implies #[trigger] api.prompt@[i]
            != '\0' by {
            if api.prompt@[i] == '\0' {
                assert(api.prompt@.subrange(i, i + 1) =~= "\0"@);
                assert(occurs_at(api.prompt@, "\0"@, i));
            }
        }
    }
}

/// The choice of a model on this machine says which model is used. The settings are those of the
/// model's profile if it has one, and those of the choice otherwise. What is set for a service plays
/// no part in it.
pub proof fn law_local_choice_selects_the_model(
    inpainting: InpaintingConfig,
    processor: ProcessorConfig,
    result: Result<InpaintingModel, String>,
)
    requires
        inpainting.method == InpaintingMethod::Local,
        automatic_inpainting(inpainting, processor, result),
    ensures
        result matches Ok(used) && match inpainting.local_model {
            LocalInpaintingModel::LaMa {  } => used is LaMa,
            LocalInpaintingModel::AotInpainting {  } => used is AotInpainting,
            LocalInpaintingModel::Flux2Klein(chosen) => {
                &&& used matches InpaintingModel::Flux2Klein(settings)
                &&& processor.flux2_klein matches Some(profile) ==> settings == profile
                &&& processor.flux2_klein is None ==> settings == chosen
            },
            LocalInpaintingModel::RoremMixed(chosen) => {
                &&& used matches InpaintingModel::RoremMixed(settings)
                &&& processor.rorem_mixed matches Some(profile) ==> settings == profile
                &&& processor.rorem_mixed is None ==> settings == chosen
            },
        },
        local_inpainting(inpainting.local_model, processor) == result->Ok_0,
{
}

/// The choice of a service and its model says which model edits pages. A model of Fal.ai has the
/// settings of its own profile if there is one, and never those of the other. A model of OpenRouter
/// has the name, the instruction and the way of applying that were set for the service.
pub proof fn law_service_choice_selects_the_model(
    inpainting: InpaintingConfig,
    processor: ProcessorConfig,
    result: Result<InpaintingModel, String>,
)
    requires
        inpainting.method == InpaintingMethod::Api,
        automatic_inpainting(inpainting, processor, result),
    ensures
        inpainting.api.provider == InpaintingProvider::OpenRouter ==> {
            &&& result matches Ok(InpaintingModel::OpenRouterImageEdit { model, config })
            &&& model@ == inpainting.api.model@
            &&& config.prompt@ == inpainting.api.prompt@
            &&& config.apply_mode == inpainting.api.apply_mode
        },
        inpainting.api.provider == InpaintingProvider::Fal && inpainting.api.model@
            == "microsoft/mai-image-2.5/edit"@ ==> {
            &&& result matches Ok(InpaintingModel::MaiImage2_5Edit(config))
            &&& processor.mai_image_2_5_edit matches Some(profile) ==> config == profile
            &&& processor.mai_image_2_5_edit is None ==> config.prompt@ == inpainting.api.prompt@
                && config.apply_mode == inpainting.api.apply_mode
        },
        inpainting.api.provider == InpaintingProvider::Fal && inpainting.api.model@
            == "microsoft/mai-image-2.5-pro/edit"@ ==> {
            &&& result matches Ok(InpaintingModel::MaiImage2_5ProEdit(config))
            &&& processor.mai_image_2_5_pro_edit matches Some(profile) ==> config == profile
            &&& processor.mai_image_2_5_pro_edit is None ==> config.prompt@
                == inpainting.api.prompt@ && config.apply_mode == inpainting.api.apply_mode
        },
        result is Err ==> inpainting.api.provider == InpaintingProvider::Fal,
{
    reveal_strlit("microsoft/mai-image-2.5/edit");
    reveal_strlit("microsoft/mai-image-2.5-pro/edit");
    assert("microsoft/mai-image-2.5/edit"@.len() == 28);
    assert("microsoft/mai-image-2.5-pro/edit"@.len() == 32);
}

/// A stored profile is used as it was stored. Only a policy that is missing is filled in, and a
/// profile that is missing altogether has nothing but a model and a policy.
pub proof fn law_stored_profiles_are_used_as_they_are(
    file: Option<TranslationProfileFile>,
    profile: TranslationProfile,
    model: ModelSelection,
    policy: TranslationUnitPolicy,
)
    requires
        used_profile(file, profile, model, policy),
    ensures
        file matches Some(stored) ==> {
            &&& profile.model == stored.model
            &&& profile.generation == stored.generation
            &&& profile.instructions == stored.instructions
            &&& stored.unit_policy matches Some(kept) ==> profile.unit_policy == kept
            &&& stored.unit_policy is None ==> profile.unit_policy == policy
        },
        file is None ==> {
            &&& profile.model == model
            &&& profile.generation.temperature is None
            &&& profile.generation.max_tokens is None
            &&& profile.generation.vision is None
            &&& profile.generation.reasoning is None
            &&& profile.instructions is None
            &&& profile.unit_policy == policy
        },
{
}

/// Detection uses the thresholds of its profile if it has one, and never mixes them with others.
pub proof fn law_detection_uses_its_profile(config: PipelineConfig)
    ensures
        config.processor.koharu_layout_rfdetr_seg_2xl matches Some(profile) ==> used_detection(
            config,
        ) == profile,
        config.processor.koharu_layout_rfdetr_seg_2xl is None ==> DetectionModel::KoharuLayoutRFDetrSeg2XL(
            used_detection(config),
        ) == config.detection,
{
}

/// A threshold is used if and only if it is a number from zero to one: the bits of a number that is
/// not negative lie in the order of the numbers, up to those of one.
pub proof fn law_thresholds_lie_between_zero_and_one(bits: u32)
    ensures
        0 <= single_order(bits) <= single_order(0x3f80_0000u32) ==> usable_threshold(Some(bits))
            == Some(bits),
        single_order(bits) > single_order(0x3f80_0000u32) ==> usable_threshold(Some(bits)) is None,
        single_order(bits) < -1 ==> usable_threshold(Some(bits)) is None,
        usable_threshold(None) is None,
{
}

} // verus!
