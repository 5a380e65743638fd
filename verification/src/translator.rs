//! What is asked of providers of translation.

use vstd::prelude::*;
use vstd::utf8::encode_utf8;

use crate::json::json_text;
use crate::page_image::prepared;
use crate::prompt::{payload_value, prompts};
use crate::request::{split_hint, OcrRequest, TranslationRequest};
use crate::text::{byte_length, copy_text, decimal, from_size, same};

verus! {

/// The most tokens that a chapter may be estimated at.
pub const MAX_ESTIMATED_CHAPTER_INPUT_TOKENS: usize = 100_000;

/// The most tokens that are asked for in one answer.
pub const MAX_ESTIMATED_CHAPTER_OUTPUT_TOKENS: usize = 65_536;

/// The tokens that every answer is given.
pub const CHAPTER_OUTPUT_BASE_TOKENS: usize = 16_384;

/// The tokens that an answer is given for each segment.
pub const CHAPTER_OUTPUT_TOKENS_PER_SEGMENT: usize = 192;

/// Who translates.
#[derive(Clone, Copy, Debug, PartialEq, Eq, Structural)]
pub enum Provider {
    Local,
    OpenAi,
    OpenAiCompatible,
    OpenRouter,
    Gemini,
    Other,
}

/// The model that was chosen, with what it can do.
#[derive(Debug)]
pub struct ModelSelection {
    pub provider: Provider,
    pub model: Option<String>,
    pub quantization: Option<String>,
    pub vision: bool,
    pub reasoning: bool,
    pub reasoning_required: bool,
}

impl Clone for ModelSelection {
    fn clone(&self) -> (result: ModelSelection)
        ensures
            result == *self,
    {
        ModelSelection {
            provider: self.provider,
            model: copy_text(&self.model),
            quantization: copy_text(&self.quantization),
            vision: self.vision,
            reasoning: self.reasoning,
            reasoning_required: self.reasoning_required,
        }
    }
}

/// How a model is to answer. The temperature is held by its bits.
#[derive(Clone, Copy, Debug, PartialEq, Eq, Structural)]
pub struct GenerationConfig {
    pub temperature: Option<u32>,
    pub max_tokens: Option<u32>,
    pub vision: Option<bool>,
    pub reasoning: Option<bool>,
}

impl Default for GenerationConfig {
    fn default() -> (result: GenerationConfig)
        ensures
            result == (GenerationConfig {
                temperature: None,
                max_tokens: None,
                vision: None,
                reasoning: None,
            }),
    {
        GenerationConfig { temperature: None, max_tokens: None, vision: None, reasoning: None }
    }
}

/// A name, where there is one.
pub open spec fn name_view(name: Option<String>) -> Option<Seq<char>> {
    match name {
        Some(text) => Some(text@),
        None => None,
    }
}

fn same_name(left: &Option<String>, right: &Option<String>) -> (result: bool)
    ensures
        result == (name_view(*left) == name_view(*right)),
{
    match (left, right) {
        (Some(left), Some(right)) => same(left.as_str(), right.as_str()),
        (None, None) => true,
        _ => false,
    }
}

/// The model that is loaded on this machine.
#[derive(Clone, Debug)]
pub struct LoadedLocal {
    pub model: Option<String>,
    pub quantization: Option<String>,
}

impl LoadedLocal {
    /// Whether the loaded model is the one that was chosen.
    pub fn matches(&self, selection: &ModelSelection) -> (result: bool)
        ensures
            result == (name_view(self.model) == name_view(selection.model) && name_view(
                self.quantization,
            ) == name_view(selection.quantization)),
    {
        same_name(&self.model, &selection.model) && same_name(
            &self.quantization,
            &selection.quantization,
        )
    }
}

/// Whether the chosen model is ready: one of another provider always is, and one whose state is
/// not known is taken to be.
pub fn loaded(selection: &ModelSelection, state: Option<&Option<LoadedLocal>>) -> (result: bool)
    ensures
        result == (selection.provider != Provider::Local || match state {
            None => true,
            Some(None) => false,
            Some(Some(local)) => name_view(local.model) == name_view(selection.model)
                && name_view(local.quantization) == name_view(selection.quantization),
        }),
{
    if selection.provider != Provider::Local {
        return true;
    }
    match state {
        None => true,
        Some(None) => false,
        Some(Some(local)) => local.matches(selection),
    }
}

/// Whether images are sent along: where that is asked for, and where the model on this machine can
/// take them.
pub fn supports_vision(
    selection: &ModelSelection,
    generation: &GenerationConfig,
    local_vision: bool,
) -> (result: bool)
    ensures
        result == (generation.vision == Some(true) && (selection.provider != Provider::Local
            || local_vision)),
{
    let asked = match generation.vision {
        Some(vision) => vision,
        None => false,
    };
    asked && (selection.provider != Provider::Local || local_vision)
}

/// The bytes of some texts.
pub open spec fn total_bytes(segments: Seq<String>) -> nat
    decreases segments.len(),
{
    if segments.len() == 0 {
        0
    } else {
        total_bytes(segments.drop_last()) + encode_utf8(segments.last()@).len()
    }
}

/// Half of a number, rounded up.
pub open spec fn half_up(number: nat) -> nat {
    ((number + 1) / 2) as nat
}

/// The tokens that the answer for a chapter is given.
pub open spec fn output_budget(segments: Seq<String>) -> nat {
    let estimated = CHAPTER_OUTPUT_BASE_TOKENS + segments.len() * CHAPTER_OUTPUT_TOKENS_PER_SEGMENT
        + half_up(total_bytes(segments));
    if estimated <= MAX_ESTIMATED_CHAPTER_OUTPUT_TOKENS {
        estimated as nat
    } else {
        MAX_ESTIMATED_CHAPTER_OUTPUT_TOKENS as nat
    }
}

/// The tokens that the answer for a chapter is given.
pub fn chapter_output_budget(request: &TranslationRequest) -> (result: u32)
    ensures
        result == output_budget(request.segments@),
{
    let segments = &request.segments;
    // Beyond this the budget is at its limit, however much is added.
    let enough: usize = 2 * MAX_ESTIMATED_CHAPTER_OUTPUT_TOKENS;
    let mut bytes: usize = 0;
    let mut index: usize = 0;
    proof {
        assert(segments@.take(0) =~= Seq::empty());
    }
    while index < segments.len()
        invariant
            index <= segments.len(),
            enough == 131_072,
            bytes <= enough,
            bytes < enough ==> bytes == total_bytes(segments@.take(index as int)),
            bytes == enough ==> total_bytes(segments@.take(index as int)) >= enough,
        decreases segments.len() - index,
    {
        let length = byte_length(segments[index].as_str());
        proof {
            let longer = segments@.take(index as int + 1);
            assert(longer.drop_last() =~= segments@.take(index as int));
            assert(longer.last() == segments@[index as int]);
        }
        if length >= enough - bytes {
            bytes = enough;
        } else {
            bytes += length;
        }
        index += 1;
    }
    proof {
        assert(segments@.take(index as int) =~= segments@);
    }
    let halved: usize = bytes / 2 + bytes % 2;
    let count: usize = segments.len();
    if count > 1_000 {
        return MAX_ESTIMATED_CHAPTER_OUTPUT_TOKENS as u32;
    }
    let estimated: usize = CHAPTER_OUTPUT_BASE_TOKENS + count * CHAPTER_OUTPUT_TOKENS_PER_SEGMENT
        + halved;
    if estimated <= MAX_ESTIMATED_CHAPTER_OUTPUT_TOKENS {
        estimated as u32
    } else {
        MAX_ESTIMATED_CHAPTER_OUTPUT_TOKENS as u32
    }
}

/// The estimate of the tokens of some text.
pub open spec fn estimated_tokens(bytes: nat) -> nat {
    ((bytes + 3) / 4) as nat
}

/// What is told of a chapter that is too large.
pub open spec fn oversized_chapter(tokens: nat, last_page: nat) -> Seq<char> {
    "chapter translation request is estimated at "@ + decimal(tokens)
        + " input tokens, above the conservative limit of 100000; "@ + split_hint(last_page)
}

/// The tokens that are asked for, given those that were asked for before.
pub open spec fn granted_tokens(asked: Option<u32>, budget: nat) -> nat {
    let wanted = match asked {
        Some(tokens) => tokens as nat,
        None => budget,
    };
    if wanted <= MAX_ESTIMATED_CHAPTER_OUTPUT_TOKENS {
        wanted
    } else {
        MAX_ESTIMATED_CHAPTER_OUTPUT_TOKENS as nat
    }
}

/// How the answer to a request is bounded, given the number of bytes that are sent; or why the
/// request is too large.
pub open spec fn bounded(
    request: TranslationRequest,
    generation: GenerationConfig,
    bytes: nat,
) -> Result<GenerationConfig, Seq<char>> {
    if request.page_numbers is None {
        Ok(generation)
    } else if estimated_tokens(bytes) > MAX_ESTIMATED_CHAPTER_INPUT_TOKENS {
        Err(oversized_chapter(estimated_tokens(bytes), request.last_page() as nat))
    } else {
        Ok(
            GenerationConfig {
                max_tokens: Some(
                    granted_tokens(generation.max_tokens, output_budget(request.segments@)) as u32,
                ),
                ..generation
            },
        )
    }
}

/// Bounds the answer to a request, given the number of bytes that are sent.
pub fn bound_chapter(request: &TranslationRequest, generation: GenerationConfig, bytes: usize) -> (
    result: Result<GenerationConfig, String>)
    ensures
        match result {
            Ok(bounds) => bounded(*request, generation, bytes as nat) == Ok::<
                GenerationConfig,
                Seq<char>,
            >(bounds),
            Err(message) => bounded(*request, generation, bytes as nat) == Err::<
                GenerationConfig,
                Seq<char>,
            >(message@),
        },
{
    if !request.is_chapter() {
        return Ok(generation);
    }
    let rest: usize = if bytes % 4 == 0 {
        0
    } else {
        1
    };
    let tokens: usize = bytes / 4 + rest;
    if tokens > MAX_ESTIMATED_CHAPTER_INPUT_TOKENS {
        let mut message = "chapter translation request is estimated at ".to_owned();
        let digits = from_size(tokens);
        message.append(digits.as_str());
        message.append(" input tokens, above the conservative limit of 100000; ");
        let hint = request.chapter_split_hint();
        message.append(hint.as_str());
        return Err(message);
    }
    let wanted: u32 = match generation.max_tokens {
        Some(tokens) => tokens,
        None => chapter_output_budget(request),
    };
    let granted: u32 = if wanted <= MAX_ESTIMATED_CHAPTER_OUTPUT_TOKENS as u32 {
        wanted
    } else {
        MAX_ESTIMATED_CHAPTER_OUTPUT_TOKENS as u32
    };
    Ok(GenerationConfig { max_tokens: Some(granted), ..generation })
}

/// The number of bytes of a request as it is sent.
pub open spec fn sent_bytes(request: TranslationRequest) -> nat {
    encode_utf8(json_text(payload_value(request))).len()
}

fn bound_request(request: &TranslationRequest, generation: GenerationConfig) -> (result: Result<
    GenerationConfig,
    String,
>)
    requires
        request.aligned(),
    ensures
        match result {
            Ok(bounds) => bounded(*request, generation, sent_bytes(*request)) == Ok::<
                GenerationConfig,
                Seq<char>,
            >(bounds),
            Err(message) => bounded(*request, generation, sent_bytes(*request)) == Err::<
                GenerationConfig,
                Seq<char>,
            >(message@),
        },
{
    if !request.is_chapter() {
        return Ok(generation);
    }
    let (_, sent) = prompts(request);
    bound_chapter(request, generation, byte_length(sent.as_str()))
}

/// What a request asks for, before anything is sent.
pub enum TranslationPlan {
    /// There is nothing to translate.
    Nothing,
    /// The request is sent, and its answer bounded like this.
    Ask(TranslationRequest, GenerationConfig),
}

/// A request without its image.
pub open spec fn without_image(request: TranslationRequest) -> TranslationRequest {
    TranslationRequest { image: None, ..request }
}

/// The request that is sent in place of another.
pub open spec fn readied(
    before: TranslationRequest,
    after: TranslationRequest,
    vision: bool,
) -> bool {
    if !vision {
        after == without_image(before)
    } else {
        &&& after == (TranslationRequest { image: after.image, ..before })
        &&& match (before.image, after.image) {
            (Some(old_image), Some(new_image)) => prepared(old_image, new_image),
            (None, None) => true,
            _ => false,
        }
    }
}

/// Decides what is sent for a request: nothing where it has no segments, and otherwise the request
/// with an image that fits, where images are taken. It fails where the chapter is too large.
pub fn plan_translation(
    selection: &ModelSelection,
    generation: GenerationConfig,
    request: TranslationRequest,
    local_vision: bool,
) -> (result: Result<TranslationPlan, String>)
    requires
        request.aligned(),
    ensures
        ({
            let vision = generation.vision == Some(true) && (selection.provider != Provider::Local
                || local_vision);
            match result {
                Ok(TranslationPlan::Nothing) => request.segments.len() == 0,
                Ok(TranslationPlan::Ask(sent, bounds)) => {
                    &&& request.segments.len() > 0
                    &&& sent.aligned()
                    &&& readied(request, sent, vision)
                    &&& bounded(sent, generation, sent_bytes(sent)) == Ok::<
                        GenerationConfig,
                        Seq<char>,
                    >(bounds)
                },
                Err(message) => {
                    &&& request.segments.len() > 0
                    &&& exists|sent: TranslationRequest|
                        readied(request, sent, vision) && #[trigger] bounded(
                            sent,
                            generation,
                            sent_bytes(sent),
                        ) == Err::<GenerationConfig, Seq<char>>(message@)
                },
            }
        }),
{
    if request.segments.len() == 0 {
        return Ok(TranslationPlan::Nothing);
    }
    let vision = supports_vision(selection, &generation, local_vision);
    let mut sent = request;
    if vision {
        if let Err(message) = sent.prepare_image() {
            return Err(message.to_owned());
        }
    } else {
        sent.remove_image();
    }
    proof {
        assert(readied(request, sent, vision));
    }
    match bound_request(&sent, generation) {
        Ok(bounds) => Ok(TranslationPlan::Ask(sent, bounds)),
        Err(message) => Err(message),
    }
}

/// A provider answered with another number of segments than it was asked for.
#[derive(Clone, Copy, Debug, PartialEq, Eq, Structural)]
pub struct SegmentCount {
    pub expected: usize,
    pub actual: usize,
}

/// Takes the answer of a provider, where it has as many segments as it was asked for.
pub fn accept_translation(expected: usize, translated: Vec<String>) -> (result: Result<
    Vec<String>,
    SegmentCount,
>)
    ensures
        match result {
            Ok(accepted) => accepted == translated && translated.len() == expected,
            Err(error) => translated.len() != expected && error == (SegmentCount {
                expected,
                actual: translated.len(),
            }),
        },
{
    if translated.len() != expected {
        Err(SegmentCount { expected, actual: translated.len() })
    } else {
        Ok(translated)
    }
}

/// A request that is written down to be sent by hand.
pub struct ExportedRequest {
    pub model: String,
    pub generation: GenerationConfig,
    pub request: TranslationRequest,
}

/// What is told where nothing can be exported.
pub open spec fn export_problem(selection: ModelSelection) -> Option<Seq<char>> {
    if selection.provider != Provider::OpenRouter {
        Some("chapter export requires the OpenRouter translation provider"@)
    } else if selection.model is None {
        Some("OpenRouter requires a selected translation model"@)
    } else {
        None
    }
}

/// Decides what is exported for OpenRouter: the request without its image, bounded as one that is
/// sent.
pub fn openrouter_request(
    selection: &ModelSelection,
    generation: GenerationConfig,
    request: TranslationRequest,
) -> (result: Result<ExportedRequest, String>)
    requires
        request.aligned(),
    ensures
        match export_problem(*selection) {
            Some(problem) => result matches Err(message) && message@ == problem,
            None => {
                let sent = without_image(request);
                match bounded(sent, generation, sent_bytes(sent)) {
                    Ok(bounds) => {
                        &&& result matches Ok(exported)
                        &&& exported.model@ == selection.model->0@
                        &&& exported.generation == bounds
                        &&& exported.request == sent
                    },
                    Err(problem) => result matches Err(message) && message@ == problem,
                }
            },
        },
{
    if selection.provider != Provider::OpenRouter {
        return Err("chapter export requires the OpenRouter translation provider".to_owned());
    }
    let model = match &selection.model {
        Some(model) => model.clone(),
        None => return Err("OpenRouter requires a selected translation model".to_owned()),
    };
    let mut sent = request;
    sent.remove_image();
    match bound_request(&sent, generation) {
        Ok(bounds) => Ok(ExportedRequest { model, generation: bounds, request: sent }),
        Err(message) => Err(message),
    }
}

/// Why text cannot be read by a provider.
pub open spec fn recognition_problem(selection: ModelSelection, provider: Seq<char>) -> Option<
    Seq<char>,
> {
    if selection.provider == Provider::Local {
        Some("API OCR requires a remote provider"@)
    } else if !selection.vision {
        Some("the selected OCR model does not accept images"@)
    } else if selection.model is None {
        Some(provider + " requires a selected OCR model"@)
    } else {
        None
    }
}

/// Decides what is sent to have text read: the model, and the request with an image that fits.
pub fn plan_recognition(selection: &ModelSelection, provider: &str, request: OcrRequest) -> (result:
    Result<(String, OcrRequest), String>)
    requires
        request.image.well_formed(),
    ensures
        match recognition_problem(*selection, provider@) {
            Some(problem) => result matches Err(message) && message@ == problem,
            None => result matches Ok((model, sent)) && {
                &&& model@ == selection.model->0@
                &&& prepared(request.image, sent.image)
                &&& sent.source_language == request.source_language
                &&& sent.instructions == request.instructions
            },
        },
{
    if selection.provider == Provider::Local {
        return Err("API OCR requires a remote provider".to_owned());
    }
    if !selection.vision {
        return Err("the selected OCR model does not accept images".to_owned());
    }
    let model = match &selection.model {
        Some(model) => model.clone(),
        None => {
            let mut message = provider.to_owned();
            message.append(" requires a selected OCR model");
            return Err(message);
        },
    };
    match request.prepare_image() {
        Ok(sent) => Ok((model, sent)),
        Err(message) => Err(message.to_owned()),
    }
}

/// How a model is held to the shape of its answer.
#[derive(Clone, Copy, Debug, PartialEq, Eq, Structural)]
pub enum ResponseMode {
    /// By the words of the prompt.
    PromptOnly,
    /// By a schema.
    JsonSchema,
}

/// What is asked of a model of OpenRouter.
#[derive(Clone, Copy, Debug, PartialEq, Eq, Structural)]
pub enum OpenRouterTask {
    Translation,
    Recognition,
}

impl OpenRouterTask {
    /// How the model is held to the shape of its answer: translations and texts that were read
    /// are both taken strictly.
    pub fn response_mode(self) -> (result: ResponseMode)
        ensures
            result == (match self {
                OpenRouterTask::Translation => ResponseMode::JsonSchema,
                OpenRouterTask::Recognition => ResponseMode::JsonSchema,
            }),
    {
        match self {
            OpenRouterTask::Translation => ResponseMode::JsonSchema,
            OpenRouterTask::Recognition => ResponseMode::JsonSchema,
        }
    }
}

/// How OpenRouter is used. There is nothing to choose.
#[derive(Clone, Copy, Debug, PartialEq, Eq, Structural)]
pub struct OpenRouterConfig {

}

impl Default for OpenRouterConfig {
    fn default() -> (result: OpenRouterConfig)
        ensures
            result == (OpenRouterConfig {  }),
    {
        OpenRouterConfig {  }
    }
}

/// What a model of OpenRouter can do with reasoning.
#[derive(Clone, Copy, Debug, PartialEq, Eq, Structural)]
pub struct ReasoningCapabilities {
    pub mandatory: bool,
}

/// A model as OpenRouter lists it.
pub struct ListedModel {
    pub id: String,
    pub name: String,
    pub input_modalities: Vec<String>,
    pub supported_parameters: Vec<String>,
    pub reasoning: Option<ReasoningCapabilities>,
}

/// A model that can be chosen.
#[derive(Clone, Debug)]
pub struct Model {
    pub provider: Provider,
    pub name: String,
    pub model: Option<String>,
    pub quantizations: Vec<String>,
    pub vision: bool,
    pub reasoning: bool,
    pub reasoning_required: bool,
}

/// A word is among some words.
pub open spec fn is_listed(words: Seq<String>, word: Seq<char>) -> bool {
    exists|i: int| 0 <= i < words.len() && (#[trigger] words[i])@ == word
}

fn listed(words: &Vec<String>, word: &str) -> (result: bool)
    ensures
        result == is_listed(words@, word@),
{
    let mut index: usize = 0;
    while index < words.len()
        invariant
            index <= words.len(),
            forall|i: int| 0 <= i < index ==> (#[trigger] words@[i])@ != word@,
        decreases words.len() - index,
    {
        if same(words[index].as_str(), word) {
            assert(words@[index as int]@ == word@);
            return true;
        }
        index += 1;
    }
    false
}

impl ListedModel {
    /// The model as it can be chosen.
    pub fn into_model(self) -> (result: Model)
        ensures
            result.provider == Provider::OpenRouter,
            result.name == self.name,
            result.model == Some(self.id),
            result.quantizations.len() == 0,
            result.vision == is_listed(self.input_modalities@, "image"@),
            result.reasoning == (self.reasoning is Some || is_listed(
                self.supported_parameters@,
                "reasoning"@,
            )),
            result.reasoning_required == (self.reasoning == Some(
                ReasoningCapabilities { mandatory: true },
            )),
    {
        let vision = listed(&self.input_modalities, "image");
        let reasoning = self.reasoning.is_some() || listed(
            &self.supported_parameters,
            "reasoning",
        );
        let reasoning_required = match self.reasoning {
            Some(capabilities) => capabilities.mandatory,
            None => false,
        };
        Model {
            provider: Provider::OpenRouter,
            name: self.name,
            model: Some(self.id),
            quantizations: Vec::new(),
            vision,
            reasoning,
            reasoning_required,
        }
    }
}

/// The answer to a chapter is never asked to be longer than one completion may be.
pub proof fn law_chapter_answer_is_bounded(
    request: TranslationRequest,
    generation: GenerationConfig,
    bytes: nat,
)
    requires
        request.page_numbers is Some,
        bounded(request, generation, bytes) is Ok,
    ensures
        bounded(request, generation, bytes)->Ok_0.max_tokens matches Some(tokens) && tokens
            <= MAX_ESTIMATED_CHAPTER_OUTPUT_TOKENS,
        estimated_tokens(bytes) <= MAX_ESTIMATED_CHAPTER_INPUT_TOKENS,
{
}

/// A request for a page is bounded by nothing but what was set. That for a chapter is refused
/// exactly if more than 400000 bytes are sent, and else changed in nothing but how long its answer
/// may be: as long as was set, or as its texts need, but no longer than 65536 tokens.
pub proof fn law_only_chapters_are_bounded(
    request: TranslationRequest,
    generation: GenerationConfig,
    bytes: nat,
)
    ensures
        request.page_numbers is None ==> bounded(request, generation, bytes) == Ok::<
            GenerationConfig,
            Seq<char>,
        >(generation),
        request.page_numbers is Some ==> (bounded(request, generation, bytes) is Err <==> bytes
            > 400000),
        bounded(request, generation, bytes) matches Ok(bounds) ==> {
            &&& bounds.temperature == generation.temperature
            &&& bounds.vision == generation.vision
            &&& bounds.reasoning == generation.reasoning
            &&& request.page_numbers is Some ==> (generation.max_tokens matches Some(asked) ==> {
                &&& asked <= 65536 ==> bounds.max_tokens == Some(asked)
                &&& asked > 65536 ==> bounds.max_tokens == Some(65536u32)
            })
            &&& request.page_numbers is Some && generation.max_tokens is None ==> (
            bounds.max_tokens matches Some(tokens) && tokens == output_budget(request.segments@))
        },
{
}

/// The answer to a chapter is given 16384 tokens, 192 more for each of its texts and one for every
/// two bytes of them, but never more than 65536.
pub proof fn law_answers_are_given_room(segments: Seq<String>)
    ensures
        output_budget(segments) <= 65536,
        output_budget(segments) < 65536 ==> {
            &&& 2 * output_budget(segments) >= 32768 + 384 * segments.len() + total_bytes(segments)
            &&& 2 * output_budget(segments) <= 32768 + 384 * segments.len() + total_bytes(segments)
                + 1
        },
        output_budget(segments) >= 16384,
        segments.len() > 0 ==> output_budget(segments.drop_last()) <= output_budget(segments),
{
}

/// Only a model of OpenRouter that was chosen can be asked by hand, and a chapter that is asked for
/// by hand has no image.
pub proof fn law_export_needs_a_chosen_model(
    selection: ModelSelection,
    request: TranslationRequest,
)
    ensures
        export_problem(selection) is None <==> selection.provider == Provider::OpenRouter
            && selection.model is Some,
        without_image(request).image is None,
        without_image(request).segments == request.segments,
        without_image(request).segment_ids == request.segment_ids,
        without_image(request).context == request.context,
        without_image(request).instructions == request.instructions,
        without_image(request).target_language == request.target_language,
{
}

/// Text is read by a service exactly if its model can take images and was chosen. Nothing on this
/// machine is such a service.
pub proof fn law_text_is_read_by_models_that_take_images(
    selection: ModelSelection,
    provider: Seq<char>,
)
    ensures
        recognition_problem(selection, provider) is None <==> selection.provider != Provider::Local
            && selection.vision && selection.model is Some,
{
}

/// What is sent in place of a request differs from it in the image alone. Where images are not
/// taken there is none; where they are it has the proportions of the page and fits.
pub proof fn law_requests_are_readied_in_the_image_alone(
    before: TranslationRequest,
    after: TranslationRequest,
    vision: bool,
)
    requires
        readied(before, after, vision),
    ensures
        after.segments == before.segments,
        after.segment_ids == before.segment_ids,
        after.segment_metadata == before.segment_metadata,
        after.context == before.context,
        after.instructions == before.instructions,
        after.source_language == before.source_language,
        after.target_language == before.target_language,
        after.page_numbers == before.page_numbers,
        !vision ==> after.image is None,
        vision ==> (after.image is Some <==> before.image is Some),
        after.image matches Some(image) ==> image.width <= 2048 && image.height <= 2048,
{
    if let (Some(old_image), Some(new_image)) = (before.image, after.image) {
        if vision {
            crate::page_image::law_resizing_keeps_proportions(old_image, new_image);
        }
    }
}

} // verus!
