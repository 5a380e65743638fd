//! Editing a page image with the Fal.ai queue.

use vstd::prelude::*;

use crate::json::{field, first_field, text as text_value, text_of, Json, JsonValue, ListBuilder, ObjectBuilder};
use crate::text::{
    chars, is_space, lower, occurs_at, same, same_ignoring_case, slice, space, trim, trimmed, word_length,
};

verus! {

/// The most bytes that a result image may have.
pub const MAX_IMAGE_BYTES: usize = 64 * 1024 * 1024;

/// The instruction to remove lettering that a new configuration has.
pub const DEFAULT_CLEANUP_PROMPT: &'static str = "Remove all visible text from the image. Do not leave any text behind. This includes dialogue, captions, labels, credits, signatures, logos, watermarks, re-upload notices, and especially stylized onomatopoeia and sound-effect lettering, even when it is rotated, distorted, hand-drawn, outlined, partly occluded, or outside speech bubbles. Preserve every speech bubble and caption box exactly as drawn: do not remove, redraw, reshape, move, resize, recolor, or change their outlines, tails, fills, or textures. Only after preserving those containers, reconstruct the artwork and background hidden behind the removed text. Do not alter characters, panel borders, or any non-text artwork.";

/// An instruction that configurations had by default at an earlier time.
pub const PREVIOUS_CLEANUP_PROMPT: &'static str = "Remove all visible text from the image, including dialogue, captions, sound-effect lettering, watermarks, credits, signatures, logos, and re-upload notices. Preserve every speech bubble and caption box exactly as drawn: do not remove, redraw, reshape, move, resize, recolor, or change their outlines, tails, fills, or textures. Only after preserving those containers, reconstruct the artwork and background hidden behind the removed text. Do not alter characters, panel borders, or any non-text artwork.";

/// An instruction that configurations had by default before that.
pub const OLDER_CLEANUP_PROMPT: &'static str = "Remove dialogue and sound-effect lettering from the detected text regions, plus visible watermarks and re-upload notices. Preserve every speech bubble and caption box exactly as drawn: do not remove, redraw, reshape, move, resize, recolor, or change their outlines, tails, fills, or textures. Only after preserving those containers, reconstruct the artwork hidden behind the removed lettering, watermarks, or notices. Do not alter characters, panel borders, creator signatures, logos, or any other original artwork.";

/// The first instruction that configurations had by default.
pub const OLDEST_CLEANUP_PROMPT: &'static str = "Clean only dialogue and sound-effect lettering from the detected text regions and reconstruct the artwork behind it. Do not alter anything outside those regions.";

/// The instruction is one that configurations had by default at an earlier time.
pub open spec fn is_previous_prompt(prompt: Seq<char>) -> bool {
    ||| prompt == PREVIOUS_CLEANUP_PROMPT@
    ||| prompt == OLDER_CLEANUP_PROMPT@
    ||| prompt == OLDEST_CLEANUP_PROMPT@
}

/// Replaces an instruction that was once the default by the current one, and says whether it did.
pub fn normalize_cleanup_prompt(prompt: &mut String) -> (result: bool)
    ensures
        result == is_previous_prompt(old(prompt)@),
        final(prompt)@ == (if result {
            DEFAULT_CLEANUP_PROMPT@
        } else {
            old(prompt)@
        }),
{
    if same(prompt.as_str(), PREVIOUS_CLEANUP_PROMPT) || same(
        prompt.as_str(),
        OLDER_CLEANUP_PROMPT,
    ) || same(prompt.as_str(), OLDEST_CLEANUP_PROMPT) {
        *prompt = DEFAULT_CLEANUP_PROMPT.to_owned();
        true
    } else {
        false
    }
}

/// What of a page an edited image replaces.
#[derive(Clone, Copy, Debug, PartialEq, Eq, Structural)]
pub enum InpaintingApplyMode {
    FullPage,
    Mask,
}

impl Default for InpaintingApplyMode {
    fn default() -> (result: InpaintingApplyMode)
        ensures
            result == InpaintingApplyMode::FullPage,
    {
        InpaintingApplyMode::FullPage
    }
}

/// How an image is edited by a service.
#[derive(Debug)]
pub struct ImageEditConfig {
    pub prompt: String,
    pub apply_mode: InpaintingApplyMode,
}

impl Clone for ImageEditConfig {
    fn clone(&self) -> (result: ImageEditConfig)
        ensures
            result == *self,
    {
        ImageEditConfig { prompt: self.prompt.clone(), apply_mode: self.apply_mode }
    }
}

impl Default for ImageEditConfig {
    fn default() -> (result: ImageEditConfig)
        ensures
            result.prompt@ == DEFAULT_CLEANUP_PROMPT@,
            result.apply_mode == InpaintingApplyMode::FullPage,
    {
        ImageEditConfig {
            prompt: DEFAULT_CLEANUP_PROMPT.to_owned(),
            apply_mode: InpaintingApplyMode::FullPage,
        }
    }
}

/// The models of the service that can edit an image.
#[derive(Clone, Copy, Debug, PartialEq, Eq, Structural)]
pub enum FalModel {
    MaiImage2_5Edit,
    MaiImage2_5ProEdit,
}

impl FalModel {
    /// The name by which the service knows the model.
    pub open spec fn name(self) -> Seq<char> {
        match self {
            FalModel::MaiImage2_5Edit => "microsoft/mai-image-2.5/edit"@,
            FalModel::MaiImage2_5ProEdit => "microsoft/mai-image-2.5-pro/edit"@,
        }
    }

    /// The name by which the service knows the model.
    pub fn id(self) -> (result: &'static str)
        ensures
            result@ == self.name(),
    {
        match self {
            FalModel::MaiImage2_5Edit => "microsoft/mai-image-2.5/edit",
            FalModel::MaiImage2_5ProEdit => "microsoft/mai-image-2.5-pro/edit",
        }
    }

    /// Whether the model takes a single image.
    pub fn pro(self) -> (result: bool)
        ensures
            result == (self == FalModel::MaiImage2_5ProEdit),
    {
        match self {
            FalModel::MaiImage2_5Edit => false,
            FalModel::MaiImage2_5ProEdit => true,
        }
    }
}

/// Why a credential cannot be used.
#[derive(Clone, Copy, Debug, PartialEq, Eq, Structural)]
pub enum KeyError {
    Empty,
    NoValue,
    InnerSpace,
}

impl KeyError {
    pub open spec fn text(self) -> Seq<char> {
        match self {
            KeyError::Empty => "Fal.ai credential is empty"@,
            KeyError::NoValue => "Fal.ai credential has no FAL_KEY value"@,
            KeyError::InnerSpace =>
                "Fal.ai credential contains whitespace inside the FAL_KEY value"@,
        }
    }

    pub fn message(self) -> (result: &'static str)
        ensures
            result@ == self.text(),
    {
        match self {
            KeyError::Empty => "Fal.ai credential is empty",
            KeyError::NoValue => "Fal.ai credential has no FAL_KEY value",
            KeyError::InnerSpace => "Fal.ai credential contains whitespace inside the FAL_KEY value",
        }
    }
}

/// A text holds a separator.
pub open spec fn has_space(text: Seq<char>) -> bool {
    exists|i: int| 0 <= i < text.len() && is_space(#[trigger] text[i])
}

/// The key in a credential, which may have the word `Key` before it.
pub open spec fn key_part(credential: Seq<char>) -> Seq<char> {
    let content = trimmed(credential);
    let end = word_length(content) as int;
    if lower(content.take(end)) != "key"@ {
        content
    } else if end < content.len() {
        trimmed(content.skip(end + 1))
    } else {
        Seq::empty()
    }
}

/// The key in a credential, or why there is none.
pub open spec fn normalized_key(credential: Seq<char>) -> Result<Seq<char>, KeyError> {
    if trimmed(credential).len() == 0 {
        Err(KeyError::Empty)
    } else if key_part(credential).len() == 0 {
        Err(KeyError::NoValue)
    } else if has_space(key_part(credential)) {
        Err(KeyError::InnerSpace)
    } else {
        Ok(key_part(credential))
    }
}

fn word_end(text: &Vec<char>) -> (result: usize)
    ensures
        result == word_length(text@),
        result <= text.len(),
{
    let mut end: usize = 0;
    proof {
        assert(text@.skip(0) =~= text@);
    }
    while end < text.len() && !space(text[end])
        invariant
            end <= text.len(),
            word_length(text@) == end + word_length(text@.skip(end as int)),
        decreases text.len() - end,
    {
        proof {
            let rest = text@.skip(end as int);
            assert(rest[0] == text@[end as int]);
            assert(rest.drop_first() =~= text@.skip(end as int + 1));
        }
        end += 1;
    }
    proof {
        if end < text.len() {
            assert(text@.skip(end as int)[0] == text@[end as int]);
        }
    }
    end
}

/// Takes the key out of a credential.
pub fn normalize_key(credential: &str) -> (result: Result<String, KeyError>)
    ensures
        match result {
            Ok(key) => normalized_key(credential@) == Ok::<Seq<char>, KeyError>(key@),
            Err(error) => normalized_key(credential@) == Err::<Seq<char>, KeyError>(error),
        },
{
    let content = chars(trim(credential).as_str());
    if content.len() == 0 {
        return Err(KeyError::Empty);
    }
    let end = word_end(&content);
    let prefix = slice(&content, 0, end);
    proof {
        assert(prefix@ =~= content@.take(end as int));
    }
    let key = if !same_ignoring_case(prefix.as_str(), "key") {
        proof {
            assert(content@.subrange(0, content@.len() as int) =~= content@);
            lemma_key_is_lower();
        }
        slice(&content, 0, content.len())
    } else if end < content.len() {
        let rest = slice(&content, end + 1, content.len());
        proof {
            assert(rest@ =~= content@.skip(end + 1));
            lemma_key_is_lower();
        }
        trim(rest.as_str())
    } else {
        proof {
            lemma_key_is_lower();
        }
        String::new()
    };
    proof {
        assert(key@ =~= key_part(credential@));
    }
    let letters = chars(key.as_str());
    if letters.len() == 0 {
        return Err(KeyError::NoValue);
    }
    let mut index: usize = 0;
    while index < letters.len()
        invariant
            index <= letters.len(),
            letters@ == key@,
            trimmed(credential@).len() > 0,
            key@ == key_part(credential@),
            key@.len() > 0,
            forall|i: int| 0 <= i < index ==> !is_space(#[trigger] key@[i]),
        decreases letters.len() - index,
    {
        if space(letters[index]) {
            proof {
                assert(is_space(key@[index as int]));
            }
            return Err(KeyError::InnerSpace);
        }
        index += 1;
    }
    Ok(key)
}

proof fn lemma_key_is_lower()
    ensures
        lower("key"@) == "key"@,
{
    reveal_strlit("key");
    assert(lower("key"@) =~= "key"@);
}

/// The instruction that is sent: a changed one is followed by the default as its boundary.
pub open spec fn sent_prompt(prompt: Seq<char>) -> Seq<char> {
    let content = trimmed(prompt);
    if content == DEFAULT_CLEANUP_PROMPT@ {
        content
    } else {
        content + "\n\nSafety boundary: "@ + DEFAULT_CLEANUP_PROMPT@
    }
}

/// What is asked of the service.
pub open spec fn request_value(
    model: FalModel,
    prompt: Seq<char>,
    data_uri: Seq<char>,
) -> JsonValue {
    let image = if model == FalModel::MaiImage2_5ProEdit {
        ("image_url"@, JsonValue::Text(data_uri))
    } else {
        ("image_urls"@, JsonValue::List(seq![JsonValue::Text(data_uri)]))
    };
    JsonValue::Object(
        seq![
            ("prompt"@, JsonValue::Text(sent_prompt(prompt))),
            ("num_images"@, JsonValue::Integer(1)),
            ("aspect_ratio"@, JsonValue::Text("auto"@)),
            ("output_format"@, JsonValue::Text("png"@)),
            image,
        ],
    )
}

proof fn lemma_fields(model: FalModel, prompt: Seq<char>, data_uri: Seq<char>)
    ensures
        field(request_value(model, prompt, data_uri), "prompt"@) == Some(
            JsonValue::Text(sent_prompt(prompt)),
        ),
        field(request_value(model, prompt, data_uri), "num_images"@) == Some(
            JsonValue::Integer(1),
        ),
        field(request_value(model, prompt, data_uri), "aspect_ratio"@) == Some(
            JsonValue::Text("auto"@),
        ),
        field(request_value(model, prompt, data_uri), "output_format"@) == Some(
            JsonValue::Text("png"@),
        ),
        field(request_value(model, prompt, data_uri), "image_url"@) == (if model
            == FalModel::MaiImage2_5ProEdit {
            Some(JsonValue::Text(data_uri))
        } else {
            None
        }),
        field(request_value(model, prompt, data_uri), "image_urls"@) == (if model
            == FalModel::MaiImage2_5ProEdit {
            None
        } else {
            Some(JsonValue::List(seq![JsonValue::Text(data_uri)]))
        }),
{
    reveal_strlit("prompt");
    reveal_strlit("num_images");
    reveal_strlit("aspect_ratio");
    reveal_strlit("output_format");
    reveal_strlit("image_url");
    reveal_strlit("image_urls");
    reveal_with_fuel(first_field, 6);
    let fields = request_value(model, prompt, data_uri)->Object_0;
    assert("prompt"@.len() == 6 && "num_images"@.len() == 10 && "aspect_ratio"@.len() == 12
        && "output_format"@.len() == 13 && "image_url"@.len() == 9 && "image_urls"@.len() == 10);
    assert("num_images"@[0] == 'n' && "image_urls"@[0] == 'i');
}

/// Whatever the model and the image, the instruction that is sent begins with the one that the
/// user gave, without the separators around it, and ends with the default one. Only where the
/// user gave the default one is nothing added.
pub proof fn law_instruction_is_sent_within_its_boundary(
    model: FalModel,
    prompt: Seq<char>,
    data_uri: Seq<char>,
) -> (sent: Seq<char>)
    ensures
        field(request_value(model, prompt, data_uri), "prompt"@) == Some(JsonValue::Text(sent)),
        sent.len() >= trimmed(prompt).len(),
        sent.take(trimmed(prompt).len() as int) == trimmed(prompt),
        sent.len() >= DEFAULT_CLEANUP_PROMPT@.len(),
        sent.skip(sent.len() - DEFAULT_CLEANUP_PROMPT@.len()) == DEFAULT_CLEANUP_PROMPT@,
        trimmed(prompt) == DEFAULT_CLEANUP_PROMPT@ ==> sent == DEFAULT_CLEANUP_PROMPT@,
        trimmed(prompt) != DEFAULT_CLEANUP_PROMPT@ ==> sent == trimmed(prompt)
            + "\n\nSafety boundary: "@ + DEFAULT_CLEANUP_PROMPT@,
{
    lemma_fields(model, prompt, data_uri);
    let sent = sent_prompt(prompt);
    let content = trimmed(prompt);
    assert(sent.take(content.len() as int) =~= content);
    assert(sent.skip(sent.len() - DEFAULT_CLEANUP_PROMPT@.len()) =~= DEFAULT_CLEANUP_PROMPT@);
    sent
}

/// The instruction that is sent depends on neither the model nor the image, and two instructions
/// are sent as one only where they differ in nothing but the separators around them.
pub proof fn law_instruction_does_not_depend_on_the_model(
    model: FalModel,
    prompt: Seq<char>,
    data_uri: Seq<char>,
    other_model: FalModel,
    other_prompt: Seq<char>,
    other_uri: Seq<char>,
)
    ensures
        field(request_value(model, prompt, data_uri), "prompt"@) == field(
            request_value(other_model, other_prompt, other_uri),
            "prompt"@,
        ) <==> trimmed(prompt) == trimmed(other_prompt),
{
    let sent = law_instruction_is_sent_within_its_boundary(model, prompt, data_uri);
    let other = law_instruction_is_sent_within_its_boundary(other_model, other_prompt, other_uri);
    if sent == other {
        reveal_strlit("\n\nSafety boundary: ");
        assert("\n\nSafety boundary: "@.len() > 0);
        assert(sent.take(trimmed(prompt).len() as int) == trimmed(prompt));
        assert(other.take(trimmed(other_prompt).len() as int) == trimmed(other_prompt));
    }
}

/// One image is asked for in every case. The image of the page goes to the one model by itself
/// and to the other as the only one of a list.
pub proof fn law_one_image_is_sent_and_one_asked_for(
    model: FalModel,
    prompt: Seq<char>,
    data_uri: Seq<char>,
)
    ensures
        field(request_value(model, prompt, data_uri), "num_images"@) == Some(JsonValue::Integer(1)),
        field(request_value(model, prompt, data_uri), "output_format"@) == Some(
            JsonValue::Text("png"@),
        ),
        field(request_value(model, prompt, data_uri), "aspect_ratio"@) == Some(
            JsonValue::Text("auto"@),
        ),
        model == FalModel::MaiImage2_5ProEdit ==> {
            &&& field(request_value(model, prompt, data_uri), "image_url"@) == Some(
                JsonValue::Text(data_uri),
            )
            &&& field(request_value(model, prompt, data_uri), "image_urls"@) is None
        },
        model == FalModel::MaiImage2_5Edit ==> {
            &&& field(request_value(model, prompt, data_uri), "image_urls"@) == Some(
                JsonValue::List(seq![JsonValue::Text(data_uri)]),
            )
            &&& field(request_value(model, prompt, data_uri), "image_url"@) is None
        },
{
    lemma_fields(model, prompt, data_uri);
}

/// What is asked of the service.
pub fn request_body(model: FalModel, config: &ImageEditConfig, data_uri: &str) -> (result: Json)
    ensures
        result@ == request_value(model, config.prompt@, data_uri@),
        text_of(field(result@, "prompt"@)) matches Some(sent) && {
            &&& occurs_at(sent, trimmed(config.prompt@), 0)
            &&& occurs_at(
                sent,
                DEFAULT_CLEANUP_PROMPT@,
                sent.len() - DEFAULT_CLEANUP_PROMPT@.len(),
            )
        },
{
    proof {
        let sent = law_instruction_is_sent_within_its_boundary(model, config.prompt@, data_uri@);
        assert(sent.subrange(0, trimmed(config.prompt@).len() as int) =~= sent.take(
            trimmed(config.prompt@).len() as int,
        ));
        let at = sent.len() - DEFAULT_CLEANUP_PROMPT@.len();
        assert(sent.subrange(at, sent.len() as int) =~= sent.skip(at));
    }
    let mut prompt = trim(config.prompt.as_str());
    if !same(prompt.as_str(), DEFAULT_CLEANUP_PROMPT) {
        prompt.append("\n\nSafety boundary: ");
        prompt.append(DEFAULT_CLEANUP_PROMPT);
    }
    let mut body = ObjectBuilder::new();
    body.field("prompt", Json::Text(prompt));
    body.field("num_images", Json::Integer(1));
    body.field("aspect_ratio", text_value("auto"));
    body.field("output_format", text_value("png"));
    if model.pro() {
        body.field("image_url", text_value(data_uri));
    } else {
        let mut urls = ListBuilder::new();
        urls.push(text_value(data_uri));
        proof {
            assert(urls@ =~= seq![JsonValue::Text(data_uri@)]);
        }
        body.field("image_urls", urls.build());
    }
    proof {
        assert(body@ =~= request_value(model, config.prompt@, data_uri@)->Object_0);
    }
    body.build()
}

/// A key is found in a credential that holds nothing else but separators around it, and has none
/// within: it is the key as it stands there.
pub proof fn law_plain_credentials_are_keys(credential: Seq<char>)
    requires
        trimmed(credential).len() > 0,
        forall|i: int|
            0 <= i < trimmed(credential).len() ==> !is_space(#[trigger] trimmed(credential)[i]),
        lower(trimmed(credential)) != "key"@,
    ensures
        normalized_key(credential) == Ok::<Seq<char>, KeyError>(trimmed(credential)),
{
    let content = trimmed(credential);
    lemma_whole_word(content);
    assert(content.take(content.len() as int) =~= content);
}

proof fn lemma_whole_word(text: Seq<char>)
    requires
        forall|i: int| 0 <= i < text.len() ==> !is_space(#[trigger] text[i]),
    ensures
        word_length(text) == text.len(),
    decreases text.len(),
{
    if text.len() > 0 {
        let rest = text.drop_first();
        assert forall|i: int| 0 <= i < rest.len() implies !is_space(#[trigger] rest[i]) by {
            assert(rest[i] == text[i + 1]);
        }
        lemma_whole_word(rest);
    }
}

/// Whatever key is found in a credential holds something and no separator.
pub proof fn law_keys_hold_no_separator(credential: Seq<char>, at: int)
    requires
        normalized_key(credential) is Ok,
        0 <= at < normalized_key(credential)->Ok_0.len(),
    ensures
        normalized_key(credential)->Ok_0.len() > 0,
        !is_space(normalized_key(credential)->Ok_0[at]),
{
}

} // verus!
