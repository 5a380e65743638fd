//! What models are told, and the shape in which they answer.

use vstd::prelude::*;

use crate::json::{
    size, size_value, text as text_value, Json, JsonValue, ListBuilder, ObjectBuilder,
};
use crate::request::{LanguageName, OcrRequest, TranslationRequest};
use crate::text::{occurs, occurs_at, trim, trimmed};

verus! {

/// How the instructions for a translation begin.
pub const PROMPT_OPENING: &'static str = "You are a professional manga translator.\n\nTranslation requirements:\n- Translate every input segment from ";

/// What stands between the two languages.
pub const PROMPT_INTO: &'static str = " into natural ";

/// The rules of translation up to the second time that the target is named.
pub const PROMPT_RULES: &'static str = ".\n- Preserve meaning, character voice, emotional tone, relationship nuance, emphasis, and sound effects.\n- Localize idioms and sound effects naturally while keeping wording concise enough for speech bubbles.\n- Use surrounding segments only for disambiguation and continuity; never merge or split segments.\n- Each segment may include semantic metadata: `role` is the existing scene text role, and `inside_balloon` indicates the existing detected dialogue-balloon relation. Use these hints to distinguish dialogue, captions, and sound effects, but never alter segment boundaries.\n- Write every `translated_text` value only in ";

/// What stands before the target is named for the last time.
pub const PROMPT_NO_NOTES: &'static str = "; do not include notes, explanations, or alternatives.\n- Never preserve or repeat original-language text; translate names, terms, and sound effects using natural ";

/// The rest of the instructions, down to the rules of output.
pub const PROMPT_OUTPUT: &'static str = " conventions.\n\nOutput requirements:\n- Each input segment has a stable string `id`, `page_id`, and `region_id`.\n- In chapter mode, the stable ID format is exactly `page:<page_uuid>::region:<region_uuid>`.\n- Return only a JSON object with `translations` and `notes`. The translations array contains one object with `id`, `page_id`, `region_id`, `source_text`, and `translated_text` for every input segment.\n- Copy every input ID, page_id, region_id, and source text exactly; translate only `translated_text` and leave notes empty.\n- Every input ID must appear exactly once; order does not matter.\n- Never merge, split, omit, duplicate, or add segments.\n- The response is imported automatically. A changed ID, page, or source text invalidates the entire response.";

/// What a chapter asks for besides.
pub const CHAPTER_RULES: &'static str = "Chapter requirements:\n- Translate the supplied pages as one coherent chapter; the supplied page order is the manga reading sequence.\n- Keep character names, terminology, forms of address, voice, and recurring sound-effect localization consistent across all pages.\n- Use `unit_type`, `bubble_id`, `role`, `inside_balloon`, and `is_sound_effect` to distinguish dialogue groups, captions, labels, and onomatopoeia. Translate each according to its function while preserving its exact stable segment ID.\n- Units are context only: return one translation object for every segment, never one result per unit.\n- Do not move text between pages, combine nearby balloons, or attach a translation to a different segment even when that would read more naturally.";

/// What earlier translations ask for besides.
pub const CONTEXT_RULES: &'static str = "Context requirements:\nUse the supplied context only to preserve terminology, character voice, and dialogue continuity.\nDo not translate or return the context entries.";

/// What an image asks for besides.
pub const IMAGE_RULES: &'static str = "Image requirements:\nUse the attached original page image as visual context for speaker identity, tone, layout, and ambiguous OCR.\nTranslate only the supplied segments; do not add text seen in the image that is absent from the input segments.";

/// The instructions for reading text.
pub const OCR_RULES: &'static str = "You are an OCR engine for manga and comics.\nTranscribe every visible character in the attached cropped text region exactly as written.\nPreserve the original language, punctuation, repeated characters, ruby/furigana, and meaningful line breaks.\nDo not translate, explain, normalize, autocorrect, censor, or infer text that is not visible.\nReturn only a JSON object with one string field named `text`.";

/// What stands before the instructions of the user.
pub const USER_RULES: &'static str = "\n\nAdditional instructions:\n";

/// A language in words, or other words where it is not known.
pub open spec fn language_words(language: Option<LanguageName>, unknown: Seq<char>) -> Seq<char> {
    match language {
        Some(name) => name.words@,
        None => unknown,
    }
}

/// The instructions of the user, where there are any.
pub open spec fn user_rules(instructions: Option<String>) -> Seq<char> {
    match instructions {
        Some(text) => if trimmed(text@).len() > 0 {
            USER_RULES@ + trimmed(text@)
        } else {
            Seq::empty()
        },
        None => Seq::empty(),
    }
}

/// A paragraph of its own, where a condition holds.
pub open spec fn paragraph(needed: bool, rules: Seq<char>) -> Seq<char> {
    if needed {
        "\n\n"@ + rules
    } else {
        Seq::empty()
    }
}

/// What a model is told before it translates.
pub open spec fn system_prompt(request: TranslationRequest) -> Seq<char> {
    let source = language_words(request.source_language, "the detected source language"@);
    let target = request.target_language.words@;
    PROMPT_OPENING@ + source + PROMPT_INTO@ + target + PROMPT_RULES@ + target + PROMPT_NO_NOTES@
        + target + PROMPT_OUTPUT@ + paragraph(request.page_numbers is Some, CHAPTER_RULES@)
        + paragraph(request.context@.len() > 0, CONTEXT_RULES@) + paragraph(
        request.image is Some,
        IMAGE_RULES@,
    ) + user_rules(request.instructions)
}

fn language_text(language: &Option<LanguageName>, unknown: &str) -> (result: String)
    ensures
        result@ == language_words(*language, unknown@),
{
    match language {
        Some(name) => name.words.clone(),
        None => unknown.to_owned(),
    }
}

fn add_paragraph(prompt: &mut String, needed: bool, rules: &str)
    ensures
        final(prompt)@ == old(prompt)@ + paragraph(needed, rules@),
{
    if needed {
        prompt.append("\n\n");
        prompt.append(rules);
    }
    proof {
        assert(prompt@ =~= old(prompt)@ + paragraph(needed, rules@));
    }
}

fn add_user_rules(prompt: &mut String, instructions: &Option<String>)
    ensures
        final(prompt)@ == old(prompt)@ + user_rules(*instructions),
{
    if let Some(text) = instructions {
        let rules = trim(text.as_str());
        if rules.as_str().unicode_len() > 0 {
            prompt.append(USER_RULES);
            prompt.append(rules.as_str());
        }
    }
    proof {
        assert(prompt@ =~= old(prompt)@ + user_rules(*instructions));
    }
}

/// What a model is told before it translates.
pub fn translation_system_prompt(request: &TranslationRequest) -> (result: String)
    ensures
        result@ == system_prompt(*request),
{
    let source = language_text(&request.source_language, "the detected source language");
    let target = request.target_language.words.as_str();
    let mut prompt = PROMPT_OPENING.to_owned();
    prompt.append(source.as_str());
    prompt.append(PROMPT_INTO);
    prompt.append(target);
    prompt.append(PROMPT_RULES);
    prompt.append(target);
    prompt.append(PROMPT_NO_NOTES);
    prompt.append(target);
    prompt.append(PROMPT_OUTPUT);
    add_paragraph(&mut prompt, request.is_chapter(), CHAPTER_RULES);
    add_paragraph(&mut prompt, request.context.len() > 0, CONTEXT_RULES);
    add_paragraph(&mut prompt, request.image.is_some(), IMAGE_RULES);
    add_user_rules(&mut prompt, &request.instructions);
    prompt
}

/// What a model is told before it reads text.
pub open spec fn ocr_system_prompt(request: OcrRequest) -> Seq<char> {
    OCR_RULES@ + "\n\nExpected source language: "@ + language_words(
        request.source_language,
        "the configured source language"@,
    ) + ". Do not translate"@ + " from this language; transcribe it exactly."@ + user_rules(
        request.instructions,
    )
}

/// What a model is asked when it reads text.
pub open spec fn ocr_question(request: OcrRequest) -> Seq<char> {
    "Transcribe the attached manga text crop in "@ + language_words(
        request.source_language,
        "the configured source language"@,
    ) + ". Return only {\"text\":\"...\"}."@
}

/// What a model is told and asked when it reads text.
pub fn ocr_prompts(request: &OcrRequest) -> (result: (String, String))
    ensures
        result.0@ == ocr_system_prompt(*request),
        result.1@ == ocr_question(*request),
{
    let source = language_text(&request.source_language, "the configured source language");
    let mut system = OCR_RULES.to_owned();
    system.append("\n\nExpected source language: ");
    system.append(source.as_str());
    system.append(". Do not translate");
    system.append(" from this language; transcribe it exactly.");
    add_user_rules(&mut system, &request.instructions);
    let mut question = "Transcribe the attached manga text crop in ".to_owned();
    question.append(source.as_str());
    question.append(". Return only {\"text\":\"...\"}.");
    (system, question)
}

/// The shape of a text with a description.
pub open spec fn described(description: Seq<char>) -> JsonValue {
    JsonValue::Object(
        seq![
            ("type"@, JsonValue::Text("string"@)),
            ("description"@, JsonValue::Text(description)),
        ],
    )
}

fn describe(description: &str) -> (result: Json)
    ensures
        result@ == described(description@),
{
    let mut shape = ObjectBuilder::new();
    shape.field("type", text_value("string"));
    shape.field("description", text_value(description));
    proof {
        assert(shape@ =~= described(description@)->Object_0);
    }
    shape.build()
}

/// The shape of an object with these properties and no others.
pub open spec fn closed_object(
    properties: Seq<(Seq<char>, JsonValue)>,
    required: Seq<JsonValue>,
) -> JsonValue {
    JsonValue::Object(
        seq![
            ("type"@, JsonValue::Text("object"@)),
            ("properties"@, JsonValue::Object(properties)),
            ("required"@, JsonValue::List(required)),
            ("additionalProperties"@, JsonValue::Bool(false)),
        ],
    )
}

fn close_object(properties: ObjectBuilder, required: ListBuilder) -> (result: Json)
    ensures
        result@ == closed_object(properties@, required@),
{
    let mut shape = ObjectBuilder::new();
    shape.field("type", text_value("object"));
    shape.field("properties", properties.build());
    shape.field("required", required.build());
    shape.field("additionalProperties", Json::Bool(false));
    proof {
        assert(shape@ =~= closed_object(properties@, required@)->Object_0);
    }
    shape.build()
}

/// The properties of a translated segment.
pub open spec fn segment_properties() -> Seq<(Seq<char>, JsonValue)> {
    seq![
        ("id"@, described("The stable ID copied from the corresponding input segment."@)),
        ("page_id"@, described("The page_id copied exactly from the corresponding input page."@)),
        (
            "region_id"@,
            described("The region_id copied exactly from the corresponding input segment."@),
        ),
        (
            "source_text"@,
            described("The source text copied exactly from the corresponding input segment."@),
        ),
        ("translated_text"@, described("The translation of the input segment with this ID."@)),
    ]
}

/// The names of the properties of a translated segment.
pub open spec fn segment_names() -> Seq<JsonValue> {
    seq![
        JsonValue::Text("id"@),
        JsonValue::Text("page_id"@),
        JsonValue::Text("region_id"@),
        JsonValue::Text("source_text"@),
        JsonValue::Text("translated_text"@),
    ]
}

/// The shape of a list of so many translated segments.
pub open spec fn translations_shape(expected: nat) -> JsonValue {
    JsonValue::Object(
        seq![
            ("type"@, JsonValue::Text("array"@)),
            ("minItems"@, size_value(expected)),
            ("maxItems"@, size_value(expected)),
            ("items"@, closed_object(segment_properties(), segment_names())),
        ],
    )
}

/// The shape in which a model answers with so many translations.
pub open spec fn schema(expected: nat) -> JsonValue {
    closed_object(
        seq![
            ("translations"@, translations_shape(expected)),
            (
                "notes"@,
                described("Leave empty unless a short non-actionable note is necessary."@),
            ),
        ],
        seq![JsonValue::Text("translations"@), JsonValue::Text("notes"@)],
    )
}

fn segment_shape() -> (result: Json)
    ensures
        result@ == closed_object(segment_properties(), segment_names()),
{
    let mut properties = ObjectBuilder::new();
    properties.field(
        "id",
        describe("The stable ID copied from the corresponding input segment."),
    );
    properties.field(
        "page_id",
        describe("The page_id copied exactly from the corresponding input page."),
    );
    properties.field(
        "region_id",
        describe("The region_id copied exactly from the corresponding input segment."),
    );
    properties.field(
        "source_text",
        describe("The source text copied exactly from the corresponding input segment."),
    );
    properties.field(
        "translated_text",
        describe("The translation of the input segment with this ID."),
    );
    let mut required = ListBuilder::new();
    required.push(text_value("id"));
    required.push(text_value("page_id"));
    required.push(text_value("region_id"));
    required.push(text_value("source_text"));
    required.push(text_value("translated_text"));
    proof {
        assert(properties@ =~= segment_properties());
        assert(required@ =~= segment_names());
    }
    close_object(properties, required)
}

/// The shape in which a model answers with so many translations.
pub fn output_schema(expected: usize) -> (result: Json)
    ensures
        result@ == schema(expected as nat),
{
    let mut list = ObjectBuilder::new();
    list.field("type", text_value("array"));
    list.field("minItems", size(expected));
    list.field("maxItems", size(expected));
    list.field("items", segment_shape());
    proof {
        assert(list@ =~= translations_shape(expected as nat)->Object_0);
    }
    let mut properties = ObjectBuilder::new();
    properties.field("translations", list.build());
    properties.field(
        "notes",
        describe("Leave empty unless a short non-actionable note is necessary."),
    );
    let mut required = ListBuilder::new();
    required.push(text_value("translations"));
    required.push(text_value("notes"));
    proof {
        assert(properties@ =~= seq![
            ("translations"@, translations_shape(expected as nat)),
            (
                "notes"@,
                described("Leave empty unless a short non-actionable note is necessary."@),
            ),
        ]);
        assert(required@ =~= seq![JsonValue::Text("translations"@), JsonValue::Text("notes"@)]);
    }
    close_object(properties, required)
}

/// The shape in which a model answers with what it read.
pub open spec fn ocr_schema() -> JsonValue {
    closed_object(
        seq![("text"@, described("Exact transcription of the attached image crop."@))],
        seq![JsonValue::Text("text"@)],
    )
}

/// The shape in which a model answers with what it read.
pub fn ocr_output_schema() -> (result: Json)
    ensures
        result@ == ocr_schema(),
{
    let mut properties = ObjectBuilder::new();
    properties.field("text", describe("Exact transcription of the attached image crop."));
    let mut required = ListBuilder::new();
    required.push(text_value("text"));
    proof {
        assert(properties@ =~= seq![
            ("text"@, described("Exact transcription of the attached image crop."@)),
        ]);
        assert(required@ =~= seq![JsonValue::Text("text"@)]);
    }
    close_object(properties, required)
}

/// What became of the first JSON value in an answer.
pub enum OcrAnswer {
    Invalid,
    Empty,
    Text(String),
}

/// What a model read, or why that is not known.
pub fn ocr_text(provider: &str, answer: OcrAnswer) -> (result: Result<String, String>)
    ensures
        match answer {
            OcrAnswer::Text(text) => result matches Ok(content) && content@ == text@,
            OcrAnswer::Invalid => result matches Err(message) && message@ == provider@
                + " returned invalid OCR JSON"@,
            OcrAnswer::Empty => result matches Err(message) && message@ == provider@
                + " returned empty OCR JSON"@,
        },
{
    match answer {
        OcrAnswer::Text(text) => Ok(text),
        OcrAnswer::Invalid => {
            let mut message = provider.to_owned();
            message.append(" returned invalid OCR JSON");
            Err(message)
        },
        OcrAnswer::Empty => {
            let mut message = provider.to_owned();
            message.append(" returned empty OCR JSON");
            Err(message)
        },
    }
}

/// What the user asks for stands at the end of what a model is told, without the separators around
/// it and behind all else, which is the same as without it.
pub proof fn law_instructions_of_the_user_come_last(request: TranslationRequest)
    ensures
        ({
            let without = TranslationRequest { instructions: None, ..request };
            &&& request.instructions is None ==> system_prompt(request) == system_prompt(without)
            &&& request.instructions matches Some(text) ==> {
                &&& trimmed(text@).len() == 0 ==> system_prompt(request) == system_prompt(without)
                &&& trimmed(text@).len() > 0 ==> system_prompt(request) == system_prompt(without)
                    + ("\n\nAdditional instructions:\n"@ + trimmed(text@))
            }
        }),
{
    let without = TranslationRequest { instructions: None, ..request };
    assert(system_prompt(without) + Seq::<char>::empty() =~= system_prompt(without));
}

/// A model is told the language of the texts, where that is known, and the one that is asked for.
/// It is told the rules of chapters, of earlier texts and of pictures exactly where there are any:
/// each of them adds a paragraph.
pub proof fn law_model_is_told_what_it_gets(request: TranslationRequest)
    ensures
        occurs(system_prompt(request), request.target_language.words@),
        request.source_language matches Some(source) ==> occurs(
            system_prompt(request),
            source.words@,
        ),
        request.page_numbers is Some ==> occurs(system_prompt(request), CHAPTER_RULES@),
        request.context@.len() > 0 ==> occurs(system_prompt(request), CONTEXT_RULES@),
        request.image is Some ==> occurs(system_prompt(request), IMAGE_RULES@),
        request.image is Some ==> system_prompt(request).len() == system_prompt(
            (TranslationRequest { image: None, ..request }),
        ).len() + 2 + IMAGE_RULES@.len(),
        request.page_numbers is Some ==> system_prompt(request).len() == system_prompt(
            (TranslationRequest { page_numbers: None, ..request }),
        ).len() + 2 + CHAPTER_RULES@.len(),
{
    reveal_strlit("\n\n");
    assert("\n\n"@.len() == 2);
    let source = language_words(request.source_language, "the detected source language"@);
    let target = request.target_language.words@;
    let opening = PROMPT_OPENING@;
    let head = opening + source + PROMPT_INTO@;
    let base = head + target + PROMPT_RULES@ + target + PROMPT_NO_NOTES@ + target + PROMPT_OUTPUT@;
    let chapter = paragraph(request.page_numbers is Some, CHAPTER_RULES@);
    let context = paragraph(request.context@.len() > 0, CONTEXT_RULES@);
    let image = paragraph(request.image is Some, IMAGE_RULES@);
    let whole = system_prompt(request);
    assert(whole == base + chapter + context + image + user_rules(request.instructions));
    assert(whole.subrange(head.len() as int, head.len() as int + target.len()) =~= target);
    assert(occurs_at(whole, target, head.len() as int));
    assert(whole.subrange(opening.len() as int, opening.len() as int + source.len()) =~= source);
    assert(occurs_at(whole, source, opening.len() as int));
    if request.page_numbers is Some {
        let at = base.len() as int + 2;
        assert(whole.subrange(at, at + CHAPTER_RULES@.len()) =~= CHAPTER_RULES@);
        assert(occurs_at(whole, CHAPTER_RULES@, at));
    }
    if request.context@.len() > 0 {
        let at = base.len() as int + chapter.len() + 2;
        assert(whole.subrange(at, at + CONTEXT_RULES@.len()) =~= CONTEXT_RULES@);
        assert(occurs_at(whole, CONTEXT_RULES@, at));
    }
    if request.image is Some {
        let at = base.len() as int + chapter.len() + context.len() + 2;
        assert(whole.subrange(at, at + IMAGE_RULES@.len()) =~= IMAGE_RULES@);
        assert(occurs_at(whole, IMAGE_RULES@, at));
    }
}

/// A model that reads text is told the language of the text, where that is known, in what it is told
/// and in what it is asked. What the user asks for comes last.
pub proof fn law_reading_model_is_told_the_language(request: OcrRequest)
    ensures
        request.source_language matches Some(source) ==> occurs(
            ocr_system_prompt(request),
            source.words@,
        ) && occurs(ocr_question(request), source.words@),
        request.instructions matches Some(text) ==> trimmed(text@).len() > 0 ==> ocr_system_prompt(
            request,
        ) == ocr_system_prompt((OcrRequest { instructions: None, ..request })) + (
        "\n\nAdditional instructions:\n"@ + trimmed(text@)),
        occurs_at(ocr_system_prompt(request), OCR_RULES@, 0),
{
    let source = language_words(request.source_language, "the configured source language"@);
    let head = OCR_RULES@ + "\n\nExpected source language: "@;
    let whole = ocr_system_prompt(request);
    assert(whole.subrange(0, OCR_RULES@.len() as int) =~= OCR_RULES@);
    assert(whole.subrange(head.len() as int, head.len() as int + source.len()) =~= source);
    assert(occurs_at(whole, source, head.len() as int));
    let question = ocr_question(request);
    let start = "Transcribe the attached manga text crop in "@.len() as int;
    assert(question.subrange(start, start + source.len()) =~= source);
    assert(occurs_at(question, source, start));
    let without = ocr_system_prompt(OcrRequest { instructions: None, ..request });
    if let Some(text) = request.instructions {
        if trimmed(text@).len() > 0 {
            assert(whole =~= without + ("\n\nAdditional instructions:\n"@ + trimmed(text@)));
        }
    }
}

} // verus!
