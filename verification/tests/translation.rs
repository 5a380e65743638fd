//! Requests to models that translate, and their answers.

use koharu::answer::{translations, TranslationOutputSegment};
use koharu::bits::double_key;
use koharu::chapter::{
    collect_inputs, layer_extents, page_entries, page_request, skip_translation, write_translations,
    ChapterError, ChapterTranslation, Inputs, SourceRegion, TextLayer, TextOrigin, TextPage,
    TextTranslation, NO_TEXT,
};
use koharu::config::{TranslationConfig, TranslationProfile, TranslationUnitPolicy};
use koharu::entries::{order_entries, Extent};
use koharu::instructions::{
    ocr_output_schema, ocr_prompts, ocr_text, output_schema, translation_system_prompt, OcrAnswer,
};
use koharu::json::{write_json, Json};
use koharu::language::Language;
use koharu::layout::{LayoutItem, LayoutKind, Metrics, SpatialAxis};
use koharu::page_image::{encode_image, prepare_image, MAX_IMAGE_DIMENSION};
use koharu::prompt::prompts;
use koharu::regions::{page_layout_containers, RegionFact, ScopedRegion};
use koharu::request::{
    LanguageName, OcrRequest, RequestError, TranslationContext, TranslationRequest,
    TranslationSegmentMetadata, TranslationUnit,
};
use koharu::stage::EntityId;
use koharu::translator::{
    accept_translation, bound_chapter, chapter_output_budget, loaded, openrouter_request,
    plan_recognition, plan_translation, supports_vision, GenerationConfig, ListedModel,
    LoadedLocal, ModelSelection, OpenRouterTask, Provider, ReasoningCapabilities, ResponseMode,
    SegmentCount, TranslationPlan, MAX_ESTIMATED_CHAPTER_OUTPUT_TOKENS,
};
use koharu::typography::RgbPage;
use koharu::units::{
    adaptive_units, make_units, page_units, short_role, stable_segment_id, Target, UnitError,
};
use serde_json::Value;

fn language(words: &str, code: &str) -> LanguageName {
    LanguageName {
        words: words.to_owned(),
        code: code.to_owned(),
    }
}

fn english() -> LanguageName {
    language("English", "en-US")
}

fn russian() -> LanguageName {
    language("Russian", "ru")
}

fn japanese() -> LanguageName {
    language("Japanese", "ja-JP")
}

fn request(segments: &[&str], target: LanguageName) -> TranslationRequest {
    TranslationRequest::new(
        segments.iter().map(|&text| text.to_owned()).collect(),
        target,
    )
}

fn value(json: &Json) -> Value {
    serde_json::from_str(&write_json(json)).unwrap()
}

fn image(width: u32, height: u32) -> RgbPage {
    RgbPage {
        width,
        height,
        pixels: vec![127; 3 * (width * height) as usize],
    }
}

/// The segments in an answer, where it has the fields that an answer has and no others.
fn output(text: &str) -> Option<Vec<TranslationOutputSegment>> {
    let value = serde_json::from_str::<Value>(text).ok()?;
    let object = value.as_object()?;
    object.get("notes")?.as_str()?;
    if object.len() != 2 {
        return None;
    }
    object
        .get("translations")?
        .as_array()?
        .iter()
        .map(|segment| {
            let segment = segment.as_object()?;
            let field = |name: &str| Some(segment.get(name)?.as_str()?.to_owned());
            (segment.len() == 5).then_some(())?;
            Some(TranslationOutputSegment {
                id: field("id")?,
                page_id: field("page_id")?,
                region_id: field("region_id")?,
                source_text: field("source_text")?,
                translated_text: field("translated_text")?,
            })
        })
        .collect()
}

fn translated(text: &str, request: &TranslationRequest) -> Result<Vec<String>, String> {
    let segments = output(text).ok_or("test returned invalid translation JSON")?;
    translations("test", &segments, request)
}

#[test]
fn parses_plain_json() {
    let request = request(&["one", "two"], english());
    let expected = vec!["hello".to_owned(), "world".to_owned()];
    let response = r#"{"translations":[{"id":"segment:0","page_id":"page:1","region_id":"region:0","source_text":"one","translated_text":"hello"},{"id":"segment:1","page_id":"page:1","region_id":"region:1","source_text":"two","translated_text":"world"}],"notes":""}"#;
    assert_eq!(translated(response, &request).unwrap(), expected);
}

#[test]
fn the_order_of_answers_does_not_matter() {
    let request = request(&["one", "two"], english());
    let expected = vec!["hello".to_owned(), "world".to_owned()];
    let response = r#"{"translations":[{"id":"segment:1","page_id":"page:1","region_id":"region:1","source_text":"two","translated_text":"world"},{"id":"segment:0","page_id":"page:1","region_id":"region:0","source_text":"one","translated_text":"hello"}],"notes":""}"#;
    assert_eq!(translated(response, &request).unwrap(), expected);
}

#[test]
fn rejects_invalid_json() {
    let request = request(&["one", "two"], english());
    for response in [
        r#"{translations: [{id: 0, translated_text: 'hello'}]}"#,
        r#"Here is the result: {"translations": []}"#,
        "{\"translations\":[{\"id\":0",
        "```json\n{\"translations\":[]}\n```",
        r#"{"translations":[{"id":"0","page_id":"page:1","region_id":"region:0","source_text":"one","translated_text":"hello"}],"notes":""}"#,
    ] {
        assert!(translated(response, &request).is_err());
    }
}

#[test]
fn restores_input_order_from_ids() {
    let request = request(&["one", "two"], english());
    let response = r#"{"translations":[{"id":"segment:1","page_id":"page:1","region_id":"region:1","source_text":"two","translated_text":"world"},{"id":"segment:0","page_id":"page:1","region_id":"region:0","source_text":"one","translated_text":"hello"}],"notes":""}"#;
    assert_eq!(
        translated(response, &request).unwrap(),
        ["hello", "world"]
    );
}

#[test]
fn rejects_duplicate_missing_and_out_of_range_ids() {
    let request = request(&["one", "two"], english());
    let short = r#"{"translations":[{"id":"segment:1","page_id":"page:1","region_id":"region:1","source_text":"two","translated_text":"world"}],"notes":""}"#;
    assert_eq!(
        translated(short, &request).unwrap_err(),
        "test returned 1 translations, expected 2"
    );

    let duplicate = r#"{"translations":[{"id":"segment:0","page_id":"page:1","region_id":"region:0","source_text":"one","translated_text":"hello"},{"id":"segment:0","page_id":"page:1","region_id":"region:0","source_text":"one","translated_text":"duplicate"}],"notes":""}"#;
    assert_eq!(
        translated(duplicate, &request).unwrap_err(),
        "test returned duplicate translation ID segment:0"
    );

    let unknown = r#"{"translations":[{"id":"segment:0","page_id":"page:1","region_id":"region:0","source_text":"one","translated_text":"hello"},{"id":"segment:9","page_id":"page:1","region_id":"region:9","source_text":"extra","translated_text":"extra"}],"notes":""}"#;
    assert_eq!(
        translated(unknown, &request).unwrap_err(),
        "test returned unknown translation ID segment:9"
    );
}

#[test]
fn rejects_changed_page_or_source_text() {
    let request = request(&["one", "two"], english())
        .with_page_numbers(vec![2, 3])
        .unwrap();
    let wrong_page = r#"{"translations":[{"id":"segment:0","page_id":"page:2","region_id":"region:0","source_text":"one","translated_text":"hello"},{"id":"segment:1","page_id":"page:2","region_id":"region:1","source_text":"two","translated_text":"world"}],"notes":""}"#;
    assert_eq!(
        translated(wrong_page, &request).unwrap_err(),
        "test returned page page:2 for translation ID segment:1, expected page:3"
    );

    let changed_source = r#"{"translations":[{"id":"segment:0","page_id":"page:2","region_id":"region:0","source_text":"ONE","translated_text":"hello"},{"id":"segment:1","page_id":"page:3","region_id":"region:1","source_text":"two","translated_text":"world"}],"notes":""}"#;
    assert_eq!(
        translated(changed_source, &request).unwrap_err(),
        "test changed source text for translation ID segment:0"
    );

    let changed_region = r#"{"translations":[{"id":"segment:0","page_id":"page:2","region_id":"region:wrong","source_text":"one","translated_text":"hello"},{"id":"segment:1","page_id":"page:3","region_id":"region:1","source_text":"two","translated_text":"world"}],"notes":""}"#;
    assert!(translated(changed_region, &request).is_err());

    let unknown_field = r#"{"translations":[{"id":"segment:0","page_id":"page:2","region_id":"region:0","source_text":"one","translated_text":"hello","extra":true},{"id":"segment:1","page_id":"page:3","region_id":"region:1","source_text":"two","translated_text":"world"}],"notes":""}"#;
    assert!(translated(unknown_field, &request).is_err());
}

#[test]
fn prompt_payload_contains_ordered_context() {
    let request = request(&["new"], english())
        .with_context(vec![TranslationContext::new("old", "previous")]);
    let (_, user) = prompts(&request);
    let input: Value = serde_json::from_str(&user).unwrap();
    assert_eq!(input["references"][0]["source"], "old");
    assert_eq!(input["references"][0]["translation"], "previous");
    assert_eq!(input["segments"][0]["id"], "segment:0");
    assert_eq!(input["segments"][0]["page_index"], 1);
    assert_eq!(input["segments"][0]["source_text"], "new");
}

#[test]
fn prompt_payload_carries_scene_semantics_without_changing_identity() {
    let request = request(&["sound"], russian())
        .with_segment_metadata(vec![TranslationSegmentMetadata {
            role: Some("dev.koharu.text.onomatopoeia".to_owned()),
            inside_balloon: false,
            ..Default::default()
        }])
        .unwrap();
    let (_, user) = prompts(&request);
    let input: Value = serde_json::from_str(&user).unwrap();
    assert_eq!(input["segments"][0]["id"], "segment:0");
    assert_eq!(input["segments"][0]["source_text"], "sound");
    assert_eq!(input["segments"][0]["role"], "dev.koharu.text.onomatopoeia");
    assert_eq!(input["segments"][0]["inside_balloon"], false);
}

fn placed(page: &str, region: &str) -> TranslationSegmentMetadata {
    TranslationSegmentMetadata {
        page_id: Some(page.to_owned()),
        region_id: Some(region.to_owned()),
        ..Default::default()
    }
}

#[test]
fn chapter_payload_groups_pages_with_global_ids() {
    let request = request(&["first", "second", "third"], english())
        .with_segment_metadata(vec![
            placed("page-z", "region-a"),
            placed("page-z", "region-b"),
            placed("page-a", "region-c"),
        ])
        .unwrap()
        .with_page_numbers(vec![1, 1, 2])
        .unwrap()
        .with_units(
            "adaptive_v1",
            vec![
                TranslationUnit {
                    id: "unit-page-0001-0000".to_owned(),
                    page_id: "page-z".to_owned(),
                    page_index: 1,
                    unit_type: "dialogue_group".to_owned(),
                    region_ids: vec!["region-a".to_owned(), "region-b".to_owned()],
                    segment_ids: vec![
                        "page:page-z::region:region-a".to_owned(),
                        "page:page-z::region:region-b".to_owned(),
                    ],
                },
                TranslationUnit {
                    id: "unit-page-0002-0000".to_owned(),
                    page_id: "page-a".to_owned(),
                    page_index: 2,
                    unit_type: "page".to_owned(),
                    region_ids: vec!["region-c".to_owned()],
                    segment_ids: vec!["page:page-a::region:region-c".to_owned()],
                },
            ],
        );
    let (_, user) = prompts(&request);
    let input: Value = serde_json::from_str(&user).unwrap();

    assert!(input.get("segments").is_none());
    assert_eq!(input["unit_policy"], "adaptive_v1");
    assert_eq!(input["pages"][0]["page_id"], "page-z");
    assert_eq!(input["pages"][0]["page_index"], 1);
    assert_eq!(input["pages"][0]["units"][0]["id"], "unit-page-0001-0000");
    assert_eq!(
        input["pages"][0]["units"][0]["segments"][0]["id"],
        "page:page-z::region:region-a"
    );
    assert_eq!(
        input["pages"][0]["units"][0]["segments"][1]["id"],
        "page:page-z::region:region-b"
    );
    assert_eq!(input["pages"][1]["page_id"], "page-a");
    assert_eq!(input["pages"][1]["page_index"], 2);
    assert_eq!(
        input["pages"][1]["units"][0]["segments"][0]["id"],
        "page:page-a::region:region-c"
    );
}

#[test]
fn chapter_system_prompt_requires_coherent_role_aware_translation() {
    let request = request(&["dialogue", "sound"], russian())
        .with_source_language(japanese())
        .with_segment_metadata(vec![
            TranslationSegmentMetadata {
                role: Some("dev.koharu.text.dialogue".to_owned()),
                inside_balloon: true,
                ..Default::default()
            },
            TranslationSegmentMetadata {
                role: Some("dev.koharu.text.onomatopoeia".to_owned()),
                inside_balloon: false,
                ..Default::default()
            },
        ])
        .unwrap()
        .with_page_numbers(vec![1, 2])
        .unwrap();

    let prompt = translation_system_prompt(&request);
    assert!(prompt.contains("Chapter requirements:"));
    assert!(prompt.contains("one coherent chapter"));
    assert!(prompt.contains("manga reading sequence"));
    assert!(prompt.contains("Do not move text between pages"));
    assert!(prompt.contains("character names, terminology"));
}

#[test]
fn default_system_prompt_uses_source_and_target_languages() {
    let request = request(&["こんにちは"], russian()).with_source_language(japanese());
    let prompt = translation_system_prompt(&request);

    assert!(prompt.contains("from Japanese into natural Russian"));
    assert!(prompt.contains("Return only a JSON object"));
    assert!(prompt.contains("translated_text"));
    assert!(!prompt.contains("Additional instructions"));
}

#[test]
fn system_prompt_encodes_invariants_and_custom_instructions() {
    let request = request(&["hello"], language("Korean", "ko-KR"))
        .with_source_language(japanese())
        .with_instructions("Use informal speech.");
    let prompt = translation_system_prompt(&request);
    assert!(prompt.contains("from Japanese into natural Korean"));
    assert!(prompt.contains("Copy every input ID, page_id, region_id, and source text exactly"));
    assert!(prompt.contains("Use informal speech."));
}

#[test]
fn schema_requires_the_complete_import_identity() {
    let schema = value(&output_schema(3));
    let translations = &schema["properties"]["translations"];
    assert_eq!(translations["minItems"], 3);
    assert_eq!(translations["maxItems"], 3);
    assert_eq!(
        translations["items"]["required"],
        Value::from(vec![
            "id",
            "page_id",
            "region_id",
            "source_text",
            "translated_text"
        ])
    );
    assert_eq!(translations["items"]["additionalProperties"], false);
    assert_eq!(schema["additionalProperties"], false);
}

#[test]
fn empty_custom_instructions_are_ignored() {
    let request = request(&["hello"], english()).with_instructions("  ");
    assert!(!translation_system_prompt(&request).contains("Additional instructions"));
}

#[test]
fn context_is_reference_only() {
    let request = request(&["Where is she?"], japanese())
        .with_context(vec![TranslationContext::new("I saw Alice.", "アリスを見た。")]);
    let prompt = translation_system_prompt(&request);
    assert!(prompt.contains("dialogue continuity"));
    assert!(prompt.contains("Do not translate or return the context"));
}

#[test]
fn image_context_does_not_expand_the_translation_scope() {
    let request = request(&["text"], english()).with_image(image(1, 1));
    let prompt = translation_system_prompt(&request);
    assert!(prompt.contains("attached original page image"));
    assert!(prompt.contains("Translate only the supplied segments"));
}

#[test]
fn ocr_prompt_and_schema_require_exact_transcription() {
    let request = OcrRequest {
        image: image(1, 1),
        source_language: Some(japanese()),
        instructions: Some("Read furigana before the base text.".to_owned()),
    };
    let (system, user) = ocr_prompts(&request);
    assert!(system.contains("Do not translate"));
    assert!(system.contains("Expected source language: Japanese"));
    assert!(system.contains("Read furigana before the base text."));
    assert!(user.contains("attached manga text crop"));
    let schema = value(&ocr_output_schema());
    assert_eq!(schema["required"], Value::from(vec!["text"]));
    assert_eq!(schema["additionalProperties"], false);
}

/// The first JSON value in a text, where it has the one field that an answer has.
fn ocr_answer(text: &str) -> OcrAnswer {
    match serde_json::Deserializer::from_str(text)
        .into_iter::<Value>()
        .next()
    {
        None => OcrAnswer::Empty,
        Some(Err(_)) => OcrAnswer::Invalid,
        Some(Ok(value)) => match value.as_object() {
            Some(object) if object.len() == 1 => match object.get("text").and_then(Value::as_str) {
                Some(text) => OcrAnswer::Text(text.to_owned()),
                None => OcrAnswer::Invalid,
            },
            _ => OcrAnswer::Invalid,
        },
    }
}

#[test]
fn ocr_response_uses_the_first_strict_json_value() {
    let read = |text: &str| ocr_text("test", ocr_answer(text));
    assert_eq!(read(r#"{"text":"待って…"}"#).unwrap(), "待って…");
    assert_eq!(
        read("{\"text\":\"待って…\"}\nOCR complete.").unwrap(),
        "待って…"
    );
    assert!(read(r#"{"text":"hello","translation":"привет"}"#).is_err());
    assert_eq!(
        read("```json\n{\"text\":\"hello\"}\n```").unwrap_err(),
        "test returned invalid OCR JSON"
    );
    assert_eq!(read("").unwrap_err(), "test returned empty OCR JSON");
}

#[test]
fn translation_requests_strict_structured_output() {
    assert_eq!(
        OpenRouterTask::Translation.response_mode(),
        ResponseMode::JsonSchema
    );
    assert_eq!(
        OpenRouterTask::Recognition.response_mode(),
        ResponseMode::JsonSchema
    );
}

#[test]
fn reads_reasoning_capability_from_model_list() {
    let listed = |id: &str, name: &str, parameters: &[&str], reasoning| ListedModel {
        id: id.to_owned(),
        name: name.to_owned(),
        input_modalities: vec!["text".to_owned()],
        supported_parameters: parameters.iter().map(|&text| text.to_owned()).collect(),
        reasoning,
    };
    let models = [
        listed(
            "provider/reasoning-model",
            "Reasoning Model",
            &["reasoning"],
            Some(ReasoningCapabilities { mandatory: true }),
        ),
        listed("provider/chat-model", "Chat Model", &[], None),
    ]
    .map(ListedModel::into_model);
    assert!(models[0].reasoning);
    assert!(models[0].reasoning_required);
    assert!(!models[1].reasoning);
    assert!(!models[1].reasoning_required);
    assert_eq!(models[0].provider, Provider::OpenRouter);
    assert_eq!(models[0].model.as_deref(), Some("provider/reasoning-model"));
    assert!(!models[0].vision);
}

const GENERATION: GenerationConfig = GenerationConfig {
    temperature: None,
    max_tokens: None,
    vision: None,
    reasoning: None,
};

fn selection(provider: Provider, model: &str) -> ModelSelection {
    ModelSelection {
        provider,
        model: Some(model.to_owned()),
        quantization: None,
        vision: false,
        reasoning: false,
        reasoning_required: false,
    }
}

#[test]
fn local_vision_requires_capability_and_generation_setting() {
    let local = |model: &str| ModelSelection {
        vision: true,
        reasoning: true,
        ..selection(Provider::Local, model)
    };
    let vision = |enabled: bool| GenerationConfig {
        vision: Some(enabled),
        ..GENERATION
    };
    assert!(supports_vision(&local("gemma4-e2b-it"), &vision(true), true));
    assert!(!supports_vision(&local("gemma4-e2b-it"), &vision(false), true));
    assert!(!supports_vision(
        &local("lfm2.5-1.2b-instruct"),
        &vision(true),
        false
    ));
}

#[test]
fn chapter_output_budget_scales_with_segment_count_and_text() {
    let request = request(&["猫"; 50], russian())
        .with_page_numbers(vec![1; 50])
        .unwrap();

    assert_eq!(chapter_output_budget(&request), 26_059);
}

#[test]
fn chapter_output_budget_clamps_to_one_completion() {
    let request = request(&["x"; 300], russian())
        .with_page_numbers(vec![1; 300])
        .unwrap();

    assert_eq!(
        chapter_output_budget(&request),
        MAX_ESTIMATED_CHAPTER_OUTPUT_TOKENS as u32
    );
}

#[test]
fn exported_openrouter_request_holds_what_is_sent_and_no_image() {
    let request = request(&["text"; 300], russian())
        .with_page_numbers(vec![1; 300])
        .unwrap();
    let selection = ModelSelection {
        reasoning: true,
        reasoning_required: true,
        ..selection(Provider::OpenRouter, "google/gemini-test")
    };

    let exported = openrouter_request(&selection, GENERATION, request).ok().unwrap();

    assert_eq!(exported.model, "google/gemini-test");
    assert_eq!(exported.generation.max_tokens, Some(65_536));
    assert_eq!(exported.request.segments.len(), 300);
    assert!(exported.request.image.is_none());
}

#[test]
fn only_openrouter_requests_are_exported() {
    let one = || request(&["text"], russian());
    let error = |selection: ModelSelection| {
        openrouter_request(&selection, GENERATION, one()).err().unwrap()
    };
    assert!(!error(selection(Provider::OpenAi, "model")).is_empty());
    let unchosen = ModelSelection {
        model: None,
        ..selection(Provider::OpenRouter, "")
    };
    assert!(!error(unchosen).is_empty());
}

#[test]
fn oversized_chapter_is_rejected_before_provider_request() {
    let text = "x".repeat(450_000);
    let request = request(&[&text], english())
        .with_page_numbers(vec![1])
        .unwrap();

    let error = plan_translation(
        &selection(Provider::OpenRouter, "test/model"),
        GENERATION,
        request,
        false,
    )
    .err()
    .unwrap();

    assert!(error.contains("above the conservative limit"), "{error}");
    assert!(error.contains("Try two chapter parts"), "{error}");
}

#[test]
fn pages_are_asked_for_as_they_are() {
    let plan = plan_translation(
        &selection(Provider::OpenRouter, "test/model"),
        GENERATION,
        request(&["text"], english()).with_image(image(2, 1)),
        false,
    );
    let Ok(TranslationPlan::Ask(asked, generation)) = plan else {
        panic!("expected a request")
    };
    assert!(asked.image.is_none());
    assert_eq!(generation, GENERATION);
    let plan = plan_translation(
        &selection(Provider::OpenRouter, "test/model"),
        GENERATION,
        request(&[], english()),
        false,
    );
    assert!(matches!(plan, Ok(TranslationPlan::Nothing)));
    let chapter = request(&["text"], english())
        .with_page_numbers(vec![1])
        .unwrap();
    let bounded = bound_chapter(&chapter, GENERATION, 10).unwrap();
    assert_eq!(bounded.max_tokens, Some(chapter_output_budget(&chapter)));
    assert_eq!(
        accept_translation(2, vec!["a".to_owned()]).unwrap_err(),
        SegmentCount {
            expected: 2,
            actual: 1
        }
    );
    assert_eq!(accept_translation(1, vec!["a".to_owned()]).unwrap(), ["a"]);
}

#[test]
fn models_on_this_machine_are_loaded_once() {
    let local = selection(Provider::Local, "gemma4-e2b-it");
    let state = Some(LoadedLocal {
        model: Some("gemma4-e2b-it".to_owned()),
        quantization: None,
    });
    assert!(loaded(&local, Some(&state)));
    assert!(!loaded(&local, Some(&None)));
    assert!(!loaded(&selection(Provider::Local, "other"), Some(&state)));
    assert!(loaded(&selection(Provider::OpenRouter, "any"), Some(&None)));
}

#[test]
fn text_is_read_by_models_that_see() {
    let ocr = || OcrRequest {
        image: image(3, 2),
        source_language: None,
        instructions: None,
    };
    let seeing = ModelSelection {
        vision: true,
        ..selection(Provider::OpenRouter, "vision/model")
    };
    let (model, planned) = plan_recognition(&seeing, "openrouter", ocr()).ok().unwrap();
    assert_eq!(model, "vision/model");
    assert_eq!((planned.image.width, planned.image.height), (3, 2));
    for refused in [
        selection(Provider::OpenRouter, "blind/model"),
        ModelSelection {
            vision: true,
            ..selection(Provider::Local, "local")
        },
    ] {
        assert!(plan_recognition(&refused, "provider", ocr()).is_err());
    }
}

#[test]
fn large_pages_are_made_smaller() {
    let mut page = Some(image(4096, 1024));
    prepare_image(&mut page).unwrap();
    let page = page.unwrap();
    assert_eq!((page.width, page.height), (MAX_IMAGE_DIMENSION, 512));
    assert_eq!(page.pixels.len(), 3 * 2048 * 512);
    assert!(page.pixels.iter().all(|&value| value == 127));
    let mut small = Some(image(5, 7));
    prepare_image(&mut small).unwrap();
    assert_eq!(small.unwrap().pixels, image(5, 7).pixels);
    let mut nothing = None;
    prepare_image(&mut nothing).unwrap();
    assert!(nothing.is_none());
}

#[test]
fn pages_are_sent_as_jpeg() {
    let encoded = encode_image(&image(8, 4)).ok().unwrap();
    assert!(encoded.data.starts_with("/9j/"));
    assert_eq!(
        encoded.data_url(),
        format!("data:image/jpeg;base64,{}", encoded.data)
    );
    assert!(encode_image(&image(0, 0)).is_err());
}

#[test]
fn requests_check_what_they_are_given() {
    let two = || request(&["a", "b"], english());
    assert_eq!(
        two().with_segment_metadata(vec![]).err(),
        Some(RequestError::MetadataCount)
    );
    let ids = |ids: &[&str]| {
        two().with_segment_ids(ids.iter().map(|&id| id.to_owned()).collect())
    };
    assert_eq!(ids(&["x"]).err(), Some(RequestError::IdCount));
    assert_eq!(ids(&["x", " "]).err(), Some(RequestError::EmptyId));
    assert_eq!(ids(&["x", "x"]).err(), Some(RequestError::RepeatedId));
    assert_eq!(
        two().with_page_numbers(vec![1]).err(),
        Some(RequestError::PageCount)
    );
    for error in [
        RequestError::MetadataCount,
        RequestError::IdCount,
        RequestError::EmptyId,
        RequestError::RepeatedId,
        RequestError::PageCount,
    ] {
        assert!(!error.message().is_empty());
    }
    let chapter = two().with_page_numbers(vec![4, 9]).unwrap();
    assert!(chapter.is_chapter());
    assert_eq!(chapter.page_number(1), 9);
    assert_eq!(chapter.page_id(1), "page:9");
    assert_eq!(chapter.region_id(1), "region:1");
    assert_eq!(chapter.order_index(1), 1);
    assert!(!two().is_chapter());
}

fn extent(x: f64, y: f64, width: f64, height: f64) -> Extent {
    bounded([x, y, x + width, y + height])
}

fn bounded(bounds: [f64; 4]) -> Extent {
    Extent {
        bounds: bounds.map(f64::to_bits),
        center: [
            ((bounds[0] + bounds[2]) * 0.5).to_bits(),
            ((bounds[1] + bounds[3]) * 0.5).to_bits(),
        ],
    }
}

fn container(kind: LayoutKind, extent: Extent) -> LayoutItem {
    LayoutItem {
        kind,
        bounds: extent.bounds,
        center: extent.center,
    }
}

fn axis_bounds(item: &LayoutItem, axis: SpatialAxis) -> (f64, f64) {
    let bounds = item.bounds.map(f64::from_bits);
    match axis {
        SpatialAxis::X => (bounds[0], bounds[2]),
        SpatialAxis::Y => (bounds[1], bounds[3]),
    }
}

fn axis_center(item: &LayoutItem, axis: SpatialAxis) -> f64 {
    let (start, end) = axis_bounds(item, axis);
    (start + end) * 0.5
}

fn group_center(items: &[LayoutItem], group: &[usize], axis: SpatialAxis) -> f64 {
    group
        .iter()
        .map(|&index| axis_center(&items[index], axis))
        .sum::<f64>()
        / group.len().max(1) as f64
}

fn grouping_tolerance(items: &[LayoutItem], indices: &[usize], axis: SpatialAxis) -> f64 {
    let average = indices
        .iter()
        .map(|&index| {
            let (start, end) = axis_bounds(&items[index], axis);
            (end - start).max(1.0)
        })
        .sum::<f64>()
        / indices.len() as f64;
    (average * 0.85).max(24.0)
}

fn area(bounds: [f64; 4]) -> f64 {
    (bounds[2] - bounds[0]).max(0.0) * (bounds[3] - bounds[1]).max(0.0)
}

fn fit(items: &[LayoutItem], candidate: usize, value: usize) -> Option<(i64, i64)> {
    let outer = items[candidate].bounds.map(f64::from_bits);
    let inner = items[value].bounds.map(f64::from_bits);
    let held = if area(inner) <= 0.0 {
        0.0
    } else {
        (outer[2].min(inner[2]) - outer[0].max(inner[0])).max(0.0)
            * (outer[3].min(inner[3]) - outer[1].max(inner[1])).max(0.0)
            / area(inner)
    };
    (held >= 0.5).then(|| (double_key(held.to_bits()), double_key(area(outer).to_bits())))
}

fn breaks(items: &[LayoutItem], group: &[usize], index: usize, axis: SpatialAxis) -> bool {
    let mut group_start = f64::NEG_INFINITY;
    let mut end = f64::NEG_INFINITY;
    for (place, &item) in group.iter().enumerate() {
        let (start, item_end) = axis_bounds(&items[item], axis);
        if place == 0 {
            group_start = start;
            end = item_end;
        } else {
            end = end.max(item_end);
        }
    }
    let (start, item_end) = axis_bounds(&items[index], axis);
    let seam_tolerance = (end - group_start).min(item_end - start).max(0.0) * 0.02;
    group.is_empty() || start >= end || end - start <= seam_tolerance
}

fn ordered(extents: &Vec<Option<Extent>>, containers: &Vec<LayoutItem>, language: Language) -> Vec<usize> {
    let mut items = containers.clone();
    items.extend(
        extents
            .iter()
            .flatten()
            .map(|&extent| container(LayoutKind::Text, extent)),
    );
    let axis = match language {
        Language::Japanese | Language::ChineseSimplified | Language::ChineseTraditional => {
            SpatialAxis::X
        }
        _ => SpatialAxis::Y,
    };
    let metrics = Metrics {
        joins: |all: &Vec<usize>, group: &Vec<usize>, index: usize| {
            let center = axis_center(&items[index], axis);
            (center - group_center(&items, group, axis)).abs()
                <= grouping_tolerance(&items, all, axis)
                || group.iter().any(|&item| {
                    let left = axis_bounds(&items[index], axis);
                    let right = axis_bounds(&items[item], axis);
                    left.1.min(right.1) > left.0.max(right.0)
                })
        },
        center: |group: &Vec<usize>| double_key(group_center(&items, group, axis).to_bits()),
        breaks: |group: &Vec<usize>, index: usize, axis: SpatialAxis| {
            breaks(&items, group, index, axis)
        },
    };
    let fit = |candidate: usize, value: usize| fit(&items, candidate, value);
    order_entries(extents, containers, language, &fit, &metrics)
}

fn layer(number: u128, source: &str, extent: Option<Extent>) -> TextLayer {
    TextLayer {
        content: EntityId(number),
        content_id: number.to_string(),
        in_scope: true,
        source: Some(source.to_owned()),
        region: Some(SourceRegion {
            id: format!("region-{number}"),
            extent,
        }),
        role: None,
        bubble: None,
        translation: None,
    }
}

fn text_page(id: &str, layers: Vec<TextLayer>) -> TextPage {
    TextPage {
        id: id.to_owned(),
        layers,
    }
}

fn collect(pages: &Vec<TextPage>, containers: &Vec<LayoutItem>, chapter: bool) -> Result<Inputs, String> {
    let order = |page: usize, kept: &Vec<usize>| {
        ordered(
            &layer_extents(&pages[page], kept),
            containers,
            Language::Japanese,
        )
    };
    collect_inputs(pages, chapter, &order)
}

fn sources(inputs: &Inputs) -> Vec<(usize, &str)> {
    inputs
        .targets
        .iter()
        .map(|target| (target.page, target.source.as_str()))
        .collect()
}

#[test]
fn translation_inputs_repair_old_japanese_layer_order() {
    let layers = [
        ("left-bottom", 10.0, 100.0),
        ("right-bottom", 80.0, 100.0),
        ("left-top", 10.0, 10.0),
        ("right-top", 80.0, 10.0),
    ]
    .into_iter()
    .enumerate()
    .map(|(index, (source, x, y))| layer(index as u128, source, Some(extent(x, y, 20.0, 30.0))))
    .collect();
    let inputs = collect(&vec![text_page("page", layers)], &vec![], false).ok().unwrap();

    assert_eq!(
        sources(&inputs),
        [
            (1, "right-top"),
            (1, "right-bottom"),
            (1, "left-top"),
            (1, "left-bottom"),
        ]
    );
    assert!(inputs.context.is_empty());
}

#[test]
fn translation_inputs_repair_old_panel_aware_japanese_order() {
    let containers = vec![
        container(LayoutKind::Panel, extent(0.0, 0.0, 55.0, 180.0)),
        container(LayoutKind::Bubble, extent(5.0, 10.0, 40.0, 60.0)),
        container(LayoutKind::Panel, extent(65.0, 0.0, 55.0, 180.0)),
        container(LayoutKind::Bubble, extent(70.0, 100.0, 40.0, 60.0)),
    ];
    let layers = vec![
        layer(1, "left-panel", Some(extent(15.0, 20.0, 20.0, 30.0))),
        layer(2, "right-panel", Some(extent(80.0, 110.0, 20.0, 30.0))),
    ];
    let inputs = collect(&vec![text_page("page", layers)], &containers, false).ok().unwrap();

    assert_eq!(sources(&inputs), [(1, "right-panel"), (1, "left-panel")]);
    assert!(inputs.context.is_empty());
}

#[test]
fn translation_inputs_follow_t_shaped_japanese_panel_order() {
    let containers = [
        (0.0, 0.0, 200.0, 80.0),
        (0.0, 100.0, 90.0, 100.0),
        (110.0, 100.0, 90.0, 100.0),
    ]
    .map(|(x, y, width, height)| container(LayoutKind::Panel, extent(x, y, width, height)))
    .to_vec();
    let layers = vec![
        layer(1, "left-bottom", Some(extent(20.0, 120.0, 50.0, 40.0))),
        layer(2, "right-bottom", Some(extent(130.0, 120.0, 50.0, 40.0))),
        layer(3, "top", Some(extent(80.0, 20.0, 40.0, 40.0))),
    ];
    let inputs = collect(&vec![text_page("page", layers)], &containers, false).ok().unwrap();

    assert_eq!(
        sources(&inputs),
        [(1, "top"), (1, "right-bottom"), (1, "left-bottom")]
    );
    assert!(inputs.context.is_empty());
}

#[test]
fn region_translation_ignores_layout_containers_outside_its_scope() {
    let selected = [100.0, 0.0, 200.0, 100.0];
    let panel = |x: f64, width: f64| {
        let place = extent(x, 0.0, width, 100.0);
        ScopedRegion {
            in_scope: x < selected[2] && x + width > selected[0],
            region: RegionFact {
                kind: LayoutKind::Panel,
                place: Some((place.bounds, place.center)),
            },
        }
    };
    let panels = vec![panel(0.0, 90.0), panel(110.0, 90.0)];

    let containers = page_layout_containers(&panels, false);

    assert_eq!(containers.len(), 1);
    assert_eq!(
        containers[0].bounds.map(f64::from_bits),
        [110.0, 0.0, 200.0, 100.0]
    );
    assert_eq!(page_layout_containers(&panels, true).len(), 2);
    let other = |kind: LayoutKind| ScopedRegion {
        region: RegionFact {
            kind,
            ..panels[1].region
        },
        ..panels[1]
    };
    assert_eq!(page_layout_containers(&vec![other(LayoutKind::Bubble)], false).len(), 1);
    assert!(page_layout_containers(&vec![other(LayoutKind::Text)], true).is_empty());
    let nowhere = ScopedRegion {
        region: RegionFact {
            place: None,
            ..panels[1].region
        },
        ..panels[1]
    };
    assert!(page_layout_containers(&vec![nowhere], true).is_empty());
}

#[test]
fn chapter_translation_keeps_project_page_order() {
    let pages = vec![
        text_page(
            "first",
            vec![layer(1, "first-page", Some(extent(10.0, 10.0, 20.0, 30.0)))],
        ),
        text_page(
            "second",
            vec![layer(2, "second-page", Some(extent(80.0, 10.0, 20.0, 30.0)))],
        ),
    ];
    let inputs = collect(&pages, &vec![], true).ok().unwrap();

    assert_eq!(sources(&inputs), [(1, "first-page"), (2, "second-page")]);
    assert!(inputs.context.is_empty());
}

#[test]
fn texts_that_were_read_nowhere_are_told_of() {
    let mut stray = layer(1, "stray", None);
    stray.region = None;
    let pages = vec![text_page("page", vec![stray])];
    assert_eq!(
        collect(&pages, &vec![], true).err().unwrap(),
        "Translation found OCR text 'stray' without a source region on page page"
    );
    assert_eq!(page_entries(&pages[0], false).unwrap(), [0]);
    let mut outside = layer(2, "outside", None);
    outside.in_scope = false;
    let pages = vec![text_page("page", vec![outside, layer(3, "  ", None)])];
    assert!(page_entries(&pages[0], false).unwrap().is_empty());
    assert_eq!(page_entries(&pages[0], true).unwrap(), [0]);
}

fn profile() -> TranslationProfile {
    TranslationConfig::standard(&selection(Provider::OpenRouter, "model")).chapter
}

#[test]
fn manual_chapter_import_is_strict_and_preserves_user_translations() {
    let mut reference = layer(2, "manual source", Some(extent(10.0, 10.0, 20.0, 30.0)));
    reference.translation = Some(TextTranslation {
        text: "manual translation".to_owned(),
        origin: TextOrigin::User,
    });
    let pages = vec![text_page(
        "page",
        vec![
            layer(1, "source", Some(extent(80.0, 10.0, 20.0, 30.0))),
            reference,
        ],
    )];
    let inputs = collect(&pages, &vec![], true).ok().unwrap();
    assert_eq!(inputs.context.len(), 1);
    assert_eq!(inputs.context[0].translation, "manual translation");
    let chapter =
        ChapterTranslation::from_inputs(inputs, &profile(), japanese(), russian()).ok().unwrap();
    let response = r#"{"translations":[{"id":"page:page::region:region-1","page_id":"page","region_id":"region-1","source_text":"source","translated_text":"перевод"}],"notes":""}"#;
    let written = chapter
        .patch_from_translations(translated(response, &chapter.request).unwrap(), "openrouter")
        .unwrap();
    assert_eq!(written.len(), 1);
    assert_eq!(written[0].entity, EntityId(1));
    assert_eq!(written[0].translation.text, "перевод");
    assert_eq!(written[0].translation.origin, TextOrigin::Generated);
    assert_eq!(written[0].producer, "dev.koharu.pipeline.translation");
    assert_eq!(written[0].provider, "openrouter");
    assert_eq!(written[0].language.words, "Russian");
    assert_eq!(written[0].language.code, "ru");

    let changed = response.replace("\"source\"", "\"changed\"");
    assert!(translated(&changed, &chapter.request).is_err());
    assert_eq!(
        chapter.patch_from_translations(vec![], "openrouter").unwrap_err(),
        "chapter translation returned 0 translations, expected 1"
    );
    let imported = chapter.patch_from_response(&output(response).unwrap()).unwrap();
    assert_eq!(imported.len(), 1);
    assert_eq!(imported[0].entity, EntityId(1));
    assert_eq!(imported[0].translation.text, "перевод");
    assert_eq!(imported[0].provider, "openrouter-manual-import");
    assert_eq!(imported[0].language.code, "ru");
    assert!(chapter.patch_from_response(&output(&changed).unwrap()).is_err());
    assert_eq!(
        chapter.patch_from_response(&vec![]).unwrap_err(),
        "openrouter returned 0 translations, expected 1"
    );
    let exported = chapter.openrouter_request().ok().unwrap();
    assert_eq!(exported.model, "model");
    assert_eq!(exported.request.unit_policy.as_deref(), Some("adaptive_v1"));
}

fn made(text: &str) -> Option<TextTranslation> {
    Some(TextTranslation {
        text: text.to_owned(),
        origin: TextOrigin::Generated,
    })
}

fn inputs(targets: usize, context: usize) -> Inputs {
    Inputs {
        targets: (0..targets)
            .map(|index| target("source", index, "", None, false))
            .collect(),
        context: (0..context)
            .map(|_| TranslationContext::new("source", "translation"))
            .collect(),
    }
}

#[test]
fn completed_page_translations_are_skipped() {
    assert_eq!(
        skip_translation(&inputs(1, 1), &vec![made("generated translation")]),
        Ok(true)
    );
}

#[test]
fn translation_without_ocr_text_reports_an_actionable_error() {
    let error = skip_translation(&inputs(0, 0), &vec![]).unwrap_err();

    assert!(error.contains("no OCR text"));
    assert!(error.contains("Detection and OCR"));
}

#[test]
fn manual_only_translation_context_remains_a_valid_noop() {
    assert_eq!(skip_translation(&inputs(0, 1), &vec![]), Ok(true));
}

#[test]
fn missing_or_empty_generated_page_translation_is_not_skipped() {
    for translation in [None, made("")] {
        assert_eq!(
            skip_translation(&inputs(1, 0), &vec![translation]),
            Ok(false)
        );
    }
}

#[test]
fn chapter_skip_checks_every_page() {
    assert_eq!(
        skip_translation(&inputs(2, 0), &vec![made("first translation"), None]),
        Ok(false)
    );
}

#[test]
fn pages_without_text_are_not_asked_for() {
    let asked = page_request(inputs(1, 1), &profile(), japanese(), russian(), None);
    let Ok(Some(asked)) = asked else {
        panic!("expected a request")
    };
    assert_eq!(asked.segment_ids, ["page:page-a::region:0"]);
    let nothing = page_request(inputs(0, 1), &profile(), japanese(), russian(), None);
    assert!(matches!(nothing, Ok(None)));
    let error = page_request(inputs(0, 0), &profile(), japanese(), russian(), None);
    assert_eq!(error.err().unwrap().message(), NO_TEXT);
    let mut twice = inputs(2, 0);
    twice.targets[1].metadata.region_id = Some("0".to_owned());
    let error = page_request(twice, &profile(), japanese(), russian(), None);
    assert_eq!(
        error.err(),
        Some(ChapterError::Request(RequestError::RepeatedId))
    );
}

#[test]
fn an_ellipsis_stays_one() {
    let targets = vec![
        (EntityId(1), " … ".to_owned()),
        (EntityId(2), "待って".to_owned()),
    ];
    let translated = vec!["and so".to_owned(), "wait".to_owned()];
    let written = write_translations(&targets, &translated, "local", &english());
    assert_eq!(written.len(), 2);
    assert_eq!(written[0].translation.text, "…");
    assert_eq!(written[1].translation.text, "wait");
    for (one, target) in written.iter().zip(&targets) {
        assert_eq!(one.entity, target.0);
        assert_eq!(one.translation.origin, TextOrigin::Generated);
        assert_eq!(one.provider, "local");
        assert_eq!(one.language.code, "en-US");
    }
    assert_eq!(
        write_translations(&targets, &vec!["one".to_owned()], "local", &english()).len(),
        1
    );
}

#[test]
fn japanese_column_tolerance_uses_region_width() {
    let extents = vec![
        Some(bounded([500.0, 500.0, 510.0, 510.0])),
        Some(bounded([450.0, 450.0, 460.0, 460.0])),
        Some(bounded([0.0, 290.0, 300.0, 300.0])),
    ];

    assert_eq!(ordered(&extents, &vec![], Language::Japanese), [1, 0, 2]);
}

#[test]
fn japanese_translation_reads_real_panel_rows_right_to_left() {
    let extents = [
        [537.63, 430.70, 587.76, 575.53],
        [1106.99, 70.47, 1189.22, 218.39],
        [560.91, 875.24, 613.39, 945.51],
        [1037.99, 1350.16, 1100.18, 1493.89],
        [152.12, 1158.30, 531.36, 1522.63],
    ]
    .map(|bounds| Some(bounded(bounds)))
    .to_vec();
    let panels = [
        [103.53, 0.86, 680.85, 757.97],
        [693.52, 1.93, 1280.82, 757.30],
        [4.24, 752.93, 1278.80, 1211.98],
        [701.62, 1239.78, 1175.73, 1702.67],
        [-0.65, 1214.37, 698.22, 1804.58],
    ]
    .map(|bounds| container(LayoutKind::Panel, bounded(bounds)))
    .to_vec();

    assert_eq!(
        ordered(&extents, &panels, Language::Japanese),
        [1, 0, 2, 3, 4]
    );
}

#[test]
fn western_translation_keeps_canonical_layer_order() {
    let extents = vec![
        Some(bounded([10.0, 100.0, 30.0, 130.0])),
        Some(bounded([80.0, 10.0, 100.0, 40.0])),
    ];

    assert_eq!(ordered(&extents, &vec![], Language::English), [0, 1]);
}

#[test]
fn texts_that_stand_nowhere_keep_their_places() {
    let extents = vec![
        Some(extent(10.0, 10.0, 20.0, 20.0)),
        None,
        Some(extent(200.0, 10.0, 20.0, 20.0)),
    ];
    assert_eq!(ordered(&extents, &vec![], Language::Japanese), [2, 1, 0]);
}

fn target(
    source: &str,
    region: usize,
    bubble: &str,
    role: Option<&str>,
    is_sound_effect: bool,
) -> Target {
    Target {
        entity: EntityId(region as u128),
        source: source.to_owned(),
        page: 1,
        metadata: TranslationSegmentMetadata {
            role: role.map(str::to_owned),
            page_id: Some("page-a".to_owned()),
            region_id: Some(region.to_string()),
            bubble_id: (!bubble.is_empty()).then(|| bubble.to_owned()),
            is_sound_effect,
            ..Default::default()
        },
    }
}

#[test]
fn adaptive_units_group_one_detected_bubble() {
    let mut targets = vec![
        target("a", 1, "bubble-a", Some("dialogue"), false),
        target("b", 2, "bubble-a", Some("dialogue"), false),
    ];

    let units = adaptive_units(&mut targets).unwrap();

    assert_eq!(units.len(), 1);
    assert_eq!(units[0].unit_type, "dialogue_group");
    assert_eq!(units[0].region_ids, vec!["1".to_owned(), "2".to_owned()]);
    assert_eq!(
        units[0].segment_ids,
        vec![
            "page:page-a::region:1".to_owned(),
            "page:page-a::region:2".to_owned()
        ]
    );
    assert_eq!(targets[0].metadata.unit_id, targets[1].metadata.unit_id);
}

#[test]
fn adaptive_units_group_consecutive_captions() {
    let mut targets = vec![
        target("caption one", 1, "", Some("caption"), false),
        target("caption two", 2, "", Some("narration"), false),
    ];

    let units = adaptive_units(&mut targets).unwrap();

    assert_eq!(units.len(), 1);
    assert_eq!(units[0].unit_type, "caption_block");
    assert_eq!(units[0].segment_ids.len(), 2);
}

#[test]
fn adaptive_units_isolate_sound_effects_from_dialogue() {
    let mut targets = vec![
        target("hello", 1, "bubble-a", Some("dialogue"), false),
        target("ガタッ", 2, "", Some("onomatopoeia"), true),
        target("goodbye", 3, "bubble-a", Some("dialogue"), false),
    ];

    let units = adaptive_units(&mut targets).unwrap();

    assert_eq!(
        units
            .iter()
            .map(|unit| unit.unit_type.as_str())
            .collect::<Vec<_>>(),
        ["dialogue_group", "page", "dialogue_group",]
    );
    assert_eq!(units[1].segment_ids.len(), 1);
    assert!(targets[1].metadata.is_sound_effect);
}

#[test]
fn adaptive_units_use_page_fallback_for_unknown_roles() {
    let mut targets = vec![target("unknown", 1, "", Some("label"), false)];

    let units = adaptive_units(&mut targets).unwrap();

    assert_eq!(units.len(), 1);
    assert_eq!(units[0].unit_type, "page");
    assert_eq!(targets[0].metadata.unit_type.as_deref(), Some("page"));
}

#[test]
fn page_only_units_keep_one_unit_per_project_page() {
    let mut targets = vec![
        target("first", 1, "", Some("dialogue"), false),
        target("second", 2, "", Some("dialogue"), false),
        target("third", 3, "", Some("dialogue"), false),
    ];
    targets[0].metadata.page_id = Some("page-a".to_owned());
    targets[1].metadata.page_id = Some("page-a".to_owned());
    targets[2].metadata.page_id = Some("page-b".to_owned());
    targets[0].page = 1;
    targets[1].page = 1;
    targets[2].page = 2;

    let units = page_units(&mut targets).unwrap();

    assert_eq!(units.len(), 2);
    assert_eq!(units[0].unit_type, "page");
    assert_eq!(units[0].segment_ids.len(), 2);
    assert_eq!(units[1].page_index, 2);
}

#[test]
fn units_need_pages_and_regions() {
    let mut homeless = vec![target("a", 1, "", None, false)];
    homeless[0].metadata.page_id = None;
    let policy = TranslationUnitPolicy::AdaptiveV1;
    assert_eq!(
        make_units(policy, &mut homeless).err(),
        Some(UnitError::NoPage)
    );
    let mut nowhere = vec![target("a", 1, "", None, false)];
    nowhere[0].metadata.region_id = None;
    assert_eq!(
        stable_segment_id(&nowhere[0].metadata),
        "segment:missing-identity"
    );
    let error = make_units(policy, &mut nowhere).err().unwrap();
    assert_eq!(error, UnitError::NoRegion);
    assert_eq!(
        error.message(),
        "chapter translation target has no region_id"
    );
    assert_eq!(
        short_role(Some("dev.koharu.text.caption")).as_deref(),
        Some("caption")
    );
    assert_eq!(short_role(None), None);
}
