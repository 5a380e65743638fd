//! Images that are edited by services.

use std::io::Cursor;

use image::{DynamicImage, ImageFormat};
use koharu::config::InpaintingProvider;
use koharu::encoding::{decode, encode, lossy};
use koharu::fal::{
    normalize_cleanup_prompt, normalize_key, request_body, FalModel, ImageEditConfig,
    InpaintingApplyMode, KeyError, DEFAULT_CLEANUP_PROMPT, MAX_IMAGE_BYTES,
    OLDER_CLEANUP_PROMPT, OLDEST_CLEANUP_PROMPT, PREVIOUS_CLEANUP_PROMPT,
};
use koharu::fal_edit::{
    authenticated_response, complete_with, require_https, Action, Edit, Event, Job, Link, Phase, ResponseHead,
    ResultImage, Verdict,
};
use koharu::fal_error::{
    answer_detail, safe_error_detail, safe_json_detail, CONTENT_POLICY_DETAIL, MAX_ERROR_BYTES,
    MAX_ERROR_DETAIL_CHARS,
};
use koharu::image_catalog::{
    ensure_raster_mime, filter_and_sort_models, pinned_rank, supports_input_references,
    supports_raster_output, Architecture, ListedImageModel, OpenRouterImageModelChoice,
    FIRST_PINNED_MODEL, SECOND_PINNED_MODEL,
};
use koharu::json::{read_json, write_json, Json};
use koharu::mask::GrayMask;
use koharu::openrouter_edit::{
    accept_bytes, error_detail, take_image, Action as RouterAction, Event as RouterEvent, ImageData,
    OpenRouterEdit, Phase as RouterPhase, MAX_RESPONSE_BYTES,
};
use koharu::picture::{
    decode_picture, encode_mask, encode_png, fit_picture, Picture, Samples, MAX_RESIZED_SIDE,
};
use koharu::redact::redact_sensitive;
use koharu::stages::merge_inpainting_models;
use serde_json::Value;

fn parse(text: &str) -> Json {
    read_json(&text.as_bytes().to_vec()).unwrap()
}

fn value(json: &Json) -> Value {
    serde_json::from_str(&write_json(json)).unwrap()
}

fn png(width: u32, height: u32) -> Vec<u8> {
    let mut bytes = Cursor::new(Vec::new());
    DynamicImage::new_rgb8(width, height)
        .write_to(&mut bytes, ImageFormat::Png)
        .unwrap();
    bytes.into_inner()
}

/// A black page.
fn page(width: u32, height: u32) -> Picture {
    Picture {
        width,
        height,
        samples: Samples::Rgb(vec![0; (width * height * 3) as usize]),
    }
}

#[test]
fn published_model_endpoints_use_their_exact_image_fields() {
    let config = ImageEditConfig::default();
    let normal = value(&request_body(
        FalModel::MaiImage2_5Edit,
        &config,
        "data:image/png;base64,x",
    ));
    let pro = value(&request_body(
        FalModel::MaiImage2_5ProEdit,
        &config,
        "data:image/png;base64,x",
    ));

    assert_eq!(
        FalModel::MaiImage2_5Edit.id(),
        "microsoft/mai-image-2.5/edit"
    );
    assert_eq!(
        FalModel::MaiImage2_5ProEdit.id(),
        "microsoft/mai-image-2.5-pro/edit"
    );
    assert_eq!(normal["image_urls"][0], "data:image/png;base64,x");
    assert!(normal.get("image_url").is_none());
    assert_eq!(pro["image_url"], "data:image/png;base64,x");
    assert!(pro.get("image_urls").is_none());
    for body in [&normal, &pro] {
        assert_eq!(body["num_images"], 1);
        assert_eq!(body["aspect_ratio"], "auto");
        assert_eq!(body["output_format"], "png");
    }
}

#[test]
fn rejects_non_https_urls() {
    let link = |scheme: &str| Link {
        scheme: scheme.to_owned(),
        text: format!("{scheme}://example.com/image.png"),
    };
    assert!(!require_https(&link("http")));
    assert!(require_https(&link("https")));
}

#[derive(Clone, Copy, PartialEq)]
enum Mode {
    Success,
    Unauthorized,
    Forbidden,
    UpstreamFailure,
    ResultUnprocessable,
    GenericUnprocessable,
    BadStatus,
    Oversized,
    InvalidImage,
}

struct Served {
    requests: Vec<String>,
    bodies: Vec<Value>,
    authorizations: Vec<String>,
    outcome: Result<Option<Picture>, String>,
}

fn link(path: &str) -> Link {
    Link {
        scheme: "https".to_owned(),
        text: format!("https://queue/{path}"),
    }
}

fn head(status: u16, status_text: &str, content_type: &str, length: Option<u64>) -> ResponseHead {
    ResponseHead {
        status,
        status_text: status_text.to_owned(),
        request_id: Some("mock-request".to_owned()),
        content_type: Some(content_type.to_owned()),
        length,
    }
}

/// Drives an edit against a service that answers as the mode says, and stops it where asked.
fn serve(
    mode: Mode,
    model: FalModel,
    config: ImageEditConfig,
    key: &str,
    stop: bool,
    page: Picture,
) -> Served {
    let mut served = Served {
        requests: Vec::new(),
        bodies: Vec::new(),
        authorizations: Vec::new(),
        outcome: Ok(None),
    };
    let mut edit = Edit::start(model, config, page, key).unwrap();
    let mut event = Event::Begin;
    let mut polls = 0;
    let mut body: Vec<u8> = Vec::new();
    loop {
        assert!(edit.expects(&event));
        let (next, action) = edit.next(event);
        edit = next;
        event = match action {
            Action::Submit {
                path,
                authorization,
                body: sent,
            } => {
                served.requests.push(format!("POST /{path}"));
                served.authorizations.extend(authorization);
                served.bodies.push(value(&sent));
                Event::Head(match mode {
                    Mode::Unauthorized => head(401, "401 Unauthorized", "application/json", None),
                    Mode::Forbidden => head(403, "403 Forbidden", "application/json", None),
                    Mode::UpstreamFailure => {
                        head(502, "502 Bad Gateway", "application/json", None)
                    }
                    _ => head(200, "200 OK", "application/json", None),
                })
            }
            Action::ReadJob => Event::Job(Job {
                status: link("status"),
                response: link("result"),
                cancel: link("cancel"),
            }),
            Action::Wait if stop && polls > 0 => Event::Stopped,
            Action::Wait => Event::Elapsed,
            Action::Fetch { url, authorization } => {
                let path = url.trim_start_matches("https://queue").to_owned();
                served.requests.push(format!("GET {path}"));
                served.authorizations.extend(authorization);
                let head = match (path.as_str(), mode) {
                    ("/result", Mode::ResultUnprocessable) => {
                        body = format!(
                            "{{\"detail\":[{{\"type\":\"content_policy_violation\",\"input\":{{\"image_urls\":[\"data:image/png;base64,private-image-data{}\"]}}}}]}}",
                            "x".repeat(MAX_ERROR_BYTES)
                        )
                        .into_bytes();
                        head(422, "422 Unprocessable Entity", "application/json", None)
                    }
                    ("/result", Mode::GenericUnprocessable) => {
                        body = format!(
                            "{{\"detail\":[{{\"type\":\"value_error\",\"msg\":\"invalid data:image/png;base64,{} FAL_KEY=private-test-key opaque={}\"}}]}}",
                            "a".repeat(96),
                            "opaque".repeat(20)
                        )
                        .into_bytes();
                        head(422, "422 Unprocessable Entity", "application/json", None)
                    }
                    ("/image", _) => {
                        body = if mode == Mode::InvalidImage {
                            b"not a png".to_vec()
                        } else {
                            png(1, 1)
                        };
                        let length = if mode == Mode::Oversized {
                            MAX_IMAGE_BYTES as u64 + 1
                        } else {
                            body.len() as u64
                        };
                        head(200, "200 OK", "image/png", Some(length))
                    }
                    _ => head(200, "200 OK", "application/json", None),
                };
                Event::Head(head)
            }
            Action::ReadStatus => {
                polls += 1;
                Event::Status(
                    match (mode, polls) {
                        (Mode::BadStatus, _) => "FAILED",
                        (_, 1) => "IN_QUEUE",
                        _ => "COMPLETED",
                    }
                    .to_owned(),
                )
            }
            Action::ReadResult => Event::Images(vec![ResultImage {
                url: link("image"),
                content_type: Some("image/png".to_owned()),
            }]),
            Action::ReadChunk if body.is_empty() => Event::End,
            Action::ReadChunk => {
                let rest = body.split_off(body.len().min(4096));
                Event::Chunk(std::mem::replace(&mut body, rest))
            }
            Action::Stop { cancel } => {
                if let Some((url, authorization)) = cancel {
                    served
                        .requests
                        .push(format!("PUT {}", url.trim_start_matches("https://queue")));
                    served.authorizations.push(authorization);
                }
                break;
            }
            Action::Complete(picture) => {
                served.outcome = Ok(Some(picture));
                break;
            }
            Action::Fail(message) => {
                served.outcome = Err(message);
                break;
            }
        };
    }
    assert!(matches!(edit.phase, Phase::Finished));
    served
}

fn posts(served: &Served) -> usize {
    served
        .requests
        .iter()
        .filter(|request| request.starts_with("POST "))
        .count()
}

#[test]
fn follows_queue_and_resizes_the_single_png_result() {
    let served = serve(
        Mode::Success,
        FalModel::MaiImage2_5Edit,
        ImageEditConfig::default(),
        "test-key",
        false,
        page(3, 2),
    );

    let result = served.outcome.unwrap().unwrap();
    assert_eq!((result.width, result.height), (3, 2));
    let requests = served.requests;
    assert_eq!(requests[0], "POST /microsoft/mai-image-2.5/edit");
    assert_eq!(
        requests
            .iter()
            .filter(|request| *request == "GET /status")
            .count(),
        2
    );
    assert!(requests.contains(&"GET /result".to_owned()));
    assert!(requests.contains(&"GET /image".to_owned()));
    assert_eq!(
        served.authorizations,
        [
            "Key test-key",
            "Key test-key",
            "Key test-key",
            "Key test-key"
        ]
    );
    let sent = served.bodies[0]["image_urls"][0].as_str().unwrap();
    assert_eq!(
        sent,
        format!("data:image/png;base64,{}", encode(&png(3, 2)))
    );
}

#[test]
fn normalizes_the_header_and_reports_auth_failures_without_exposing_the_key() {
    for (mode, expected) in [
        (Mode::Unauthorized, "HTTP 401 Unauthorized"),
        (Mode::Forbidden, "HTTP 403 Forbidden"),
    ] {
        let key = "private-test-key";
        let served = serve(
            mode,
            FalModel::MaiImage2_5Edit,
            ImageEditConfig::default(),
            "  kEy \t private-test-key  ",
            false,
            page(1, 1),
        );
        let message = served.outcome.unwrap_err();

        assert!(message.contains(expected));
        assert!(!message.contains(key));
        assert_eq!(served.authorizations, ["Key private-test-key"]);
    }
}

#[test]
fn reports_upstream_failure_without_resubmitting_the_paid_job() {
    let served = serve(
        Mode::UpstreamFailure,
        FalModel::MaiImage2_5Edit,
        ImageEditConfig::default(),
        "test-key",
        false,
        page(1, 1),
    );

    let message = served.outcome.as_ref().unwrap_err();
    assert!(message.contains("temporarily unavailable (502 Bad Gateway"));
    assert!(message.contains("Fal request ID: mock-request"));
    assert_eq!(posts(&served), 1);
}

#[test]
fn reports_content_policy_rejection_without_exposing_or_retrying_the_input() {
    let prompt = "Remove all text and reconstruct the original manga artwork.".to_owned();
    let served = serve(
        Mode::ResultUnprocessable,
        FalModel::MaiImage2_5Edit,
        ImageEditConfig {
            prompt: prompt.clone(),
            ..ImageEditConfig::default()
        },
        "test-key",
        false,
        page(1, 1),
    );

    let message = served.outcome.as_ref().unwrap_err();
    assert!(message.contains(CONTENT_POLICY_DETAIL), "{message}");
    assert!(!message.contains("private-image-data"), "{message}");
    assert_eq!(posts(&served), 1);
    let sent = served.bodies[0]["prompt"].as_str().unwrap();
    assert!(sent.contains(&prompt), "{sent}");
    assert!(sent.contains("speech bubble and caption box"), "{sent}");
    assert!(sent.contains("all visible text"), "{sent}");
    assert!(sent.contains("watermarks"), "{sent}");
    assert!(sent.contains("signatures"), "{sent}");
    assert!(sent.contains("Only after preserving"), "{sent}");
}

#[test]
fn redacts_sensitive_values_from_generic_error_details() {
    let key = "private-test-key";
    let long_token = "opaque".repeat(20);
    let served = serve(
        Mode::GenericUnprocessable,
        FalModel::MaiImage2_5Edit,
        ImageEditConfig::default(),
        key,
        false,
        page(1, 1),
    );

    let message = served.outcome.as_ref().unwrap_err();
    assert!(message.contains("422 Unprocessable Entity"), "{message}");
    assert!(message.contains("value_error"), "{message}");
    assert!(!message.contains("data:image"), "{message}");
    assert!(!message.contains(key), "{message}");
    assert!(!message.contains(&long_token), "{message}");
    assert!(message.contains("[redacted data URI]"), "{message}");
    assert!(message.contains("[redacted FAL_KEY]"), "{message}");
    assert!(message.contains("[redacted token]"), "{message}");
    assert_eq!(posts(&served), 1);
}

#[test]
fn stop_cancels_the_queued_request() {
    let served = serve(
        Mode::Success,
        FalModel::MaiImage2_5ProEdit,
        ImageEditConfig::default(),
        "test-key",
        true,
        page(1, 1),
    );

    assert!(served.outcome.unwrap().is_none());
    assert!(served.requests.contains(&"PUT /cancel".to_owned()));
    assert_eq!(served.authorizations.last().unwrap(), "Key test-key");
}

#[test]
fn rejects_bad_status_oversized_and_invalid_image_responses() {
    for mode in [Mode::BadStatus, Mode::Oversized, Mode::InvalidImage] {
        let served = serve(
            mode,
            FalModel::MaiImage2_5Edit,
            ImageEditConfig::default(),
            "test-key",
            false,
            page(1, 1),
        );
        match mode {
            Mode::BadStatus => assert!(served
                .outcome
                .unwrap_err()
                .contains("unexpected queue status")),
            Mode::Oversized => assert!(served.outcome.unwrap_err().contains("64 MiB")),
            _ => assert!(served.outcome.unwrap_err().contains("invalid image")),
        }
    }
}

#[test]
fn an_edit_needs_a_key() {
    let config = ImageEditConfig::default;
    for (credential, error) in [
        ("  ", KeyError::Empty),
        (" KEY ", KeyError::NoValue),
        ("a\nb", KeyError::InnerSpace),
        ("key a b", KeyError::InnerSpace),
    ] {
        let started = Edit::start(FalModel::MaiImage2_5Edit, config(), page(1, 1), credential);
        assert_eq!(started.err(), Some(error), "{credential:?}");
        assert!(!error.message().is_empty());
    }
    assert_eq!(normalize_key(" KEY  abc ").unwrap(), "abc");
    assert_eq!(normalize_key("keyed").unwrap(), "keyed");
}

#[test]
fn a_result_holds_one_image_under_a_secure_link() {
    let reading = || Edit {
        model: FalModel::MaiImage2_5Edit,
        config: ImageEditConfig::default(),
        key: "k".to_owned(),
        page: page(1, 1),
        phase: Phase::ReadingResult(Job {
            status: link("status"),
            response: link("result"),
            cancel: link("cancel"),
        }),
    };
    let image = |scheme: &str, content_type: Option<&str>| ResultImage {
        url: Link {
            scheme: scheme.to_owned(),
            text: "x".to_owned(),
        },
        content_type: content_type.map(str::to_owned),
    };
    let failure = |images: Vec<ResultImage>| match reading().next(Event::Images(images)).1 {
        Action::Fail(message) => message,
        _ => String::new(),
    };
    assert_eq!(failure(vec![]), "Fal.ai returned 0 images, expected exactly one");
    assert_eq!(
        failure(vec![image("http", None)]),
        "Fal.ai returned a non-HTTPS URL"
    );
    assert_eq!(
        failure(vec![image("https", Some("text/html"))]),
        "Fal.ai result has invalid content type text/html"
    );
    assert_eq!(failure(vec![image("https", None)]), "");
}

#[test]
fn answers_are_judged_by_their_status() {
    let judge = |status: u16| {
        authenticated_response(
            &head(status, "words", "application/json", None),
            "asking",
            "private",
        )
    };
    assert!(matches!(judge(204), Verdict::Accepted));
    assert!(matches!(judge(503), Verdict::Refused(message) if message.starts_with("asking: ")));
    assert!(matches!(judge(404), Verdict::Unclear(prefix)
        if prefix == "asking: words; Fal request ID: mock-request; detail: "));
}

#[test]
fn details_are_short_and_safe() {
    assert_eq!(
        safe_json_detail(&parse(
            "[\"plain\",{\"type\":\"t\",\"msg\":3,\"other\":1},{\"type\":\"content_policy_violation\"}]"
        )),
        format!("plain; msg=3, type=t; {CONTENT_POLICY_DETAIL}")
    );
    assert_eq!(
        safe_error_detail(&b"{\"detail\":\"plain\"}".to_vec(), false, "private"),
        "plain"
    );
    let detail = safe_error_detail(&b"not json  at\nall".to_vec(), false, "private");
    assert_eq!(detail, "not json at all");
    let long = "word ".repeat(4096);
    let detail = safe_error_detail(&long.into_bytes(), true, "private");
    assert!(detail.chars().count() <= MAX_ERROR_DETAIL_CHARS + 64);
    assert_eq!(
        answer_detail(&vec![], false, None, "", "k"),
        "response body was empty"
    );
    assert_eq!(
        safe_error_detail(&vec![], false, "k"),
        "response body was empty"
    );
    assert_eq!(
        redact_sensitive("a KEY b", "KEY"),
        "a [redacted FAL_KEY] b"
    );
    assert_eq!(lossy(&vec![b'a', 0xff]), "a\u{fffd}");
}

#[test]
fn outdated_prompts_are_replaced() {
    for prompt in [
        PREVIOUS_CLEANUP_PROMPT,
        OLDER_CLEANUP_PROMPT,
        OLDEST_CLEANUP_PROMPT,
    ] {
        let mut prompt = prompt.to_owned();
        assert!(normalize_cleanup_prompt(&mut prompt));
        assert_eq!(prompt, DEFAULT_CLEANUP_PROMPT);
    }
    let mut own = "Clean.".to_owned();
    assert!(!normalize_cleanup_prompt(&mut own));
    assert_eq!(own, "Clean.");
    assert_eq!(
        ImageEditConfig::default().apply_mode,
        InpaintingApplyMode::FullPage
    );
}

#[test]
fn request_uses_openrouter_image_edit_contract() {
    let body = value(&koharu::openrouter_edit::request_body(
        "provider/edit",
        "clean text",
        "data:image/png;base64,x",
    ));
    assert_eq!(body["model"], "provider/edit");
    assert_eq!(body["prompt"], "clean text");
    assert_eq!(body["n"], 1);
    assert_eq!(body["aspect_ratio"], "auto");
    assert!(body.get("stream").is_none());
    assert_eq!(body["input_references"][0]["type"], "image_url");
    assert_eq!(
        body["input_references"][0]["image_url"]["url"],
        "data:image/png;base64,x"
    );
}

fn listed(id: &str, input: &[&str], output: &[&str], parameters: &str) -> ListedImageModel {
    ListedImageModel {
        id: id.to_owned(),
        name: id.to_owned(),
        architecture: Architecture {
            input_modalities: input.iter().map(|value| (*value).to_owned()).collect(),
            output_modalities: output.iter().map(|value| (*value).to_owned()).collect(),
        },
        supported_parameters: parse(parameters),
    }
}

#[test]
fn catalog_filters_capabilities_and_pins_mai_models() {
    let accepted_parameters = "{\"input_references\": {\"type\": \"array\"}}";
    let accepted_with_formats = "{\"input_references\": {}, \"output_format\": {\"type\": \"enum\", \"values\": [\"jpeg\", \"webp\"]}}";
    let rejected_format = "{\"input_references\": {}, \"output_format\": {\"type\": \"enum\", \"values\": [\"svg\"]}}";
    let result = filter_and_sort_models(&vec![
        listed(
            "z/model",
            &["text", "image"],
            &["image"],
            accepted_parameters,
        ),
        listed(
            SECOND_PINNED_MODEL,
            &["image"],
            &["image"],
            accepted_with_formats,
        ),
        listed(
            FIRST_PINNED_MODEL,
            &["image"],
            &["image"],
            accepted_with_formats,
        ),
        listed(
            "text/only",
            &["text"],
            &["image"],
            "{\"input_references\": {}}",
        ),
        listed("svg/model", &["image"], &["image"], rejected_format),
    ]);
    assert_eq!(
        result
            .iter()
            .map(|model| model.model.as_str())
            .collect::<Vec<_>>(),
        [FIRST_PINNED_MODEL, SECOND_PINNED_MODEL, "z/model"]
    );
    assert_eq!(pinned_rank("z/model"), 2);
    assert!(supports_input_references(&parse("{\"input_references\":null}")));
    assert!(!supports_input_references(&parse("[\"input_references\"]")));
    assert!(supports_raster_output(&parse("{}")));
}

#[test]
fn rejects_vector_mime_types() {
    assert!(ensure_raster_mime("image/png").is_ok());
    assert!(ensure_raster_mime("image/jpeg; charset=binary").is_ok());
    assert!(ensure_raster_mime("image/svg+xml").is_err());
    assert!(ensure_raster_mime("application/json").is_err());
}

#[test]
fn inpainting_catalog_pins_fal_edits_and_openrouter_fallbacks() {
    let models = merge_inpainting_models(&Vec::new());

    assert_eq!(
        models
            .iter()
            .map(|choice| (choice.provider, choice.model.as_str()))
            .collect::<Vec<_>>(),
        [
            (InpaintingProvider::Fal, "microsoft/mai-image-2.5/edit"),
            (InpaintingProvider::Fal, "microsoft/mai-image-2.5-pro/edit"),
            (InpaintingProvider::OpenRouter, "microsoft/mai-image-2.5"),
            (
                InpaintingProvider::OpenRouter,
                "microsoft/mai-image-2.5-pro"
            ),
        ]
    );
}

#[test]
fn inpainting_catalog_does_not_duplicate_pinned_fallbacks() {
    let models = merge_inpainting_models(&vec![
        OpenRouterImageModelChoice {
            model: "microsoft/mai-image-2.5".to_owned(),
            name: "Microsoft: MAI-Image-2.5".to_owned(),
        },
        OpenRouterImageModelChoice {
            model: "provider/other-edit".to_owned(),
            name: "Other Edit".to_owned(),
        },
    ]);

    assert_eq!(
        models
            .iter()
            .filter(|choice| {
                choice.provider == InpaintingProvider::OpenRouter
                    && choice.model == "microsoft/mai-image-2.5"
            })
            .count(),
        1
    );
    assert_eq!(models.last().unwrap().model, "provider/other-edit");
}

struct Answer {
    status: u16,
    status_text: &'static str,
    length: Option<u64>,
    body: Vec<u8>,
    images: Vec<ImageData>,
    stop_before_head: bool,
    stop_in_body: bool,
    stop_after_body: bool,
}

fn answer(body: &str, images: Vec<ImageData>) -> Answer {
    Answer {
        status: 200,
        status_text: "200 OK",
        length: Some(body.len() as u64),
        body: body.as_bytes().to_vec(),
        images,
        stop_before_head: false,
        stop_in_body: false,
        stop_after_body: false,
    }
}

/// Drives an edit against a service with one answer: what was asked, and what came of it.
fn ask(answer: Answer, page: Picture) -> (String, Value, Result<Option<Picture>, String>) {
    let mut asked = (String::new(), Value::Null);
    let mut edit = OpenRouterEdit::start(
        "provider/edit".to_owned(),
        "clean".to_owned(),
        page,
        "test-key",
    )
    .unwrap();
    let mut event = RouterEvent::Proceed;
    let mut body = Some(answer.body);
    let mut images = Some(answer.images);
    loop {
        assert!(edit.expects(&event));
        let (next, action) = edit.next(event);
        edit = next;
        event = match action {
            RouterAction::Ask { key, body } => {
                asked = (key, value(&body));
                if answer.stop_before_head {
                    RouterEvent::Stopped
                } else {
                    RouterEvent::Head {
                        status: answer.status,
                        status_text: answer.status_text.to_owned(),
                        length: answer.length,
                    }
                }
            }
            RouterAction::ReadChunk => match body.take() {
                Some(bytes) => RouterEvent::Chunk(bytes),
                None if answer.stop_in_body => RouterEvent::Stopped,
                None => RouterEvent::End,
            },
            RouterAction::Parse(_) => RouterEvent::Images(images.take().unwrap()),
            RouterAction::Stop => return (asked.0, asked.1, Ok(None)),
            RouterAction::LookForStop if answer.stop_after_body => RouterEvent::Stopped,
            RouterAction::LookForStop => RouterEvent::Proceed,
            RouterAction::Complete(picture) => return (asked.0, asked.1, Ok(Some(picture))),
            RouterAction::Fail(message) => return (asked.0, asked.1, Err(message)),
        };
    }
}

fn entry(b64_json: &str) -> ImageData {
    ImageData {
        b64_json: b64_json.to_owned(),
        media_type: Some("image/png".to_owned()),
    }
}

#[test]
fn decodes_one_result_and_resizes_it() {
    let (key, body, result) = ask(
        answer("{}", vec![entry(&encode(&png(1, 1)))]),
        page(3, 2),
    );
    let result = result.unwrap().unwrap();
    assert_eq!((result.width, result.height), (3, 2));
    assert_eq!(key, "test-key");
    assert!(body.get("input_references").is_some());
}

#[test]
fn rejects_zero_or_multiple_images() {
    let one = || entry(&encode(&png(1, 1)));
    for (images, expected) in [
        (vec![], "returned 0 images"),
        (vec![one(), one()], "returned 2 images"),
    ] {
        let error = ask(answer("{}", images), page(1, 1)).2.unwrap_err();
        assert!(error.contains(expected));
    }
}

#[test]
fn rejects_bad_base64_invalid_raster_and_oversized_response() {
    let error = ask(answer("{}", vec![entry("%%%")]), page(1, 1))
        .2
        .unwrap_err();
    assert!(error.contains("invalid base64 image data"));
    let invalid = entry(&encode(&b"not a raster image".to_vec()));
    let error = ask(answer("{}", vec![invalid]), page(1, 1))
        .2
        .unwrap_err();
    assert!(error.contains("returned an invalid image"));
    let oversized = Answer {
        length: Some(MAX_RESPONSE_BYTES as u64 + 1),
        ..answer("{}", vec![])
    };
    let error = ask(oversized, page(1, 1)).2.unwrap_err();
    assert!(error.contains("image response exceeds the 64 MiB image limit"));
}

#[test]
fn preserves_openrouter_http_error_details() {
    let refused = Answer {
        status: 400,
        status_text: "400 Bad Request",
        ..answer(
            "{\"error\":{\"message\":\"model does not support this request: input_references\",\"code\":400}}",
            vec![],
        )
    };
    let (_, _, result) = ask(refused, page(1, 1));
    let message = result.unwrap_err();
    assert!(message.contains("HTTP 400 Bad Request"), "{message}");
    assert!(message.contains("input_references"), "{message}");
    assert!(
        message.contains("model does not support this request"),
        "{message}"
    );
}

#[test]
fn stop_interrupts_request_and_response_body_waits() {
    let before = Answer {
        stop_before_head: true,
        ..answer("{}", vec![])
    };
    let during = Answer {
        stop_in_body: true,
        ..answer("{", vec![])
    };
    let after = Answer {
        stop_after_body: true,
        ..answer("{}", vec![entry(&encode(&png(1, 1)))])
    };
    for stopped in [before, during, after] {
        assert!(ask(stopped, page(1, 1)).2.unwrap().is_none());
    }
}

#[test]
fn images_are_taken_from_answers() {
    let bytes = png(1, 1);
    assert_eq!(take_image(&vec![entry(&encode(&bytes))]).unwrap(), bytes);
    let vector = ImageData {
        b64_json: encode(&bytes),
        media_type: Some("image/svg+xml".to_owned()),
    };
    assert!(take_image(&vec![vector]).is_err());
    assert!(accept_bytes(None).is_err());
    assert!(OpenRouterEdit::start("m".to_owned(), "p".to_owned(), page(1, 1), "  ").is_none());
    let detail = error_detail(&b"{\"error\":{\"message\":\"bad test-key\"}}".to_vec(), "test-key");
    assert!(detail.contains("[redacted API key]"), "{detail}");
}

#[test]
fn base64_is_read_back() {
    let bytes = vec![0, 1, 254, 255];
    assert_eq!(encode(&bytes), "AAH+/w==");
    assert_eq!(decode("AAH+/w==").unwrap(), bytes);
    assert!(decode("%%%").is_none());
}

fn rgb(picture: &Picture) -> Vec<u8> {
    match &picture.samples {
        Samples::Rgb(samples) => samples.clone(),
        _ => panic!("not an RGB picture"),
    }
}

#[test]
fn pictures_are_written_as_png_and_read_back() {
    let picture = Picture {
        width: 2,
        height: 1,
        samples: Samples::Rgb(vec![1, 2, 3, 250, 251, 252]),
    };
    let bytes = encode_png(&picture).unwrap();
    assert!(bytes.starts_with(b"\x89PNG\r\n\x1a\n"));
    let read = decode_picture(&bytes).unwrap();
    assert_eq!((read.width, read.height), (2, 1));
    assert_eq!(rgb(&read), [1, 2, 3, 250, 251, 252]);

    let wide = Picture {
        width: 1,
        height: 2,
        samples: Samples::GrayAlpha16(vec![1, 2, 3, 65535]),
    };
    let read = decode_picture(&encode_png(&wide).unwrap()).unwrap();
    assert!(matches!(read.samples, Samples::GrayAlpha16(samples) if samples == [1, 2, 3, 65535]));

    assert!(encode_png(&page(0, 0)).is_none());
    assert!(decode_picture(&b"not a picture".to_vec()).is_none());
    assert!(decode_picture(&Vec::new()).is_none());
}

#[test]
fn pictures_of_several_formats_are_read() {
    let write = |image: &DynamicImage, format| {
        let mut bytes = Cursor::new(Vec::new());
        image.write_to(&mut bytes, format).unwrap();
        bytes.into_inner()
    };
    let mut painted = image::RgbImage::new(4, 3);
    for (index, sample) in painted.iter_mut().enumerate() {
        *sample = 7 * index as u8;
    }
    let painted = DynamicImage::ImageRgb8(painted);
    for format in [ImageFormat::Png, ImageFormat::WebP] {
        let read = decode_picture(&write(&painted, format)).unwrap();
        assert_eq!((read.width, read.height), (4, 3));
        assert_eq!(rgb(&read), painted.as_bytes());
    }
    let jpeg = write(&DynamicImage::new_rgb8(4, 3), ImageFormat::Jpeg);
    let read = decode_picture(&jpeg).unwrap();
    assert_eq!((read.width, read.height), (4, 3));
    assert_eq!(rgb(&read), [0; 36]);
}

#[test]
fn pictures_of_every_kind_are_written() {
    let gray = |samples| Picture {
        width: 1,
        height: 1,
        samples,
    };
    for (samples, color) in [
        (Samples::Gray(vec![7]), image::ColorType::L8),
        (Samples::GrayAlpha(vec![7, 8]), image::ColorType::La8),
        (Samples::Rgb(vec![7, 8, 9]), image::ColorType::Rgb8),
        (Samples::Rgba(vec![7, 8, 9, 10]), image::ColorType::Rgba8),
        (Samples::Gray16(vec![700]), image::ColorType::L16),
        (Samples::GrayAlpha16(vec![7, 800]), image::ColorType::La16),
        (Samples::Rgb16(vec![7, 8, 900]), image::ColorType::Rgb16),
        (Samples::Rgba16(vec![7, 8, 9, 1000]), image::ColorType::Rgba16),
    ] {
        let bytes = encode_png(&gray(samples)).unwrap();
        assert_eq!(image::load_from_memory(&bytes).unwrap().color(), color);
    }
}

#[test]
fn pictures_are_brought_to_a_size() {
    let picture = Picture {
        width: 1,
        height: 1,
        samples: Samples::Rgb(vec![10, 20, 30]),
    };
    let fitted = fit_picture(picture.clone(), 3, 2).unwrap();
    assert_eq!((fitted.width, fitted.height), (3, 2));
    assert_eq!(rgb(&fitted), [10, 20, 30].repeat(6));
    let same = fit_picture(picture, 1, 1).unwrap();
    assert_eq!(rgb(&same), [10, 20, 30]);
    let strip = Picture {
        width: MAX_RESIZED_SIDE + 1,
        height: 1,
        samples: Samples::Gray(vec![0; MAX_RESIZED_SIDE as usize + 1]),
    };
    let shortened = fit_picture(strip.clone(), 2, 1).unwrap();
    assert_eq!((shortened.width, shortened.height), (2, 1));
    assert!(fit_picture(strip.clone(), MAX_RESIZED_SIDE + 2, 1).is_none());
    let kept = fit_picture(strip, MAX_RESIZED_SIDE + 1, 1).unwrap();
    assert_eq!((kept.width, kept.height), (MAX_RESIZED_SIDE + 1, 1));
}

#[test]
fn masks_are_written_as_png() {
    let mask = GrayMask {
        width: 2,
        height: 2,
        pixels: vec![0, 255, 128, 1],
    };
    let bytes = encode_mask(&mask).unwrap();
    let read = image::load_from_memory(&bytes).unwrap();
    assert_eq!(read.color(), image::ColorType::L8);
    assert_eq!(read.to_luma8().into_raw(), [0, 255, 128, 1]);
    let empty = GrayMask {
        width: 0,
        height: 3,
        pixels: vec![],
    };
    assert!(encode_mask(&empty).is_none());
}

#[test]
fn a_page_without_pixels_is_not_sent() {
    let edit = Edit::start(
        FalModel::MaiImage2_5Edit,
        ImageEditConfig::default(),
        page(0, 2),
        "test-key",
    )
    .unwrap();
    assert!(matches!(edit.next(Event::Begin).1, Action::Fail(message)
        if message == "failed to encode the Fal.ai input image"));
    let (key, _, result) = ask(answer("{}", vec![]), page(2, 0));
    assert_eq!(key, "");
    assert_eq!(
        result.unwrap_err(),
        "failed to encode the OpenRouter input image"
    );
}

fn painted() -> Picture {
    Picture {
        width: 2,
        height: 1,
        samples: Samples::Rgb(vec![1, 2, 3, 250, 251, 252]),
    }
}

#[test]
fn an_image_of_the_size_of_the_page_is_kept() {
    let (phase, action) = complete_with(painted(), &page(2, 1));
    assert!(matches!(phase, Phase::Finished));
    assert!(matches!(action, Action::Complete(image) if rgb(&image) == rgb(&painted())));

    let edit = OpenRouterEdit {
        phase: RouterPhase::Resizing(painted()),
        ..OpenRouterEdit::start("m".to_owned(), "p".to_owned(), page(2, 1), "k").unwrap()
    };
    let (_, action) = edit.next(RouterEvent::Proceed);
    assert!(matches!(action, RouterAction::Complete(image) if rgb(&image) == rgb(&painted())));

    let bytes = encode_png(&painted()).unwrap();
    let result = ask(answer("{}", vec![entry(&encode(&bytes))]), page(2, 1)).2;
    assert_eq!(rgb(&result.unwrap().unwrap()), rgb(&painted()));
}

#[test]
fn an_image_that_is_too_large_to_be_resized_is_refused() {
    let strip = || Picture {
        width: MAX_RESIZED_SIDE + 1,
        height: 1,
        samples: Samples::Gray(vec![0; MAX_RESIZED_SIDE as usize + 1]),
    };
    assert!(matches!(complete_with(strip(), &page(MAX_RESIZED_SIDE + 2, 1)).1, Action::Fail(message)
        if message == "Fal.ai returned an image that is too large to be resized"));
    let edit = OpenRouterEdit {
        phase: RouterPhase::Resizing(strip()),
        ..OpenRouterEdit::start(
            "m".to_owned(),
            "p".to_owned(),
            page(MAX_RESIZED_SIDE + 2, 1),
            "k",
        )
        .unwrap()
    };
    assert!(matches!(edit.next(RouterEvent::Proceed).1, RouterAction::Fail(message)
        if message == "OpenRouter returned an image that is too large to be resized"));
}
