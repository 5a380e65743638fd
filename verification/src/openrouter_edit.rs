//! Editing a page image with an image model of OpenRouter.
//!
//! An [`OpenRouterEdit`] decides what is done next; whoever drives it does that and hands back
//! what came of it.

use vstd::prelude::*;
use vstd::utf8::encode_utf8;

use crate::encoding::{append_bytes, base64_bytes, base64_text, decode, encode};
use crate::image_catalog::{bare_mime, ensure_raster_mime, is_raster_mime};
use crate::json::{
    field, first_field, json_parse, read_json, text as text_value, text_of, Json, JsonValue, ListBuilder,
    ObjectBuilder,
};
use crate::picture::{
    decode_picture, decoded, encode_png, fit_picture, fitted, holds_picture, resizable, Picture,
};
use crate::redact::REDACTED_URI;
use crate::text::{
    byte_length, chars, decimal, find_from, first_at, first_chars, from_integer, from_size, is_space,
    law_nothing_else_is_replaced, lemma_first_at, lemma_first_at_skip, occurs, occurs_at, replace, replaced, signed_decimal, slice, space, take_chars,
    trim, trimmed,
};

verus! {

/// The most bytes that an image may have.
pub const MAX_IMAGE_BYTES: usize = 64 * 1024 * 1024;

/// The most bytes that an image may have in Base64.
pub const MAX_ENCODED_BYTES: usize = (MAX_IMAGE_BYTES / 3 + 1) * 4 + 4;

/// The most bytes that an answer may have.
pub const MAX_RESPONSE_BYTES: usize = (MAX_IMAGE_BYTES / 3 + 1) * 4 + 1024 * 1024;

/// The most bytes of a refusal that are looked at.
pub const MAX_ERROR_BYTES: usize = 16 * 1024;

/// The most characters of a refusal that are told.
pub const MAX_ERROR_DETAIL_CHARS: usize = 512;

/// What stands in a text in place of the credential.
pub const REDACTED_API_KEY: &'static str = "[redacted API key]";

/// How an embedded image begins.
pub const URI_MARK: &'static str = "data:image/";

/// What is asked of the service.
pub open spec fn request_value(
    model: Seq<char>,
    prompt: Seq<char>,
    data_uri: Seq<char>,
) -> JsonValue {
    let url = JsonValue::Object(seq![("url"@, JsonValue::Text(data_uri))]);
    let reference = JsonValue::Object(
        seq![("type"@, JsonValue::Text("image_url"@)), ("image_url"@, url)],
    );
    JsonValue::Object(
        seq![
            ("model"@, JsonValue::Text(model)),
            ("prompt"@, JsonValue::Text(prompt)),
            ("n"@, JsonValue::Integer(1)),
            ("aspect_ratio"@, JsonValue::Text("auto"@)),
            ("input_references"@, JsonValue::List(seq![reference])),
        ],
    )
}

/// What is asked of the service.
pub fn request_body(model: &str, prompt: &str, data_uri: &str) -> (result: Json)
    ensures
        result@ == request_value(model@, prompt@, data_uri@),
{
    let mut url = ObjectBuilder::new();
    url.field("url", text_value(data_uri));
    proof {
        assert(url@ =~= seq![("url"@, JsonValue::Text(data_uri@))]);
    }
    let mut reference = ObjectBuilder::new();
    reference.field("type", text_value("image_url"));
    let url = url.build();
    let ghost url_value = url@;
    reference.field("image_url", url);
    proof {
        assert(reference@ =~= seq![
            ("type"@, JsonValue::Text("image_url"@)),
            ("image_url"@, url_value),
        ]);
    }
    let mut references = ListBuilder::new();
    let reference = reference.build();
    let ghost reference_value = reference@;
    references.push(reference);
    proof {
        assert(references@ =~= seq![reference_value]);
    }
    let mut body = ObjectBuilder::new();
    body.field("model", text_value(model));
    body.field("prompt", text_value(prompt));
    body.field("n", Json::Integer(1));
    body.field("aspect_ratio", text_value("auto"));
    body.field("input_references", references.build());
    proof {
        assert(body@ =~= request_value(model@, prompt@, data_uri@)->Object_0);
    }
    body.build()
}

/// The characters that end an embedded image.
pub open spec fn ends_uri(c: char) -> bool {
    is_space(c) || c == '"'
}

/// How many characters of a text come before one that ends an embedded image.
pub open spec fn uri_length(text: Seq<char>) -> nat
    decreases text.len(),
{
    if text.len() == 0 || ends_uri(text[0]) {
        0
    } else {
        1 + uri_length(text.skip(1))
    }
}

pub proof fn lemma_uri_length(text: Seq<char>)
    ensures
        uri_length(text) <= text.len(),
        text.len() > 0 && !ends_uri(text[0]) ==> uri_length(text) > 0,
    decreases text.len(),
{
    if text.len() > 0 && !ends_uri(text[0]) {
        lemma_uri_length(text.skip(1));
    }
}

/// A text in which every embedded image is redacted.
pub open spec fn without_uris(text: Seq<char>) -> Seq<char>
    decreases text.len(),
{
    match first_at(text, URI_MARK@, 0) {
        None => text,
        Some(start) => {
            let end = start + uri_length(text.skip(start));
            proof {
                lemma_mark(text);
            }
            text.take(start) + REDACTED_URI@ + without_uris(text.skip(end))
        },
    }
}

pub proof fn lemma_mark(text: Seq<char>)
    ensures
        first_at(text, URI_MARK@, 0) matches Some(start) ==> {
            &&& 0 <= start < text.len()
            &&& 0 < uri_length(text.skip(start)) <= text.len() - start
        },
{
    lemma_first_at(text, URI_MARK@, 0);
    if let Some(start) = first_at(text, URI_MARK@, 0) {
        reveal_strlit("data:image/");
        assert(text.subrange(start, start + URI_MARK@.len())[0] == 'd');
        assert(text.skip(start)[0] == text[start]);
        lemma_uri_length(text.skip(start));
    }
}

fn redact_uris(content: &str) -> (result: String)
    ensures
        result@ == without_uris(content@),
{
    let text = chars(content);
    let mark = chars(URI_MARK);
    let mut result = String::new();
    let mut from: usize = 0;
    proof {
        assert(text@.skip(0) =~= text@);
        assert(result@ + without_uris(text@) =~= without_uris(text@));
    }
    loop
        invariant
            from <= text.len(),
            text@ == content@,
            mark@ == URI_MARK@,
            result@ + without_uris(text@.skip(from as int)) == without_uris(text@),
        decreases text.len() - from,
    {
        let ghost rest = text@.skip(from as int);
        proof {
            lemma_first_at_skip(text@, URI_MARK@, from as int, from as int);
        }
        match find_from(&text, &mark, from) {
            None => {
                let tail = slice(&text, from, text.len());
                result.append(tail.as_str());
                proof {
                    assert(tail@ =~= rest);
                }
                return result;
            },
            Some(start) => {
                let ghost before = result@;
                proof {
                    lemma_mark(rest);
                    assert(rest.skip(start - from) =~= text@.skip(start as int));
                }
                let mut end: usize = start;
                while end < text.len() && !space(text[end]) && text[end] != '"'
                    invariant
                        start <= end <= text.len(),
                        uri_length(text@.skip(start as int)) == end - start + uri_length(
                            text@.skip(end as int),
                        ),
                    decreases text.len() - end,
                {
                    proof {
                        assert(text@.skip(end as int)[0] == text@[end as int]);
                        assert(text@.skip(end as int).skip(1) =~= text@.skip(end as int + 1));
                    }
                    end += 1;
                }
                proof {
                    if end < text.len() {
                        assert(text@.skip(end as int)[0] == text@[end as int]);
                    }
                }
                let kept = slice(&text, from, start);
                result.append(kept.as_str());
                result.append(REDACTED_URI);
                proof {
                    assert(kept@ =~= rest.take(start - from));
                    assert(rest.skip(end - from) =~= text@.skip(end as int));
                    assert(result@ + without_uris(text@.skip(end as int)) =~= before
                        + without_uris(rest));
                }
                from = end;
            },
        }
    }
}

/// The message of a refusal.
pub open spec fn refusal_message(answer: Option<JsonValue>) -> Option<Seq<char>> {
    match answer {
        Some(value) => {
            let inner = match field(value, "error"@) {
                Some(error) => text_of(field(error, "message"@)),
                None => None,
            };
            match inner {
                Some(message) => Some(message),
                None => text_of(field(value, "message"@)),
            }
        },
        None => None,
    }
}

/// The number of a refusal.
pub open spec fn refusal_code(answer: Option<JsonValue>) -> Option<int> {
    match answer {
        Some(value) => match field(value, "error"@) {
            Some(error) => match field(error, "code"@) {
                Some(JsonValue::Integer(code)) => Some(code),
                _ => None,
            },
            None => None,
        },
        None => None,
    }
}

/// What is told of a refusal, given what its bytes stand for.
pub open spec fn refusal_detail(answer: Option<JsonValue>, key: Seq<char>) -> Seq<char> {
    match refusal_message(answer) {
        None => "OpenRouter returned an error without a message"@,
        Some(message) => {
            let full = message + (match refusal_code(answer) {
                Some(code) => " (code "@ + signed_decimal(code) + ")"@,
                None => Seq::<char>::empty(),
            });
            let keyless = if key.len() == 0 {
                full
            } else {
                replaced(full, key, REDACTED_API_KEY@)
            };
            first_chars(without_uris(keyless), MAX_ERROR_DETAIL_CHARS as nat)
        },
    }
}

/// Tells a refusal, given what its bytes stand for.
pub fn answer_detail(answer: Option<Json>, key: &str) -> (result: String)
    ensures
        result@ == refusal_detail(
            match answer {
                Some(value) => Some(value@),
                None => None,
            },
            key@,
        ),
{
    let value = match &answer {
        Some(value) => value,
        None => return "OpenRouter returned an error without a message".to_owned(),
    };
    let error = value.get("error");
    let inner = match error {
        Some(error) => error.text_field("message"),
        None => None,
    };
    let message = match inner {
        Some(message) => Some(message),
        None => value.text_field("message"),
    };
    let mut detail = match message {
        Some(message) => message,
        None => return "OpenRouter returned an error without a message".to_owned(),
    };
    let ghost told = detail@;
    let code: Option<i64> = match error {
        Some(error) => match error.get("code") {
            Some(Json::Integer(code)) => Some(*code),
            _ => None,
        },
        None => None,
    };
    if let Some(code) = code {
        detail.append(" (code ");
        let digits = from_integer(code);
        detail.append(digits.as_str());
        detail.append(")");
    }
    proof {
        let ghost suffix = match code {
            Some(code) => " (code "@ + signed_decimal(code as int) + ")"@,
            None => Seq::<char>::empty(),
        };
        assert(detail@ =~= told + suffix);
    }
    if !key.is_empty() {
        detail = replace(detail.as_str(), key, REDACTED_API_KEY);
    }
    let shown = redact_uris(detail.as_str());
    take_chars(shown.as_str(), MAX_ERROR_DETAIL_CHARS)
}

/// Tells a refusal.
pub fn error_detail(body: &Vec<u8>, key: &str) -> (result: String)
    ensures
        result@ == refusal_detail(json_parse(body@), key@),
{
    answer_detail(read_json(body), key)
}

/// An image in an answer.
pub struct ImageData {
    pub b64_json: String,
    pub media_type: Option<String>,
}

/// The bytes of the one image in an answer, or why there are none, given what its text stands for.
pub open spec fn image_outcome(images: Seq<ImageData>, decoded: Option<Seq<u8>>) -> Result<
    Seq<u8>,
    Seq<char>,
> {
    if images.len() != 1 {
        Err("OpenRouter returned "@ + decimal(images.len()) + " images, expected exactly one"@)
    } else if images[0].media_type matches Some(media_type) && !is_raster_mime(media_type@) {
        Err(
            "OpenRouter returned a non-raster image MIME type "@ + bare_mime(
                images[0].media_type->0@,
            ),
        )
    } else if encode_utf8(images[0].b64_json@).len() > MAX_ENCODED_BYTES {
        Err("OpenRouter image exceeds the 64 MiB limit"@)
    } else {
        read_outcome(decoded)
    }
}

/// The bytes of the one image in an answer, or why there are none.
pub open spec fn taken_image(images: Seq<ImageData>) -> Result<Seq<u8>, Seq<char>> {
    image_outcome(images, base64_bytes(images[0].b64_json@))
}

/// Checks the images of an answer, as far as their contents need not be read.
fn check_images(images: &Vec<ImageData>) -> (result: Option<String>)
    ensures
        match result {
            Some(message) => forall|decoded: Option<Seq<u8>>| #[trigger]
                image_outcome(images@, decoded) == Err::<Seq<u8>, Seq<char>>(message@),
            None => images.len() == 1 && forall|decoded: Option<Seq<u8>>| #[trigger]
                image_outcome(images@, decoded) == read_outcome(decoded),
        },
{
    if images.len() != 1 {
        let mut message = "OpenRouter returned ".to_owned();
        let count = from_size(images.len());
        message.append(count.as_str());
        message.append(" images, expected exactly one");
        return Some(message);
    }
    if let Some(media_type) = &images[0].media_type {
        if let Err(message) = ensure_raster_mime(media_type.as_str()) {
            return Some(message);
        }
    }
    if byte_length(images[0].b64_json.as_str()) > MAX_ENCODED_BYTES {
        return Some("OpenRouter image exceeds the 64 MiB limit".to_owned());
    }
    None
}

/// The bytes of an image, or why they cannot be used.
pub open spec fn read_outcome(decoded: Option<Seq<u8>>) -> Result<Seq<u8>, Seq<char>> {
    match decoded {
        None => Err("OpenRouter returned invalid base64 image data"@),
        Some(bytes) => if bytes.len() > MAX_IMAGE_BYTES {
            Err("OpenRouter image exceeds the 64 MiB limit"@)
        } else {
            Ok(bytes)
        },
    }
}

/// Checks the bytes of an image.
pub fn accept_bytes(decoded: Option<Vec<u8>>) -> (result: Result<Vec<u8>, String>)
    ensures
        outcome_view(result) == read_outcome(
            match decoded {
                Some(bytes) => Some(bytes@),
                None => None,
            },
        ),
{
    match decoded {
        None => Err("OpenRouter returned invalid base64 image data".to_owned()),
        Some(bytes) => if bytes.len() > MAX_IMAGE_BYTES {
            Err("OpenRouter image exceeds the 64 MiB limit".to_owned())
        } else {
            Ok(bytes)
        },
    }
}

/// What a result holds.
pub open spec fn outcome_view(result: Result<Vec<u8>, String>) -> Result<Seq<u8>, Seq<char>> {
    match result {
        Ok(bytes) => Ok(bytes@),
        Err(message) => Err(message@),
    }
}

/// Takes the one image out of an answer.
pub fn take_image(images: &Vec<ImageData>) -> (result: Result<Vec<u8>, String>)
    ensures
        outcome_view(result) == taken_image(images@),
{
    match check_images(images) {
        Some(message) => {
            let ghost decoded = base64_bytes(images@[0].b64_json@);
            assert(image_outcome(images@, decoded) == Err::<Seq<u8>, Seq<char>>(message@));
            Err(message)
        },
        None => {
            let decoded = decode(images[0].b64_json.as_str());
            let ghost bytes = base64_bytes(images@[0].b64_json@);
            assert(image_outcome(images@, bytes) == read_outcome(bytes));
            accept_bytes(decoded)
        },
    }
}

/// The credential is not usable.
pub open spec fn usable_key(credential: Seq<char>) -> Option<Seq<char>> {
    if trimmed(credential).len() == 0 {
        None
    } else {
        Some(trimmed(credential))
    }
}

/// How far an edit has come.
pub enum Phase {
    /// Nothing was sent yet.
    Starting,
    /// The request was sent.
    Asking,
    /// The answer is being read, of which these bytes are there.
    Reading(Vec<u8>),
    /// The answer is being taken apart.
    Parsing,
    /// The image is about to be read from these bytes.
    Decoding(Vec<u8>),
    /// The image is about to be brought to the size of the page.
    Resizing(Picture),
    /// The body of a refusal with this status is being read, of which these bytes are there.
    Explaining(String, Vec<u8>),
    Finished,
}

/// What came of what was to be done.
pub enum Event {
    /// The edit is to be stopped.
    Stopped,
    /// It failed with these words.
    Failed(String),
    /// The edit is to go on.
    Proceed,
    /// What an answer says before its body: the status, the status with its usual words, and the
    /// length of the body.
    Head { status: u16, status_text: String, length: Option<u64> },
    Chunk(Vec<u8>),
    /// The body has no more bytes.
    End,
    Images(Vec<ImageData>),
}

/// What is to be done.
pub enum Action {
    Ask { key: String, body: Json },
    ReadChunk,
    /// The images are to be taken out of the answer.
    Parse(Vec<u8>),
    /// It is to be found out whether the edit is to be stopped.
    LookForStop,
    Stop,
    /// The edited image is complete.
    Complete(Picture),
    Fail(String),
}

/// An edit under way.
pub struct OpenRouterEdit {
    pub model: String,
    pub prompt: String,
    pub key: String,
    /// The page that is edited.
    pub page: Picture,
    pub phase: Phase,
}

/// The events that can come of what is being done in a phase.
pub open spec fn fits(phase: Phase, event: Event) -> bool {
    match phase {
        Phase::Starting => event is Proceed || event is Stopped,
        Phase::Asking => event is Head || event is Failed || event is Stopped,
        Phase::Reading(_) => event is Chunk || event is End || event is Failed || event is Stopped,
        Phase::Parsing => event is Images || event is Failed || event is Stopped,
        Phase::Decoding(_) => event is Proceed || event is Stopped,
        Phase::Resizing(_) => event is Proceed || event is Stopped,
        Phase::Explaining(_, _) => event is Chunk || event is End || event is Failed
            || event is Stopped,
        Phase::Finished => false,
    }
}

/// The edit ends with these words.
pub open spec fn fails(phase: Phase, action: Action, message: Seq<char>) -> bool {
    &&& phase is Finished
    &&& action matches Action::Fail(told)
    &&& told@ == message
}

/// What is told of a refusal with a status.
pub open spec fn refusal(status_text: Seq<char>, detail: Seq<char>) -> Seq<char> {
    "OpenRouter image request failed: HTTP "@ + status_text + ": "@ + detail
}

/// What follows the head of an answer.
pub open spec fn after_head(
    status: u16,
    status_text: Seq<char>,
    length: Option<u64>,
    phase: Phase,
    action: Action,
) -> bool {
    if 200 <= status <= 299 {
        if length matches Some(length) && length > MAX_RESPONSE_BYTES {
            fails(phase, action, "OpenRouter image response exceeds the 64 MiB image limit"@)
        } else {
            &&& phase matches Phase::Reading(bytes)
            &&& bytes@.len() == 0
            &&& action is ReadChunk
        }
    } else if length matches Some(length) && length > MAX_ERROR_BYTES {
        fails(
            phase,
            action,
            refusal(status_text, "error response body exceeded the 16 KiB limit"@),
        )
    } else {
        &&& phase matches Phase::Explaining(words, bytes)
        &&& words@ == status_text
        &&& bytes@.len() == 0
        &&& action is ReadChunk
    }
}

/// Bytes cut to as many as are looked at.
pub open spec fn first_bytes(body: Seq<u8>) -> Seq<u8> {
    if body.len() <= MAX_ERROR_BYTES {
        body
    } else {
        body.take(MAX_ERROR_BYTES as int)
    }
}

/// What follows an event.
pub open spec fn follows(
    edit: OpenRouterEdit,
    event: Event,
    phase: Phase,
    action: Action,
) -> bool {
    match (edit.phase, event) {
        (_, Event::Failed(message)) => fails(phase, action, message@),
        (_, Event::Stopped) => phase is Finished && action is Stop,
        (Phase::Starting, Event::Proceed) => if edit.page.width > 0 && edit.page.height > 0 {
            &&& phase is Asking
            &&& action matches Action::Ask { key, body }
            &&& key@ == edit.key@
            &&& body@ == request_value(
                edit.model@,
                edit.prompt@,
                "data:image/png;base64,"@ + base64_text(edit.page.png()),
            )
        } else {
            fails(phase, action, "failed to encode the OpenRouter input image"@)
        },
        (Phase::Asking, Event::Head { status, status_text, length }) => after_head(
            status,
            status_text@,
            length,
            phase,
            action,
        ),
        (Phase::Reading(bytes), Event::Chunk(chunk)) => if bytes@.len() + chunk@.len()
            <= MAX_RESPONSE_BYTES {
            &&& phase matches Phase::Reading(longer)
            &&& longer@ == bytes@ + chunk@
            &&& action is ReadChunk
        } else {
            fails(phase, action, "OpenRouter image response exceeds the 64 MiB image limit"@)
        },
        (Phase::Reading(bytes), Event::End) => {
            &&& phase is Parsing
            &&& action matches Action::Parse(answer)
            &&& answer@ == bytes@
        },
        (Phase::Parsing, Event::Images(images)) => match taken_image(images@) {
            Ok(bytes) => {
                &&& phase matches Phase::Decoding(taken)
                &&& taken@ == bytes
                &&& action is LookForStop
            },
            Err(message) => fails(phase, action, message),
        },
        (Phase::Decoding(bytes), Event::Proceed) => match decoded(bytes@) {
            Some(_) => {
                &&& phase matches Phase::Resizing(picture)
                &&& holds_picture(bytes@, picture)
                &&& action is LookForStop
            },
            None => fails(phase, action, "OpenRouter returned an invalid image"@),
        },
        (Phase::Resizing(picture), Event::Proceed) => if resizable(
            picture.width,
            picture.height,
            edit.page.width,
            edit.page.height,
        ) {
            &&& phase is Finished
            &&& action matches Action::Complete(image)
            &&& fitted(picture, edit.page.width, edit.page.height, image)
        } else {
            fails(phase, action, "OpenRouter returned an image that is too large to be resized"@)
        },
        (Phase::Explaining(status_text, body), Event::Chunk(chunk)) => {
            let longer = body@ + chunk@;
            if longer.len() >= MAX_ERROR_BYTES {
                fails(
                    phase,
                    action,
                    refusal(
                        status_text@,
                        refusal_detail(json_parse(first_bytes(longer)), edit.key@),
                    ),
                )
            } else {
                &&& phase matches Phase::Explaining(words, kept)
                &&& words@ == status_text@
                &&& kept@ == longer
                &&& action is ReadChunk
            }
        },
        (Phase::Explaining(status_text, body), Event::End) => fails(
            phase,
            action,
            refusal(status_text@, refusal_detail(json_parse(body@), edit.key@)),
        ),
        _ => true,
    }
}

fn refuse(status_text: &str, detail: &str) -> (result: (Phase, Action))
    ensures
        fails(result.0, result.1, refusal(status_text@, detail@)),
{
    let mut message = "OpenRouter image request failed: HTTP ".to_owned();
    message.append(status_text);
    message.append(": ");
    message.append(detail);
    (Phase::Finished, Action::Fail(message))
}

fn fail(message: &str) -> (result: (Phase, Action))
    ensures
        fails(result.0, result.1, message@),
{
    (Phase::Finished, Action::Fail(message.to_owned()))
}

fn step_head(status: u16, status_text: String, length: Option<u64>) -> (result: (Phase, Action))
    ensures
        after_head(status, status_text@, length, result.0, result.1),
{
    let declared: u64 = match length {
        Some(length) => length,
        None => 0,
    };
    if 200 <= status && status <= 299 {
        if declared > MAX_RESPONSE_BYTES as u64 {
            fail("OpenRouter image response exceeds the 64 MiB image limit")
        } else {
            (Phase::Reading(Vec::new()), Action::ReadChunk)
        }
    } else if declared > MAX_ERROR_BYTES as u64 {
        refuse(status_text.as_str(), "error response body exceeded the 16 KiB limit")
    } else {
        (Phase::Explaining(status_text, Vec::new()), Action::ReadChunk)
    }
}

impl OpenRouterEdit {
    /// Everything that is held has its samples.
    pub open spec fn well_formed(&self) -> bool {
        self.page.well_formed() && (self.phase matches Phase::Resizing(picture)
            ==> picture.well_formed())
    }

    /// Starts an edit of a page with a credential, where that holds something.
    pub fn start(model: String, prompt: String, page: Picture, credential: &str) -> (result: Option<
        OpenRouterEdit,
    >)
        ensures
            match result {
                Some(edit) => usable_key(credential@) == Some(edit.key@) && edit.model@ == model@
                    && edit.prompt@ == prompt@ && edit.page == page && edit.phase is Starting,
                None => usable_key(credential@) is None,
            },
    {
        let key = trim(credential);
        if key.as_str().unicode_len() == 0 {
            None
        } else {
            Some(OpenRouterEdit { model, prompt, key, page, phase: Phase::Starting })
        }
    }

    /// Tests whether an event can come of what is being done.
    pub fn expects(&self, event: &Event) -> (result: bool)
        ensures
            result == fits(self.phase, *event),
    {
        match (&self.phase, event) {
            (Phase::Finished, _) => false,
            (_, Event::Stopped) => true,
            (Phase::Starting, Event::Proceed) => true,
            (Phase::Starting, _) => false,
            (Phase::Decoding(_), Event::Proceed) => true,
            (Phase::Decoding(_), _) => false,
            (Phase::Resizing(_), Event::Proceed) => true,
            (Phase::Resizing(_), _) => false,
            (_, Event::Failed(_)) => true,
            (Phase::Asking, Event::Head { .. }) => true,
            (Phase::Reading(_), Event::Chunk(_)) => true,
            (Phase::Reading(_), Event::End) => true,
            (Phase::Parsing, Event::Images(_)) => true,
            (Phase::Explaining(_, _), Event::Chunk(_)) => true,
            (Phase::Explaining(_, _), Event::End) => true,
            _ => false,
        }
    }

    /// Decides what is done after an event.
    pub fn next(self, event: Event) -> (result: (OpenRouterEdit, Action))
        requires
            fits(self.phase, event),
            self.well_formed(),
        ensures
            result.0.well_formed(),
            result.0.model == self.model,
            result.0.prompt == self.prompt,
            result.0.key == self.key,
            result.0.page == self.page,
            follows(self, event, result.0.phase, result.1),
    {
        let OpenRouterEdit { model, prompt, key, page, phase } = self;
        let (next, action) = Self::step(
            model.as_str(),
            prompt.as_str(),
            key.as_str(),
            &page,
            phase,
            event,
        );
        (OpenRouterEdit { model, prompt, key, page, phase: next }, action)
    }

    fn step(
        model: &str,
        prompt: &str,
        key: &str,
        page: &Picture,
        phase: Phase,
        event: Event,
    ) -> (result: (Phase, Action))
        requires
            fits(phase, event),
            page.well_formed(),
            phase matches Phase::Resizing(picture) ==> picture.well_formed(),
        ensures
            result.0 matches Phase::Resizing(picture) ==> picture.well_formed(),
            forall|edit: OpenRouterEdit|
                edit.model@ == model@ && edit.prompt@ == prompt@ && edit.key@ == key@ && edit.page
                    == *page && edit.phase == phase ==> #[trigger] follows(edit, event, result.0, result.1),
    {
        match (phase, event) {
            (_, Event::Failed(message)) => (Phase::Finished, Action::Fail(message)),
            (_, Event::Stopped) => (Phase::Finished, Action::Stop),
            (Phase::Starting, Event::Proceed) => match encode_png(page) {
                Some(png) => {
                    let mut data_uri = "data:image/png;base64,".to_owned();
                    let encoded = encode(&png);
                    data_uri.append(encoded.as_str());
                    let body = request_body(model, prompt, data_uri.as_str());
                    (Phase::Asking, Action::Ask { key: key.to_owned(), body })
                },
                None => fail("failed to encode the OpenRouter input image"),
            },
            (Phase::Asking, Event::Head { status, status_text, length }) => step_head(
                status,
                status_text,
                length,
            ),
            (Phase::Reading(bytes), Event::Chunk(chunk)) => {
                if bytes.len() <= MAX_RESPONSE_BYTES && chunk.len() <= MAX_RESPONSE_BYTES
                    - bytes.len() {
                    let mut longer = bytes;
                    append_bytes(&mut longer, &chunk, chunk.len());
                    proof {
                        assert(chunk@.take(chunk@.len() as int) =~= chunk@);
                    }
                    (Phase::Reading(longer), Action::ReadChunk)
                } else {
                    fail("OpenRouter image response exceeds the 64 MiB image limit")
                }
            },
            (Phase::Reading(bytes), Event::End) => (Phase::Parsing, Action::Parse(bytes)),
            (Phase::Parsing, Event::Images(images)) => match take_image(&images) {
                Ok(bytes) => (Phase::Decoding(bytes), Action::LookForStop),
                Err(message) => (Phase::Finished, Action::Fail(message)),
            },
            (Phase::Decoding(bytes), Event::Proceed) => match decode_picture(&bytes) {
                Some(picture) => (Phase::Resizing(picture), Action::LookForStop),
                None => fail("OpenRouter returned an invalid image"),
            },
            (Phase::Resizing(picture), Event::Proceed) => match fit_picture(
                picture,
                page.width,
                page.height,
            ) {
                Some(image) => (Phase::Finished, Action::Complete(image)),
                None => fail("OpenRouter returned an image that is too large to be resized"),
            },
            (Phase::Explaining(status_text, body), Event::Chunk(chunk)) => {
                let mut longer = body;
                let ghost whole = body@ + chunk@;
                if longer.len() < MAX_ERROR_BYTES && chunk.len() < MAX_ERROR_BYTES - longer.len() {
                    append_bytes(&mut longer, &chunk, chunk.len());
                    proof {
                        assert(chunk@.take(chunk@.len() as int) =~= chunk@);
                    }
                    (Phase::Explaining(status_text, longer), Action::ReadChunk)
                } else {
                    if longer.len() < MAX_ERROR_BYTES {
                        let count: usize = MAX_ERROR_BYTES - longer.len();
                        append_bytes(&mut longer, &chunk, count);
                    } else {
                        longer.truncate(MAX_ERROR_BYTES);
                    }
                    proof {
                        assert(longer@ =~= first_bytes(whole));
                    }
                    let detail = error_detail(&longer, key);
                    refuse(status_text.as_str(), detail.as_str())
                }
            },
            (Phase::Explaining(status_text, body), Event::End) => {
                let detail = error_detail(&body, key);
                refuse(status_text.as_str(), detail.as_str())
            },
            _ => (Phase::Finished, Action::Stop),
        }
    }
}

/// What is told of a refusal has a bounded length.
pub proof fn law_refusal_is_short(answer: Option<JsonValue>, key: Seq<char>)
    ensures
        refusal_detail(answer, key).len() <= MAX_ERROR_DETAIL_CHARS,
{
    reveal_strlit("OpenRouter returned an error without a message");
}

/// Only bytes that are no more than the limit are read as an image.
pub proof fn law_decoded_bytes_are_bounded(
    edit: OpenRouterEdit,
    event: Event,
    phase: Phase,
    action: Action,
)
    requires
        fits(edit.phase, event),
        follows(edit, event, phase, action),
    ensures
        phase matches Phase::Decoding(bytes) ==> bytes@.len() <= MAX_IMAGE_BYTES,
{
}

/// A completed edit has the size of the page.
pub proof fn law_edited_page_keeps_its_size(
    edit: OpenRouterEdit,
    event: Event,
    phase: Phase,
    action: Action,
)
    requires
        fits(edit.phase, event),
        follows(edit, event, phase, action),
    ensures
        action matches Action::Complete(image) ==> image.well_formed() && image.sized(
            edit.page.width,
            edit.page.height,
        ),
{
}

/// One request is sent: nothing that follows it sends another.
pub proof fn law_request_is_sent_once(
    edit: OpenRouterEdit,
    event: Event,
    phase: Phase,
    action: Action,
)
    requires
        fits(edit.phase, event),
        follows(edit, event, phase, action),
    ensures
        action is Ask ==> edit.phase is Starting,
        !(phase is Starting),
{
}

/// A stopped edit ends and asks for nothing, whatever it was doing.
pub proof fn law_stopped_edit_sends_nothing(edit: OpenRouterEdit, phase: Phase, action: Action)
    requires
        fits(edit.phase, Event::Stopped),
        follows(edit, Event::Stopped, phase, action),
    ensures
        phase is Finished,
        action is Stop,
{
}

/// What is asked goes to the model that was chosen and holds the instruction of the user as it is,
/// and the image of the page as the only one to work from. One image is asked for.
pub proof fn law_request_holds_what_was_chosen(
    model: Seq<char>,
    prompt: Seq<char>,
    data_uri: Seq<char>,
)
    ensures
        ({
            let request = request_value(model, prompt, data_uri);
            &&& text_of(field(request, "model"@)) == Some(model)
            &&& text_of(field(request, "prompt"@)) == Some(prompt)
            &&& field(request, "n"@) == Some(JsonValue::Integer(1))
            &&& field(request, "input_references"@) matches Some(JsonValue::List(references))
            &&& references.len() == 1
            &&& field(references[0], "image_url"@) matches Some(image)
            &&& text_of(field(image, "url"@)) == Some(data_uri)
        }),
{
    reveal_strlit("model");
    reveal_strlit("prompt");
    reveal_strlit("n");
    reveal_strlit("aspect_ratio");
    reveal_strlit("input_references");
    reveal_strlit("type");
    reveal_strlit("image_url");
    reveal_with_fuel(first_field, 6);
    assert("model"@.len() == 5 && "prompt"@.len() == 6 && "n"@.len() == 1 && "aspect_ratio"@.len()
        == 12 && "input_references"@.len() == 16 && "type"@.len() == 4 && "image_url"@.len() == 9);
}

/// An image is taken out of an answer exactly if it is the only one, not said to be anything but a
/// raster image, and no longer than 64 times 1024 times 1024 bytes. It is taken as it is.
pub proof fn law_one_raster_image_is_taken(images: Seq<ImageData>, decoded: Option<Seq<u8>>)
    ensures
        image_outcome(images, decoded) is Ok <==> {
            &&& images.len() == 1
            &&& images[0].media_type matches Some(media_type) ==> is_raster_mime(media_type@)
            &&& encode_utf8(images[0].b64_json@).len() <= MAX_ENCODED_BYTES
            &&& decoded matches Some(bytes) && bytes.len() <= 67108864
        },
        image_outcome(images, decoded) matches Ok(bytes) ==> decoded == Some(bytes),
{
}

/// An answer is read exactly if its status tells of success and it is not said to be too long. A
/// refusal is read to be told, unless it is said to be longer than 16 times 1024 bytes.
pub proof fn law_answers_are_read_by_their_status(
    status: u16,
    status_text: Seq<char>,
    length: Option<u64>,
    phase: Phase,
    action: Action,
)
    requires
        after_head(status, status_text, length, phase, action),
    ensures
        phase is Reading <==> 200 <= status <= 299 && (length matches Some(bytes) ==> bytes
            <= MAX_RESPONSE_BYTES),
        phase is Explaining <==> !(200 <= status <= 299) && (length matches Some(bytes) ==> bytes
            <= 16384),
        phase is Reading || phase is Explaining ==> action is ReadChunk,
        !(phase is Reading || phase is Explaining) ==> phase is Finished && action is Fail,
{
}

/// A refusal is told in the words of the error that the answer holds, and else in those of the
/// answer.
pub proof fn law_refusals_are_told_in_their_own_words(
    answer: JsonValue,
    error: JsonValue,
    message: Seq<char>,
)
    ensures
        field(answer, "error"@) == Some(error) && field(error, "message"@) == Some(
            JsonValue::Text(message),
        ) ==> refusal_message(Some(answer)) == Some(message),
        field(answer, "error"@) is None && field(answer, "message"@) == Some(
            JsonValue::Text(message),
        ) ==> refusal_message(Some(answer)) == Some(message),
        refusal_message(None) is None,
{
}

/// A short refusal that holds neither the credential nor an embedded image is told as it is, with
/// its number where it has one.
pub proof fn law_harmless_refusals_are_told_as_they_are(answer: JsonValue, key: Seq<char>)
    requires
        refusal_message(Some(answer)) is Some,
        ({
            let told = refusal_message(Some(answer))->0 + (match refusal_code(Some(answer)) {
                Some(code) => " (code "@ + signed_decimal(code) + ")"@,
                None => Seq::<char>::empty(),
            });
            told.len() <= 512 && !occurs(told, key) && !occurs(told, "data:image/"@)
        }),
    ensures
        refusal_code(Some(answer)) is None ==> refusal_detail(Some(answer), key)
            == refusal_message(Some(answer))->0,
        refusal_code(Some(answer)) matches Some(code) ==> refusal_detail(Some(answer), key)
            == refusal_message(Some(answer))->0 + (" (code "@ + signed_decimal(code) + ")"@),
{
    let message = refusal_message(Some(answer))->0;
    let told = message + (match refusal_code(Some(answer)) {
        Some(code) => " (code "@ + signed_decimal(code) + ")"@,
        None => Seq::<char>::empty(),
    });
    assert(message + Seq::<char>::empty() =~= message);
    if key.len() > 0 {
        law_nothing_else_is_replaced(told, key, REDACTED_API_KEY@);
    }
    lemma_first_at(told, URI_MARK@, 0);
    if let Some(start) = first_at(told, URI_MARK@, 0) {
        assert(occurs_at(told, "data:image/"@, start));
    }
}

} // verus!
