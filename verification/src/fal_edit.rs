//! The course of one image edit with the Fal.ai queue.
//!
//! An [`Edit`] decides what is done next; whoever drives it does that and hands back what came of
//! it.

use vstd::prelude::*;

use crate::encoding::{append_bytes, base64_text, encode};
use crate::fal::{
    law_instruction_is_sent_within_its_boundary, law_one_image_is_sent_and_one_asked_for,
    normalize_key, normalized_key, request_body, request_value, FalModel, ImageEditConfig,
    KeyError, MAX_IMAGE_BYTES,
};
use crate::fal_error::{error_detail, safe_error_detail, MAX_ERROR_BYTES};
use crate::json::{field, text_of, Json};
use crate::picture::{
    decode_picture, decoded, encode_png, fit_picture, fitted, resizable, shaped, Picture,
};
use crate::redact::{redact_sensitive, redacted};
use crate::text::{decimal, from_size, occurs_at, same, starts_with, trimmed};

verus! {

/// A link that the service gave.
pub struct Link {
    pub scheme: String,
    pub text: String,
}

/// A job in the queue of the service.
pub struct Job {
    pub status: Link,
    pub response: Link,
    pub cancel: Link,
}

/// An image that the service made.
pub struct ResultImage {
    pub url: Link,
    pub content_type: Option<String>,
}

/// What an answer says before its body.
pub struct ResponseHead {
    pub status: u16,
    /// The status with its usual words.
    pub status_text: String,
    pub request_id: Option<String>,
    pub content_type: Option<String>,
    pub length: Option<u64>,
}

/// What is made of an answer before its body is read.
pub enum Verdict {
    Accepted,
    Refused(String),
    /// The body is told behind these words.
    Unclear(String),
}

/// What is made of an answer, with its words as sequences.
#[verifier::ext_equal]
pub enum Judgement {
    Accepted,
    Refused(Seq<char>),
    Unclear(Seq<char>),
}

impl View for Verdict {
    type V = Judgement;

    open spec fn view(&self) -> Judgement {
        match self {
            Verdict::Accepted => Judgement::Accepted,
            Verdict::Refused(message) => Judgement::Refused(message@),
            Verdict::Unclear(prefix) => Judgement::Unclear(prefix@),
        }
    }
}

/// The number under which the service keeps a request, as it is told.
pub open spec fn told_id(head: ResponseHead, key: Seq<char>) -> Seq<char> {
    redacted(
        match head.request_id {
            Some(id) => id@,
            None => "not provided"@,
        },
        key,
    )
}

/// What is made of an answer to an authenticated request.
pub open spec fn judgement(head: ResponseHead, context: Seq<char>, key: Seq<char>) -> Judgement {
    let id = told_id(head, key);
    if head.status == 401 {
        Judgement::Refused(
            "Fal.ai rejected the configured credential (HTTP 401 Unauthorized). Verify that the saved FAL_KEY is active and was copied completely from the Fal.ai dashboard (Fal request ID: "@
                + id + ")"@,
        )
    } else if head.status == 403 {
        Judgement::Refused(
            "Fal.ai denied access for the configured credential (HTTP 403 Forbidden). Verify that the key has API scope and its account or team can use the selected model (Fal request ID: "@
                + id + ")"@,
        )
    } else if 502 <= head.status <= 504 {
        Judgement::Refused(
            context + ": Fal.ai or its model provider is temporarily unavailable ("@
                + head.status_text@ + "; Fal request ID: "@ + id
                + "). Retry this stage later; Koharu did not automatically resubmit the image job because that could create a duplicate paid request"@,
        )
    } else if 200 <= head.status <= 299 {
        Judgement::Accepted
    } else {
        Judgement::Unclear(
            context + ": "@ + head.status_text@ + "; Fal request ID: "@ + id + "; detail: "@,
        )
    }
}

fn tell_id(head: &ResponseHead, key: &str) -> (result: String)
    ensures
        result@ == told_id(*head, key@),
{
    match &head.request_id {
        Some(id) => redact_sensitive(id.as_str(), key),
        None => redact_sensitive("not provided", key),
    }
}

/// Judges an answer to an authenticated request before its body is read.
pub fn authenticated_response(head: &ResponseHead, context: &str, key: &str) -> (result: Verdict)
    ensures
        result@ == judgement(*head, context@, key@),
{
    let id = tell_id(head, key);
    if head.status == 401 {
        let mut message =
            "Fal.ai rejected the configured credential (HTTP 401 Unauthorized). Verify that the saved FAL_KEY is active and was copied completely from the Fal.ai dashboard (Fal request ID: ".to_owned();
        message.append(id.as_str());
        message.append(")");
        Verdict::Refused(message)
    } else if head.status == 403 {
        let mut message =
            "Fal.ai denied access for the configured credential (HTTP 403 Forbidden). Verify that the key has API scope and its account or team can use the selected model (Fal request ID: ".to_owned();
        message.append(id.as_str());
        message.append(")");
        Verdict::Refused(message)
    } else if 502 <= head.status && head.status <= 504 {
        let mut message = context.to_owned();
        message.append(": Fal.ai or its model provider is temporarily unavailable (");
        message.append(head.status_text.as_str());
        message.append("; Fal request ID: ");
        message.append(id.as_str());
        message.append(
            "). Retry this stage later; Koharu did not automatically resubmit the image job because that could create a duplicate paid request",
        );
        Verdict::Refused(message)
    } else if 200 <= head.status && head.status <= 299 {
        Verdict::Accepted
    } else {
        let mut prefix = context.to_owned();
        prefix.append(": ");
        prefix.append(head.status_text.as_str());
        prefix.append("; Fal request ID: ");
        prefix.append(id.as_str());
        prefix.append("; detail: ");
        Verdict::Unclear(prefix)
    }
}

/// What is made of the answer that holds the result: one that cannot be processed is told with
/// its body whatever else it says.
pub open spec fn result_judgement(head: ResponseHead, key: Seq<char>) -> Judgement {
    if head.status == 422 {
        Judgement::Unclear(
            "Fal.ai result request failed: 422 Unprocessable Entity; Fal request ID: "@ + told_id(
                head,
                key,
            ) + "; detail: "@,
        )
    } else {
        judgement(head, "Fal.ai result request failed"@, key)
    }
}

fn result_response(head: &ResponseHead, key: &str) -> (result: Verdict)
    ensures
        result@ == result_judgement(*head, key@),
{
    if head.status == 422 {
        let mut prefix =
            "Fal.ai result request failed: 422 Unprocessable Entity; Fal request ID: ".to_owned();
        let id = tell_id(head, key);
        prefix.append(id.as_str());
        prefix.append("; detail: ");
        Verdict::Unclear(prefix)
    } else {
        authenticated_response(head, "Fal.ai result request failed", key)
    }
}

/// The link leads over HTTPS.
pub open spec fn secure(link: Link) -> bool {
    link.scheme@ == "https"@
}

/// Tests whether a link leads over HTTPS.
pub fn require_https(link: &Link) -> (result: bool)
    ensures
        result == secure(*link),
{
    same(link.scheme.as_str(), "https")
}

/// Why the images of a result cannot be used, or nothing.
pub open spec fn images_problem(images: Seq<ResultImage>) -> Option<Seq<char>> {
    if images.len() != 1 {
        Some("Fal.ai returned "@ + decimal(images.len()) + " images, expected exactly one"@)
    } else if !secure(images[0].url) {
        Some("Fal.ai returned a non-HTTPS URL"@)
    } else {
        match images[0].content_type {
            Some(content_type) => if occurs_at(content_type@, "image/"@, 0) {
                None
            } else {
                Some("Fal.ai result has invalid content type "@ + content_type@)
            },
            None => None,
        }
    }
}

fn check_images(images: &Vec<ResultImage>) -> (result: Option<String>)
    ensures
        match result {
            Some(message) => images_problem(images@) == Some(message@),
            None => images_problem(images@) is None,
        },
{
    if images.len() != 1 {
        let mut message = "Fal.ai returned ".to_owned();
        let count = from_size(images.len());
        message.append(count.as_str());
        message.append(" images, expected exactly one");
        return Some(message);
    }
    if !require_https(&images[0].url) {
        return Some("Fal.ai returned a non-HTTPS URL".to_owned());
    }
    match &images[0].content_type {
        Some(content_type) => if starts_with(content_type.as_str(), "image/") {
            None
        } else {
            let mut message = "Fal.ai result has invalid content type ".to_owned();
            message.append(content_type.as_str());
            Some(message)
        },
        None => None,
    }
}

/// Why an answer does not hold the image, or nothing.
pub open spec fn download_problem(head: ResponseHead) -> Option<Seq<char>> {
    if 400 <= head.status <= 599 {
        Some("Fal.ai image download failed"@)
    } else {
        match head.content_type {
            None => Some("Fal.ai image response has no valid content type"@),
            Some(content_type) => if !occurs_at(content_type@, "image/"@, 0) {
                Some("Fal.ai image response has invalid content type "@ + content_type@)
            } else if head.length matches Some(length) && length > MAX_IMAGE_BYTES {
                Some("Fal.ai image exceeds the 64 MiB limit"@)
            } else {
                None
            },
        }
    }
}

fn check_download(head: &ResponseHead) -> (result: Option<String>)
    ensures
        match result {
            Some(message) => download_problem(*head) == Some(message@),
            None => download_problem(*head) is None,
        },
{
    if 400 <= head.status && head.status <= 599 {
        return Some("Fal.ai image download failed".to_owned());
    }
    match &head.content_type {
        None => Some("Fal.ai image response has no valid content type".to_owned()),
        Some(content_type) => {
            if !starts_with(content_type.as_str(), "image/") {
                let mut message = "Fal.ai image response has invalid content type ".to_owned();
                message.append(content_type.as_str());
                return Some(message);
            }
            match head.length {
                Some(length) => if length > MAX_IMAGE_BYTES as u64 {
                    Some("Fal.ai image exceeds the 64 MiB limit".to_owned())
                } else {
                    None
                },
                None => None,
            }
        },
    }
}

/// How far an edit has come.
pub enum Phase {
    /// Nothing was sent yet.
    Starting,
    /// The job was sent.
    Submitting,
    /// The answer to the job is being read.
    ReadingJob,
    /// The job is in the queue, and it is not yet time to ask for it.
    Waiting(Job),
    AskingStatus(Job),
    ReadingStatus(Job),
    AskingResult(Job),
    ReadingResult(Job),
    AskingImage(Job),
    /// The image is being read, of which these bytes are there.
    ReadingImage(Job, Vec<u8>),
    /// The body of a refusal is being read, of which these bytes are there.
    Explaining(String, Vec<u8>),
    Finished,
}

/// What came of what was to be done.
pub enum Event {
    /// The edit is to be stopped.
    Stopped,
    /// It failed with these words.
    Failed(String),
    /// The edit is to begin.
    Begin,
    Head(ResponseHead),
    Job(Job),
    /// The time to wait is over.
    Elapsed,
    Status(String),
    Images(Vec<ResultImage>),
    Chunk(Vec<u8>),
    /// The body has no more bytes.
    End,
}

/// What is to be done.
pub enum Action {
    Submit { path: String, authorization: Option<String>, body: Json },
    ReadJob,
    Wait,
    Fetch { url: String, authorization: Option<String> },
    ReadStatus,
    ReadResult,
    ReadChunk,
    /// Nothing more is to be done but to cancel the job, where there is one.
    Stop { cancel: Option<(String, String)> },
    /// The edited image is complete.
    Complete(Picture),
    Fail(String),
}

/// An edit under way.
pub struct Edit {
    pub model: FalModel,
    pub config: ImageEditConfig,
    pub key: String,
    /// The page that is edited.
    pub page: Picture,
    pub phase: Phase,
}

/// The events that can come of what is being done in a phase.
pub open spec fn fits(phase: Phase, event: Event) -> bool {
    match phase {
        Phase::Starting => event is Begin,
        Phase::Submitting => event is Head || event is Failed || event is Stopped,
        Phase::ReadingJob => event is Job || event is Failed || event is Stopped,
        Phase::Waiting(_) => event is Elapsed || event is Stopped,
        Phase::AskingStatus(_) => event is Head || event is Failed || event is Stopped,
        Phase::ReadingStatus(_) => event is Status || event is Failed || event is Stopped,
        Phase::AskingResult(_) => event is Head || event is Failed || event is Stopped,
        Phase::ReadingResult(_) => event is Images || event is Failed || event is Stopped,
        Phase::AskingImage(_) => event is Head || event is Failed || event is Stopped,
        Phase::ReadingImage(_, _) => event is Chunk || event is End || event is Failed
            || event is Stopped,
        Phase::Explaining(_, _) => event is Chunk || event is End || event is Failed,
        Phase::Finished => false,
    }
}

/// The job that is in the queue in a phase.
pub open spec fn job_of(phase: Phase) -> Option<Job> {
    match phase {
        Phase::Waiting(job) => Some(job),
        Phase::AskingStatus(job) => Some(job),
        Phase::ReadingStatus(job) => Some(job),
        Phase::AskingResult(job) => Some(job),
        Phase::ReadingResult(job) => Some(job),
        Phase::AskingImage(job) => Some(job),
        Phase::ReadingImage(job, _) => Some(job),
        _ => None,
    }
}

/// The header that proves who asks.
pub open spec fn authorization(key: Seq<char>) -> Seq<char> {
    "Key "@ + key
}

/// The edit ends with these words.
pub open spec fn fails(phase: Phase, action: Action, message: Seq<char>) -> bool {
    &&& phase is Finished
    &&& action matches Action::Fail(told)
    &&& told@ == message
}

/// The edit ends and its job, where there is one, is cancelled.
pub open spec fn stops(phase: Phase, action: Action, job: Option<Job>, key: Seq<char>) -> bool {
    &&& phase is Finished
    &&& action matches Action::Stop { cancel }
    &&& match (job, cancel) {
        (Some(job), Some(request)) => request.0@ == job.cancel.text@ && request.1@
            == authorization(key),
        (None, None) => true,
        _ => false,
    }
}

/// A link is to be fetched, with or without proof who asks.
pub open spec fn fetches(action: Action, link: Link, proof_key: Option<Seq<char>>) -> bool {
    &&& action matches Action::Fetch { url, authorization: header }
    &&& url@ == link.text@
    &&& match (header, proof_key) {
        (Some(header), Some(key)) => header@ == authorization(key),
        (None, None) => true,
        _ => false,
    }
}

/// What follows a judgement: the body is read as this action says, or to explain a refusal.
pub open spec fn heeds(
    verdict: Judgement,
    phase: Phase,
    action: Action,
    next: Phase,
    reading: Action,
) -> bool {
    match verdict {
        Judgement::Accepted => phase == next && action == reading,
        Judgement::Refused(message) => fails(phase, action, message),
        Judgement::Unclear(prefix) => {
            &&& phase matches Phase::Explaining(words, body)
            &&& words@ == prefix
            &&& body@.len() == 0
            &&& action is ReadChunk
        },
    }
}

/// What follows a status.
pub open spec fn after_status(status: Seq<char>, job: Job, key: Seq<char>, phase: Phase, action: Action) -> bool {
    if status == "IN_QUEUE"@ || status == "IN_PROGRESS"@ {
        phase == Phase::Waiting(job) && action is Wait
    } else if status == "COMPLETED"@ {
        phase == Phase::AskingResult(job) && fetches(action, job.response, Some(key))
    } else {
        fails(phase, action, "Fal.ai returned unexpected queue status "@ + status)
    }
}

/// Bytes cut to as many as are looked at.
pub open spec fn first_bytes(body: Seq<u8>) -> Seq<u8> {
    if body.len() <= MAX_ERROR_BYTES {
        body
    } else {
        body.take(MAX_ERROR_BYTES as int)
    }
}

/// What follows an image that was read: it is brought to the size of the page.
pub open spec fn after_picture(picture: Picture, page: Picture, phase: Phase, action: Action) -> bool {
    if resizable(picture.width, picture.height, page.width, page.height) {
        &&& phase is Finished
        &&& action matches Action::Complete(image)
        &&& fitted(picture, page.width, page.height, image)
    } else {
        fails(phase, action, "Fal.ai returned an image that is too large to be resized"@)
    }
}

/// What follows the last bytes of an image: it is read and brought to the size of the page.
pub open spec fn after_image(bytes: Seq<u8>, page: Picture, phase: Phase, action: Action) -> bool {
    match decoded(bytes) {
        None => fails(phase, action, "Fal.ai returned an invalid image"@),
        Some((width, height, channels, wide, samples)) => if resizable(
            width,
            height,
            page.width,
            page.height,
        ) {
            &&& phase is Finished
            &&& action matches Action::Complete(image)
            &&& shaped(image, (page.width, page.height, channels, wide))
            &&& width == page.width && height == page.height ==> image.samples.values() == samples
        } else {
            fails(phase, action, "Fal.ai returned an image that is too large to be resized"@)
        },
    }
}

/// What follows an event.
pub open spec fn follows(edit: Edit, event: Event, phase: Phase, action: Action) -> bool {
    let key = edit.key@;
    match (edit.phase, event) {
        (Phase::Explaining(prefix, _), Event::Failed(_)) => fails(
            phase,
            action,
            prefix@ + "response body could not be read"@,
        ),
        (_, Event::Failed(message)) => fails(phase, action, message@),
        (_, Event::Stopped) => stops(phase, action, job_of(edit.phase), key),
        (Phase::Starting, Event::Begin) => if edit.page.width > 0 && edit.page.height > 0 {
            &&& phase is Submitting
            &&& action matches Action::Submit { path, authorization: header, body }
            &&& path@ == edit.model.name()
            &&& header is Some
            &&& header->0@ == authorization(key)
            &&& body@ == request_value(
                edit.model,
                edit.config.prompt@,
                "data:image/png;base64,"@ + base64_text(edit.page.png()),
            )
        } else {
            fails(phase, action, "failed to encode the Fal.ai input image"@)
        },
        (Phase::Submitting, Event::Head(head)) => heeds(
            judgement(head, "Fal.ai queue submission failed"@, key),
            phase,
            action,
            Phase::ReadingJob,
            Action::ReadJob,
        ),
        (Phase::ReadingJob, Event::Job(job)) => if secure(job.status) && secure(job.response)
            && secure(job.cancel) {
            phase == Phase::Waiting(job) && action is Wait
        } else {
            fails(phase, action, "Fal.ai returned a non-HTTPS URL"@)
        },
        (Phase::Waiting(job), Event::Elapsed) => phase == Phase::AskingStatus(job) && fetches(
            action,
            job.status,
            Some(key),
        ),
        (Phase::AskingStatus(job), Event::Head(head)) => heeds(
            judgement(head, "Fal.ai status request failed"@, key),
            phase,
            action,
            Phase::ReadingStatus(job),
            Action::ReadStatus,
        ),
        (Phase::ReadingStatus(job), Event::Status(status)) => after_status(
            status@,
            job,
            key,
            phase,
            action,
        ),
        (Phase::AskingResult(job), Event::Head(head)) => heeds(
            result_judgement(head, key),
            phase,
            action,
            Phase::ReadingResult(job),
            Action::ReadResult,
        ),
        (Phase::ReadingResult(job), Event::Images(images)) => match images_problem(images@) {
            Some(message) => fails(phase, action, message),
            None => phase == Phase::AskingImage(job) && fetches(action, images@[0].url, None),
        },
        (Phase::AskingImage(job), Event::Head(head)) => match download_problem(head) {
            Some(message) => fails(phase, action, message),
            None => {
                &&& phase matches Phase::ReadingImage(kept, bytes)
                &&& kept == job
                &&& bytes@.len() == 0
                &&& action is ReadChunk
            },
        },
        (Phase::ReadingImage(job, bytes), Event::Chunk(chunk)) => if bytes@.len() + chunk@.len()
            <= MAX_IMAGE_BYTES {
            &&& phase matches Phase::ReadingImage(kept, longer)
            &&& kept == job
            &&& longer@ == bytes@ + chunk@
            &&& action is ReadChunk
        } else {
            fails(phase, action, "Fal.ai image exceeds the 64 MiB limit"@)
        },
        (Phase::ReadingImage(_, bytes), Event::End) => after_image(
            bytes@,
            edit.page,
            phase,
            action,
        ),
        (Phase::Explaining(prefix, body), Event::Chunk(chunk)) => {
            let longer = body@ + chunk@;
            if longer.len() >= MAX_ERROR_BYTES {
                fails(phase, action, prefix@ + error_detail(first_bytes(longer), true, key))
            } else {
                &&& phase matches Phase::Explaining(words, kept)
                &&& words@ == prefix@
                &&& kept@ == longer
                &&& action is ReadChunk
            }
        },
        (Phase::Explaining(prefix, body), Event::End) => fails(
            phase,
            action,
            prefix@ + error_detail(body@, false, key),
        ),
        _ => true,
    }
}

fn authorization_header(key: &str) -> (result: String)
    ensures
        result@ == authorization(key@),
{
    let mut result = "Key ".to_owned();
    result.append(key);
    result
}

fn fetch(link: &Link, key: &str) -> (result: Action)
    ensures
        fetches(result, *link, Some(key@)),
{
    Action::Fetch { url: link.text.clone(), authorization: Some(authorization_header(key)) }
}

fn heed(verdict: Verdict, next: Phase, reading: Action) -> (result: (Phase, Action))
    ensures
        heeds(verdict@, result.0, result.1, next, reading),
{
    match verdict {
        Verdict::Accepted => (next, reading),
        Verdict::Refused(message) => (Phase::Finished, Action::Fail(message)),
        Verdict::Unclear(prefix) => (Phase::Explaining(prefix, Vec::new()), Action::ReadChunk),
    }
}

fn stop(job: Option<Job>, key: &str) -> (result: (Phase, Action))
    ensures
        stops(result.0, result.1, job, key@),
{
    match job {
        Some(job) => (
            Phase::Finished,
            Action::Stop { cancel: Some((job.cancel.text.clone(), authorization_header(key))) },
        ),
        None => (Phase::Finished, Action::Stop { cancel: None }),
    }
}

fn fail(message: &str) -> (result: (Phase, Action))
    ensures
        fails(result.0, result.1, message@),
{
    (Phase::Finished, Action::Fail(message.to_owned()))
}

/// Ends an edit with an image that was read.
pub fn complete_with(picture: Picture, page: &Picture) -> (result: (Phase, Action))
    requires
        picture.well_formed(),
    ensures
        after_picture(picture, *page, result.0, result.1),
{
    match fit_picture(picture, page.width, page.height) {
        Some(image) => (Phase::Finished, Action::Complete(image)),
        None => fail("Fal.ai returned an image that is too large to be resized"),
    }
}

fn complete(bytes: &Vec<u8>, page: &Picture) -> (result: (Phase, Action))
    ensures
        after_image(bytes@, *page, result.0, result.1),
{
    match decode_picture(bytes) {
        None => fail("Fal.ai returned an invalid image"),
        Some(picture) => complete_with(picture, page),
    }
}

fn take_job(phase: Phase) -> (result: Option<Job>)
    ensures
        result == job_of(phase),
{
    match phase {
        Phase::Waiting(job) => Some(job),
        Phase::AskingStatus(job) => Some(job),
        Phase::ReadingStatus(job) => Some(job),
        Phase::AskingResult(job) => Some(job),
        Phase::ReadingResult(job) => Some(job),
        Phase::AskingImage(job) => Some(job),
        Phase::ReadingImage(job, _) => Some(job),
        _ => None,
    }
}

fn fail_with_detail(prefix: String, body: &Vec<u8>, truncated: bool, key: &str) -> (result: (
    Phase,
    Action,
))
    ensures
        fails(result.0, result.1, prefix@ + error_detail(body@, truncated, key@)),
{
    let mut message = prefix;
    let detail = safe_error_detail(body, truncated, key);
    message.append(detail.as_str());
    (Phase::Finished, Action::Fail(message))
}

impl Edit {
    /// Starts an edit of a page with a credential.
    pub fn start(
        model: FalModel,
        config: ImageEditConfig,
        page: Picture,
        credential: &str,
    ) -> (result: Result<Edit, KeyError>)
        ensures
            match result {
                Ok(edit) => normalized_key(credential@) == Ok::<Seq<char>, KeyError>(edit.key@)
                    && edit.model == model && edit.config == config && edit.page == page
                    && edit.phase is Starting,
                Err(error) => normalized_key(credential@) == Err::<Seq<char>, KeyError>(error),
            },
    {
        match normalize_key(credential) {
            Ok(key) => Ok(Edit { model, config, key, page, phase: Phase::Starting }),
            Err(error) => Err(error),
        }
    }

    /// Tests whether an event can come of what is being done.
    pub fn expects(&self, event: &Event) -> (result: bool)
        ensures
            result == fits(self.phase, *event),
    {
        match (&self.phase, event) {
            (Phase::Starting, Event::Begin) => true,
            (Phase::Starting, _) => false,
            (Phase::Waiting(_), Event::Elapsed) => true,
            (Phase::Waiting(_), Event::Stopped) => true,
            (Phase::Waiting(_), _) => false,
            (Phase::Explaining(_, _), Event::Chunk(_)) => true,
            (Phase::Explaining(_, _), Event::End) => true,
            (Phase::Explaining(_, _), Event::Failed(_)) => true,
            (Phase::Explaining(_, _), _) => false,
            (Phase::Finished, _) => false,
            (_, Event::Failed(_)) => true,
            (_, Event::Stopped) => true,
            (Phase::Submitting, Event::Head(_)) => true,
            (Phase::ReadingJob, Event::Job(_)) => true,
            (Phase::AskingStatus(_), Event::Head(_)) => true,
            (Phase::ReadingStatus(_), Event::Status(_)) => true,
            (Phase::AskingResult(_), Event::Head(_)) => true,
            (Phase::ReadingResult(_), Event::Images(_)) => true,
            (Phase::AskingImage(_), Event::Head(_)) => true,
            (Phase::ReadingImage(_, _), Event::Chunk(_)) => true,
            (Phase::ReadingImage(_, _), Event::End) => true,
            _ => false,
        }
    }

    /// Decides what is done after an event.
    pub fn next(self, event: Event) -> (result: (Edit, Action))
        requires
            fits(self.phase, event),
            self.page.well_formed(),
        ensures
            result.0.model == self.model,
            result.0.config == self.config,
            result.0.key == self.key,
            result.0.page == self.page,
            follows(self, event, result.0.phase, result.1),
    {
        let Edit { model, config, key, page, phase } = self;
        let (next, action) = Self::step(model, &config, key.as_str(), &page, phase, event);
        (Edit { model, config, key, page, phase: next }, action)
    }

    fn step(
        model: FalModel,
        config: &ImageEditConfig,
        key: &str,
        page: &Picture,
        phase: Phase,
        event: Event,
    ) -> (result: (Phase, Action))
        requires
            fits(phase, event),
            page.well_formed(),
        ensures
            forall|edit: Edit|
                edit.model == model && edit.config == *config && edit.key@ == key@ && edit.page
                    == *page && edit.phase == phase ==> #[trigger] follows(edit, event, result.0, result.1),
    {
        match (phase, event) {
            (Phase::Explaining(prefix, _), Event::Failed(_)) => {
                let mut message = prefix;
                message.append("response body could not be read");
                (Phase::Finished, Action::Fail(message))
            },
            (_, Event::Failed(message)) => (Phase::Finished, Action::Fail(message)),
            (phase, Event::Stopped) => stop(take_job(phase), key),
            (Phase::Starting, Event::Begin) => match encode_png(page) {
                Some(png) => {
                    let mut data_uri = "data:image/png;base64,".to_owned();
                    let encoded = encode(&png);
                    data_uri.append(encoded.as_str());
                    (
                        Phase::Submitting,
                        Action::Submit {
                            path: model.id().to_owned(),
                            authorization: Some(authorization_header(key)),
                            body: request_body(model, config, data_uri.as_str()),
                        },
                    )
                },
                None => fail("failed to encode the Fal.ai input image"),
            },
            (Phase::Submitting, Event::Head(head)) => heed(
                authenticated_response(&head, "Fal.ai queue submission failed", key),
                Phase::ReadingJob,
                Action::ReadJob,
            ),
            (Phase::ReadingJob, Event::Job(job)) => if require_https(&job.status) && require_https(
                &job.response,
            ) && require_https(&job.cancel) {
                (Phase::Waiting(job), Action::Wait)
            } else {
                fail("Fal.ai returned a non-HTTPS URL")
            },
            (Phase::Waiting(job), Event::Elapsed) => {
                let action = fetch(&job.status, key);
                (Phase::AskingStatus(job), action)
            },
            (Phase::AskingStatus(job), Event::Head(head)) => heed(
                authenticated_response(&head, "Fal.ai status request failed", key),
                Phase::ReadingStatus(job),
                Action::ReadStatus,
            ),
            (Phase::ReadingStatus(job), Event::Status(status)) => {
                if same(status.as_str(), "IN_QUEUE") || same(status.as_str(), "IN_PROGRESS") {
                    (Phase::Waiting(job), Action::Wait)
                } else if same(status.as_str(), "COMPLETED") {
                    let action = fetch(&job.response, key);
                    (Phase::AskingResult(job), action)
                } else {
                    let mut message = "Fal.ai returned unexpected queue status ".to_owned();
                    message.append(status.as_str());
                    (Phase::Finished, Action::Fail(message))
                }
            },
            (Phase::AskingResult(job), Event::Head(head)) => heed(
                result_response(&head, key),
                Phase::ReadingResult(job),
                Action::ReadResult,
            ),
            (Phase::ReadingResult(job), Event::Images(images)) => match check_images(&images) {
                Some(message) => (Phase::Finished, Action::Fail(message)),
                None => {
                    let url = images[0].url.text.clone();
                    (Phase::AskingImage(job), Action::Fetch { url, authorization: None })
                },
            },
            (Phase::AskingImage(job), Event::Head(head)) => match check_download(&head) {
                Some(message) => (Phase::Finished, Action::Fail(message)),
                None => (Phase::ReadingImage(job, Vec::new()), Action::ReadChunk),
            },
            (Phase::ReadingImage(job, bytes), Event::Chunk(chunk)) => {
                if bytes.len() <= MAX_IMAGE_BYTES && chunk.len() <= MAX_IMAGE_BYTES - bytes.len() {
                    let mut longer = bytes;
                    append_bytes(&mut longer, &chunk, chunk.len());
                    proof {
                        assert(chunk@.take(chunk@.len() as int) =~= chunk@);
                    }
                    (Phase::ReadingImage(job, longer), Action::ReadChunk)
                } else {
                    fail("Fal.ai image exceeds the 64 MiB limit")
                }
            },
            (Phase::ReadingImage(_, bytes), Event::End) => complete(&bytes, page),
            (Phase::Explaining(prefix, body), Event::Chunk(chunk)) => {
                let mut longer = body;
                let ghost whole = body@ + chunk@;
                if longer.len() < MAX_ERROR_BYTES && chunk.len() < MAX_ERROR_BYTES - longer.len() {
                    append_bytes(&mut longer, &chunk, chunk.len());
                    proof {
                        assert(chunk@.take(chunk@.len() as int) =~= chunk@);
                    }
                    (Phase::Explaining(prefix, longer), Action::ReadChunk)
                } else {
                    if longer.len() < MAX_ERROR_BYTES {
                        let count: usize = MAX_ERROR_BYTES - longer.len();
                        append_bytes(&mut longer, &chunk, count);
                    } else {
                        longer.truncate(MAX_ERROR_BYTES);
                    }
                    proof {
                        assert(longer@ =~= first_bytes(whole));
                    }
                    fail_with_detail(prefix, &longer, true, key)
                }
            },
            (Phase::Explaining(prefix, body), Event::End) => fail_with_detail(
                prefix,
                &body,
                false,
                key,
            ),
            _ => (Phase::Finished, Action::Stop { cancel: None }),
        }
    }
}

/// A job is handed in once: nothing that follows its submission submits one again.
pub proof fn law_job_is_submitted_once(edit: Edit, event: Event, phase: Phase, action: Action)
    requires
        fits(edit.phase, event),
        follows(edit, event, phase, action),
    ensures
        action is Submit ==> edit.phase is Starting,
        !(phase is Starting),
{
}

/// The credential is proved to the links of the queue alone: the image is fetched without it.
pub proof fn law_image_is_fetched_without_key(
    edit: Edit,
    event: Event,
    phase: Phase,
    action: Action,
)
    requires
        fits(edit.phase, event),
        follows(edit, event, phase, action),
        phase is AskingImage,
    ensures
        action matches Action::Fetch { authorization: header, .. } && header is None,
{
}

/// A stopped edit cancels its job if and only if the service has accepted one.
pub proof fn law_stopping_cancels_the_job(edit: Edit, event: Event, phase: Phase, action: Action)
    requires
        fits(edit.phase, event),
        follows(edit, event, phase, action),
    ensures
        action is Stop <==> event is Stopped,
        action matches Action::Stop { cancel } ==> (cancel is Some <==> job_of(edit.phase) is Some),
{
}

/// A completed edit has the size of the page.
pub proof fn law_edited_page_keeps_its_size(edit: Edit, event: Event, phase: Phase, action: Action)
    requires
        fits(edit.phase, event),
        follows(edit, event, phase, action),
    ensures
        action matches Action::Complete(image) ==> image.well_formed() && image.sized(
            edit.page.width,
            edit.page.height,
        ),
{
}

/// What is handed in goes to the model that was chosen, proves who asks by the credential, and holds
/// the instruction of the user and the whole page.
pub proof fn law_submission_holds_what_was_chosen(
    edit: Edit,
    event: Event,
    phase: Phase,
    action: Action,
)
    requires
        edit.phase is Starting,
        event is Begin,
        edit.page.width > 0 && edit.page.height > 0,
        follows(edit, event, phase, action),
    ensures
        action matches Action::Submit { path, authorization: header, body } && {
            &&& edit.model == FalModel::MaiImage2_5Edit ==> path@ == "microsoft/mai-image-2.5/edit"@
            &&& edit.model == FalModel::MaiImage2_5ProEdit ==> path@
                == "microsoft/mai-image-2.5-pro/edit"@
            &&& header matches Some(shown) && shown@ == "Key "@ + edit.key@
            &&& text_of(field(body@, "prompt"@)) matches Some(sent) && occurs_at(
                sent,
                trimmed(edit.config.prompt@),
                0,
            )
            &&& edit.model == FalModel::MaiImage2_5ProEdit ==> text_of(
                field(body@, "image_url"@),
            ) == Some("data:image/png;base64,"@ + base64_text(edit.page.png()))
        },
{
    let uri = "data:image/png;base64,"@ + base64_text(edit.page.png());
    let sent = law_instruction_is_sent_within_its_boundary(edit.model, edit.config.prompt@, uri);
    law_one_image_is_sent_and_one_asked_for(edit.model, edit.config.prompt@, uri);
    let content = trimmed(edit.config.prompt@);
    assert(sent.subrange(0, content.len() as int) =~= sent.take(content.len() as int));
}

/// An answer is taken exactly if its status tells of success. A credential that is refused and a
/// service that is not there are told at once, everything else with what the answer says.
pub proof fn law_answers_are_judged_by_their_status(
    head: ResponseHead,
    context: Seq<char>,
    key: Seq<char>,
)
    ensures
        judgement(head, context, key) is Accepted <==> 200 <= head.status <= 299,
        judgement(head, context, key) is Refused <==> head.status == 401 || head.status == 403
            || head.status == 502 || head.status == 503 || head.status == 504,
        judgement(head, context, key) matches Judgement::Unclear(words) ==> occurs_at(
            words,
            context,
            0,
        ),
        result_judgement(head, key) is Accepted <==> 200 <= head.status <= 299,
        head.status == 422 ==> result_judgement(head, key) is Unclear,
{
    if let Judgement::Unclear(words) = judgement(head, context, key) {
        assert(words.subrange(0, context.len() as int) =~= context);
    }
}

/// A job is only followed where all its links are secure.
pub proof fn law_jobs_are_followed_over_secure_links(
    edit: Edit,
    job: Job,
    phase: Phase,
    action: Action,
)
    requires
        edit.phase is ReadingJob,
        follows(edit, Event::Job(job), phase, action),
    ensures
        phase is Waiting <==> job.status.scheme@ == "https"@ && job.response.scheme@ == "https"@
            && job.cancel.scheme@ == "https"@,
        phase matches Phase::Waiting(kept) ==> kept == job && action is Wait,
        !(phase is Waiting) ==> phase is Finished && action is Fail,
{
}

/// A job that waits or runs is asked for again, one that is done is fetched, and any other ends the
/// edit.
pub proof fn law_jobs_are_asked_for_until_done(
    edit: Edit,
    job: Job,
    status: String,
    phase: Phase,
    action: Action,
)
    requires
        edit.phase == Phase::ReadingStatus(job),
        follows(edit, Event::Status(status), phase, action),
    ensures
        status@ == "IN_QUEUE"@ || status@ == "IN_PROGRESS"@ ==> phase == Phase::Waiting(job)
            && action is Wait,
        status@ == "COMPLETED"@ ==> {
            &&& phase == Phase::AskingResult(job)
            &&& action matches Action::Fetch { url, authorization: header }
            &&& url@ == job.response.text@
            &&& header matches Some(shown) && shown@ == "Key "@ + edit.key@
        },
        status@ != "IN_QUEUE"@ && status@ != "IN_PROGRESS"@ && status@ != "COMPLETED"@ ==> phase is Finished
            && action is Fail,
{
    reveal_strlit("IN_QUEUE");
    reveal_strlit("IN_PROGRESS");
    reveal_strlit("COMPLETED");
    assert("IN_QUEUE"@.len() == 8 && "IN_PROGRESS"@.len() == 11 && "COMPLETED"@.len() == 9);
}

/// A result is used exactly if it is a single image behind a secure link, and not said to be
/// something else.
pub proof fn law_one_secure_image_is_used(images: Seq<ResultImage>)
    ensures
        images_problem(images) is None <==> images.len() == 1 && images[0].url.scheme@ == "https"@
            && (images[0].content_type matches Some(content_type) ==> occurs_at(
            content_type@,
            "image/"@,
            0,
        )),
{
}

/// A download is read exactly if it did not fail, is an image, and is not said to be longer than 64
/// times 1024 times 1024 bytes.
pub proof fn law_downloads_are_bounded(head: ResponseHead)
    ensures
        download_problem(head) is None <==> !(400 <= head.status <= 599) && (
        head.content_type matches Some(content_type) && occurs_at(content_type@, "image/"@, 0)) && (
        head.length matches Some(length) ==> length <= 67108864),
{
}

} // verus!
