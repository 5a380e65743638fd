//! Chapters that are translated by hand: the request that is written to a file, and the answer
//! that is read from one.

use vstd::prelude::*;

use crate::json::{
    field, first_field, list_view, read_json, text, text_of, write_json, Json, JsonValue,
    ObjectBuilder,
};
use crate::json::{json_parse, json_text, lemma_fields_view, lemma_list_view};

verus! {

/// What the file with a request says it is.
pub const FORMAT: &'static str = "koharu.chapter-translation-request";

/// Where a request is sent.
pub const ENDPOINT: &'static str = "https://openrouter.ai/api/v1/chat/completions";

/// What is told where no request can be written.
pub const EXPORT_BUSY: &'static str = "chapter translation export is unavailable while processing is running";

/// What is told where no answer can be read.
pub const IMPORT_BUSY: &'static str = "chapter translation import is unavailable while processing is running";

/// What is told of a file that is no JSON.
pub const NOT_JSON: &'static str = "chapter translation file is not valid JSON";

/// What is told of a file without an answer.
pub const NO_ANSWER: &'static str = "chapter translation JSON must contain translations or an OpenRouter choices response";

/// The content of a message of a request.
pub open spec fn content_of(request: JsonValue, message: int) -> Option<JsonValue> {
    match field(request, "messages"@) {
        Some(JsonValue::List(messages)) => if message < messages.len() {
            field(messages[message], "content"@)
        } else {
            None
        },
        _ => None,
    }
}

/// What keeps a request from being written.
pub open spec fn request_problem(request: JsonValue, model: Option<Seq<char>>) -> Option<Seq<char>> {
    if !(field(request, "messages"@) matches Some(JsonValue::List(_))) {
        Some("OpenRouter request did not contain messages"@)
    } else if content_of(request, 0) is None {
        Some("OpenRouter request did not contain a system prompt"@)
    } else if content_of(request, 1) is None {
        Some("OpenRouter request did not contain a chapter payload"@)
    } else if model is None {
        Some("OpenRouter requires a selected translation model"@)
    } else {
        None
    }
}

/// The fields of the file with a request.
pub open spec fn exported(
    project: Seq<char>,
    revision: Seq<char>,
    provider: Seq<char>,
    model: Seq<char>,
    request: JsonValue,
) -> JsonValue {
    JsonValue::Object(
        seq![
            ("format"@, JsonValue::Text(FORMAT@)),
            ("version"@, JsonValue::Integer(1)),
            ("project_id"@, JsonValue::Text(project)),
            ("revision"@, JsonValue::Text(revision)),
            ("provider"@, JsonValue::Text(provider)),
            ("model"@, JsonValue::Text(model)),
            ("endpoint"@, JsonValue::Text(ENDPOINT@)),
            ("request"@, request),
            ("system_prompt"@, content_of(request, 0)->0),
            ("chapter_payload"@, content_of(request, 1)->0),
        ],
    )
}

/// A copy of a value.
pub fn copy_json(value: &Json) -> (result: Json)
    ensures
        result@ == value@,
    decreases *value,
{
    match value {
        Json::Null => Json::Null,
        Json::Bool(flag) => Json::Bool(*flag),
        Json::Integer(number) => Json::Integer(*number),
        Json::Number(number) => Json::Number(number.clone()),
        Json::Text(content) => Json::Text(content.clone()),
        Json::List(items) => {
            let mut copies: Vec<Json> = Vec::new();
            let mut index: usize = 0;
            while index < items.len()
                invariant
                    index <= items.len(),
                    value->List_0 == *items,
                    value is List,
                    copies.len() == index,
                    forall|i: int| 0 <= i < index ==> (#[trigger] copies@[i])@ == items@[i]@,
                decreases items.len() - index,
            {
                proof {
                    assert(decreases_to!(*value => value->List_0));
                    assert(decreases_to!(*items => items@));
                    assert(decreases_to!(items@ => items@[index as int]));
                }
                copies.push(copy_json(&items[index]));
                index += 1;
            }
            proof {
                lemma_list_view(items@);
                lemma_list_view(copies@);
                assert(list_view(copies@) =~= list_view(items@));
            }
            Json::List(copies)
        },
        Json::Object(fields) => {
            let mut copies: Vec<(String, Json)> = Vec::new();
            let mut index: usize = 0;
            while index < fields.len()
                invariant
                    index <= fields.len(),
                    value->Object_0 == *fields,
                    value is Object,
                    copies.len() == index,
                    forall|i: int|
                        0 <= i < index ==> (#[trigger] copies@[i]).0@ == fields@[i].0@
                            && copies@[i].1@ == fields@[i].1@,
                decreases fields.len() - index,
            {
                proof {
                    assert(decreases_to!(*value => value->Object_0));
                    assert(decreases_to!(*fields => fields@));
                    assert(decreases_to!(fields@ => fields@[index as int]));
                    assert(decreases_to!(fields@[index as int] => fields@[index as int].1));
                }
                let entry = &fields[index];
                copies.push((entry.0.clone(), copy_json(&entry.1)));
                index += 1;
            }
            proof {
                lemma_fields_view(fields@);
                lemma_fields_view(copies@);
                assert(crate::json::fields_view(copies@) =~= crate::json::fields_view(fields@));
            }
            Json::Object(copies)
        },
    }
}

fn message_content(request: &Json, message: usize) -> (result: Option<Json>)
    ensures
        match result {
            Some(content) => content_of(request@, message as int) == Some(content@),
            None => content_of(request@, message as int) is None,
        },
{
    match request.get("messages") {
        Some(Json::List(messages)) => {
            proof {
                lemma_list_view(messages@);
            }
            if message < messages.len() {
                match messages[message].get("content") {
                    Some(content) => Some(copy_json(content)),
                    None => None,
                }
            } else {
                None
            }
        },
        _ => None,
    }
}

/// The file with a request for a chapter. It holds nothing but the request, what it was made for,
/// and where it is sent.
pub fn export_request(
    project: &str,
    revision: &str,
    provider: &str,
    model: Option<&str>,
    request: Json,
) -> (result: Result<Json, &'static str>)
    ensures
        match request_problem(
            request@,
            match model {
                Some(name) => Some(name@),
                None => None,
            },
        ) {
            Some(problem) => result matches Err(message) && message@ == problem,
            None => result matches Ok(file) && model matches Some(name) && file@ == exported(
                project@,
                revision@,
                provider@,
                name@,
                request@,
            ),
        },
{
    match request.get("messages") {
        Some(Json::List(_)) => {},
        _ => return Err("OpenRouter request did not contain messages"),
    }
    let system_prompt = match message_content(&request, 0) {
        Some(content) => content,
        None => return Err("OpenRouter request did not contain a system prompt"),
    };
    let chapter_payload = match message_content(&request, 1) {
        Some(content) => content,
        None => return Err("OpenRouter request did not contain a chapter payload"),
    };
    let model = match model {
        Some(model) => model,
        None => return Err("OpenRouter requires a selected translation model"),
    };
    let mut file = ObjectBuilder::new();
    file.field("format", text(FORMAT));
    file.field("version", Json::Integer(1));
    file.field("project_id", text(project));
    file.field("revision", text(revision));
    file.field("provider", text(provider));
    file.field("model", text(model));
    file.field("endpoint", text(ENDPOINT));
    let ghost asked = request@;
    file.field("request", request);
    file.field("system_prompt", system_prompt);
    file.field("chapter_payload", chapter_payload);
    proof {
        assert(JsonValue::Object(file@) == exported(project@, revision@, provider@, model@, asked))
            by {
            assert(file@ =~= exported(project@, revision@, provider@, model@, asked)->Object_0);
        }
    }
    Ok(file.build())
}

/// The answer in a file: the file itself, or what it holds under a name.
pub open spec fn answer_in(value: JsonValue) -> Option<JsonValue> {
    if field(value, "translations"@) is Some || field(value, "choices"@) is Some {
        Some(value)
    } else {
        field(value, "response"@)
    }
}

/// The answer in a file.
pub fn chapter_response(value: Json) -> (result: Option<Json>)
    ensures
        match result {
            Some(answer) => answer_in(value@) == Some(answer@),
            None => answer_in(value@) is None,
        },
{
    if value.get("translations").is_some() || value.get("choices").is_some() {
        return Some(value);
    }
    match value.get("response") {
        Some(answer) => Some(copy_json(answer)),
        None => None,
    }
}

/// The text of the answer in a file.
pub fn import_response(bytes: &Vec<u8>) -> (result: Result<String, &'static str>)
    ensures
        match json_parse(bytes@) {
            None => result matches Err(message) && message@ == NOT_JSON@,
            Some(value) => match answer_in(value) {
                None => result matches Err(message) && message@ == NO_ANSWER@,
                Some(answer) => result matches Ok(content) && content@ == json_text(answer),
            },
        },
{
    let value = match read_json(bytes) {
        Some(value) => value,
        None => return Err(NOT_JSON),
    };
    match chapter_response(value) {
        Some(answer) => Ok(write_json(&answer)),
        None => Err(NO_ANSWER),
    }
}

/// The text that the first choice of an OpenRouter answer holds. An answer with translations of its
/// own is none.
pub open spec fn first_choice(answer: JsonValue) -> Option<Seq<char>> {
    match (field(answer, "translations"@), field(answer, "choices"@)) {
        (None, Some(JsonValue::List(choices))) => if choices.len() > 0 {
            match field(choices[0], "message"@) {
                Some(message) => match field(message, "content"@) {
                    Some(JsonValue::Text(content)) => Some(content),
                    _ => None,
                },
                None => None,
            }
        } else {
            None
        },
        _ => None,
    }
}

/// Finds the text of the first choice of an OpenRouter answer.
pub fn choice_text(answer: &Json) -> (result: Option<String>)
    ensures
        match result {
            Some(content) => first_choice(answer@) == Some(content@),
            None => first_choice(answer@) is None,
        },
{
    if answer.get("translations").is_some() {
        return None;
    }
    match answer.get("choices") {
        Some(Json::List(choices)) => {
            proof {
                lemma_list_view(choices@);
            }
            if choices.len() == 0 {
                return None;
            }
            match choices[0].get("message") {
                Some(message) => match message.get("content") {
                    Some(Json::Text(content)) => Some(content.clone()),
                    _ => None,
                },
                None => None,
            }
        },
        _ => None,
    }
}

/// The file with a request holds the request itself, what it was made for, where it is sent and the
/// two messages of it that are of interest, and nothing else.
pub proof fn law_exported_file_holds_the_request(
    project: Seq<char>,
    revision: Seq<char>,
    provider: Seq<char>,
    model: Seq<char>,
    request: JsonValue,
)
    requires
        request_problem(request, Some(model)) is None,
    ensures
        ({
            let file = exported(project, revision, provider, model, request);
            &&& file matches JsonValue::Object(fields) && fields.len() == 10
            &&& field(file, "request"@) == Some(request)
            &&& field(file, "project_id"@) == Some(JsonValue::Text(project))
            &&& field(file, "revision"@) == Some(JsonValue::Text(revision))
            &&& field(file, "provider"@) == Some(JsonValue::Text(provider))
            &&& field(file, "model"@) == Some(JsonValue::Text(model))
            &&& field(file, "format"@) == Some(
                JsonValue::Text("koharu.chapter-translation-request"@),
            )
            &&& field(file, "version"@) == Some(JsonValue::Integer(1))
            &&& field(file, "endpoint"@) == Some(
                JsonValue::Text("https://openrouter.ai/api/v1/chat/completions"@),
            )
            &&& field(file, "system_prompt"@) == content_of(request, 0)
            &&& field(file, "chapter_payload"@) == content_of(request, 1)
        }),
{
    reveal_strlit("format");
    reveal_strlit("version");
    reveal_strlit("project_id");
    reveal_strlit("revision");
    reveal_strlit("provider");
    reveal_strlit("model");
    reveal_strlit("endpoint");
    reveal_strlit("request");
    reveal_strlit("system_prompt");
    reveal_strlit("chapter_payload");
    reveal_with_fuel(first_field, 11);
    assert("format"@.len() == 6 && "version"@.len() == 7 && "project_id"@.len() == 10
        && "revision"@.len() == 8 && "provider"@.len() == 8 && "model"@.len() == 5
        && "endpoint"@.len() == 8 && "request"@.len() == 7 && "system_prompt"@.len() == 13
        && "chapter_payload"@.len() == 15);
    assert("version"@[0] == 'v' && "request"@[0] == 'r' && "revision"@[0] == 'r' && "provider"@[0]
        == 'p' && "endpoint"@[0] == 'e');
}

/// A request is written if it has a message for the model and one with the chapter, and a model was
/// chosen. Both messages come from the request, in this order.
pub proof fn law_requests_need_two_messages(
    messages: Seq<JsonValue>,
    request: JsonValue,
    model: Option<Seq<char>>,
)
    requires
        field(request, "messages"@) == Some(JsonValue::List(messages)),
    ensures
        request_problem(request, model) is None <==> messages.len() >= 2 && field(
            messages[0],
            "content"@,
        ) is Some && field(messages[1], "content"@) is Some && model is Some,
        messages.len() >= 2 ==> content_of(request, 0) == field(messages[0], "content"@)
            && content_of(request, 1) == field(messages[1], "content"@),
{
}

/// A file with translations or choices is the answer itself. Any other file holds the answer under
/// its own name, or none.
pub proof fn law_answers_are_found_in_files(file: JsonValue)
    ensures
        field(file, "translations"@) is Some ==> answer_in(file) == Some(file),
        field(file, "choices"@) is Some ==> answer_in(file) == Some(file),
        field(file, "translations"@) is None && field(file, "choices"@) is None ==> answer_in(file)
            == field(file, "response"@),
{
}

/// The text of an answer of OpenRouter is that of the first of its choices, whatever the others
/// hold.
pub proof fn law_first_choice_counts(
    answer: JsonValue,
    choices: Seq<JsonValue>,
    message: JsonValue,
    content: Seq<char>,
)
    requires
        field(answer, "translations"@) is None,
        field(answer, "choices"@) == Some(JsonValue::List(choices)),
        choices.len() > 0,
        field(choices[0], "message"@) == Some(message),
    ensures
        field(message, "content"@) == Some(JsonValue::Text(content)) ==> first_choice(answer)
            == Some(content),
        text_of(field(message, "content"@)) is None ==> first_choice(answer) is None,
{
}

} // verus!
