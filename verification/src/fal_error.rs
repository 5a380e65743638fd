//! What is told of a refusal by the Fal.ai queue.

use vstd::prelude::*;

use crate::encoding::{lossy, lossy_text};
use crate::json::{
    fields_view, json_parse, lemma_fields_view, lemma_list_view, list_view, read_json, Json, JsonValue,
};
use crate::redact::{redact_sensitive, redacted};
use crate::text::{
    first_chars, from_integer, join, join_words, joined, occurs, occurs_at, same, signed_decimal,
    take_chars, texts, words_joined,
};

verus! {

/// The most bytes of an answer that are looked at.
pub const MAX_ERROR_BYTES: usize = 16 * 1024;

/// The most characters of an answer that are told.
pub const MAX_ERROR_DETAIL_CHARS: usize = 2 * 1024;

/// The mark of an answer that refuses the contents.
pub const POLICY_MARK: &'static str = "content_policy_violation";

/// What is told of an answer that refuses the contents.
pub const CONTENT_POLICY_DETAIL: &'static str = "Fal.ai blocked this image or prompt under its content policy. Koharu did not retry the paid job. Review the page and prompt against Fal.ai's policy before trying again";

/// The place of the first field with a name.
pub open spec fn place_of(fields: Seq<(Seq<char>, JsonValue)>, name: Seq<char>) -> Option<int>
    decreases fields.len(),
{
    if fields.len() == 0 {
        None
    } else if place_of(fields.drop_last(), name) is Some {
        place_of(fields.drop_last(), name)
    } else if fields.last().0 == name {
        Some(fields.len() - 1)
    } else {
        None
    }
}

pub proof fn lemma_place_of(fields: Seq<(Seq<char>, JsonValue)>, name: Seq<char>)
    ensures
        match place_of(fields, name) {
            Some(at) => 0 <= at < fields.len() && fields[at].0 == name,
            None => forall|i: int| 0 <= i < fields.len() ==> (#[trigger] fields[i]).0 != name,
        },
    decreases fields.len(),
{
    if fields.len() > 0 {
        lemma_place_of(fields.drop_last(), name);
        if place_of(fields, name) is None {
            assert forall|i: int| 0 <= i < fields.len() implies (#[trigger] fields[i]).0
                != name by {
                if i < fields.len() - 1 {
                    assert(fields.drop_last()[i] == fields[i]);
                }
            }
        }
    }
}

/// The fields of an object that are told, in this order.
pub open spec fn told_fields() -> Seq<Seq<char>> {
    seq!["loc"@, "msg"@, "message"@, "type"@, "code"@]
}

/// A value in words.
pub open spec fn value_words(value: JsonValue) -> Seq<char>
    decreases value, 0nat,
{
    match value {
        JsonValue::Null => "null"@,
        JsonValue::Bool(flag) => if flag {
            "true"@
        } else {
            "false"@
        },
        JsonValue::Integer(number) => signed_decimal(number),
        JsonValue::Number(number) => number,
        JsonValue::Text(text) => text,
        JsonValue::List(items) => joined(list_words(items), "; "@),
        JsonValue::Object(fields) => if refuses_contents(fields) {
            CONTENT_POLICY_DETAIL@
        } else {
            joined(field_words(fields, told_fields()), ", "@)
        },
    }
}

/// An object that says that the contents are refused.
pub open spec fn refuses_contents(fields: Seq<(Seq<char>, JsonValue)>) -> bool {
    match place_of(fields, "type"@) {
        Some(at) => fields[at].1 == JsonValue::Text(POLICY_MARK@),
        None => false,
    }
}

/// The values of a list in words.
pub open spec fn list_words(items: Seq<JsonValue>) -> Seq<Seq<char>>
    decreases items, items.len(),
{
    if items.len() == 0 {
        Seq::empty()
    } else {
        list_words(items.take(items.len() - 1)).push(value_words(items[items.len() - 1]))
    }
}

/// The named fields of an object in words.
pub open spec fn field_words(
    fields: Seq<(Seq<char>, JsonValue)>,
    names: Seq<Seq<char>>,
) -> Seq<Seq<char>>
    decreases fields, names.len(),
{
    if names.len() == 0 {
        Seq::empty()
    } else {
        let before = field_words(fields, names.drop_last());
        match place_of(fields, names.last()) {
            Some(at) => {
                proof {
                    lemma_place_of(fields, names.last());
                }
                before.push(names.last() + "="@ + value_words(fields[at].1))
            },
            None => before,
        }
    }
}

/// The place of the first field with a name.
fn find_field(fields: &Vec<(String, Json)>, name: &str) -> (result: Option<usize>)
    ensures
        match result {
            Some(at) => place_of(fields_view(fields@), name@) == Some(at as int) && at
                < fields.len(),
            None => place_of(fields_view(fields@), name@) is None,
        },
{
    let ghost views = fields_view(fields@);
    let mut index: usize = 0;
    proof {
        lemma_fields_view(fields@);
        assert(views.take(0) =~= Seq::empty());
    }
    while index < fields.len()
        invariant
            index <= fields.len(),
            views == fields_view(fields@),
            place_of(views.take(index as int), name@) is None,
        decreases fields.len() - index,
    {
        proof {
            lemma_fields_view(fields@);
            assert(views.take(index as int + 1).drop_last() =~= views.take(index as int));
        }
        if same(fields[index].0.as_str(), name) {
            proof {
                lemma_place_of_prefix(views, name@, index as int + 1);
            }
            return Some(index);
        }
        index += 1;
    }
    proof {
        lemma_fields_view(fields@);
        assert(views.take(index as int) =~= views);
    }
    None
}

proof fn lemma_place_of_prefix(fields: Seq<(Seq<char>, JsonValue)>, name: Seq<char>, count: int)
    requires
        0 <= count <= fields.len(),
        place_of(fields.take(count), name) is Some,
    ensures
        place_of(fields, name) == place_of(fields.take(count), name),
    decreases fields.len(),
{
    if count < fields.len() {
        assert(fields.drop_last().take(count) =~= fields.take(count));
        lemma_place_of_prefix(fields.drop_last(), name, count);
    } else {
        assert(fields.take(count) =~= fields);
    }
}

/// Tells a value in words.
pub fn safe_json_detail(value: &Json) -> (result: String)
    ensures
        result@ == value_words(value@),
    decreases value,
{
    match value {
        Json::Null => "null".to_owned(),
        Json::Bool(flag) => if *flag {
            "true".to_owned()
        } else {
            "false".to_owned()
        },
        Json::Integer(number) => from_integer(*number),
        Json::Number(number) => number.clone(),
        Json::Text(text) => text.clone(),
        Json::List(items) => {
            let ghost views = list_view(items@);
            let mut words: Vec<String> = Vec::new();
            let mut index: usize = 0;
            proof {
                lemma_list_view(items@);
                assert(views.take(0) =~= Seq::empty());
                assert(texts(words@) =~= Seq::empty());
            }
            while index < items.len()
                invariant
                    index <= items.len(),
                    *value == Json::List(*items),
                    views == list_view(items@),
                    texts(words@) == list_words(views.take(index as int)),
                decreases items.len() - index,
            {
                proof {
                    lemma_list_view(items@);
                }
                assert(decreases_to!(*value => value->List_0));
                assert(decreases_to!(*items => items@));
                assert(decreases_to!(items@ => items@[index as int]));
                let word = safe_json_detail(&items[index]);
                let ghost before = words@;
                words.push(word);
                proof {
                    let longer = views.take(index as int + 1);
                    assert(longer.take(longer.len() - 1) =~= views.take(index as int));
                    assert(texts(words@) =~= texts(before).push(word@));
                }
                index += 1;
            }
            proof {
                lemma_list_view(items@);
                assert(views.take(index as int) =~= views);
            }
            join(&words, "; ")
        },
        Json::Object(fields) => {
            let ghost views = fields_view(fields@);
            proof {
                lemma_fields_view(fields@);
                lemma_place_of(views, "type"@);
            }
            if let Some(at) = find_field(fields, "type") {
                if let Json::Text(text) = &fields[at].1 {
                    if same(text.as_str(), POLICY_MARK) {
                        return CONTENT_POLICY_DETAIL.to_owned();
                    }
                }
            }
            let mut words: Vec<String> = Vec::new();
            let names = ["loc", "msg", "message", "type", "code"];
            let ghost told = told_fields();
            let mut index: usize = 0;
            proof {
                assert(told.take(0) =~= Seq::empty());
                assert(texts(words@) =~= Seq::empty());
                assert(!refuses_contents(views));
            }
            while index < 5
                invariant
                    index <= 5,
                    *value == Json::Object(*fields),
                    views == fields_view(fields@),
                    told == told_fields(),
                    names@.len() == 5,
                    forall|i: int| 0 <= i < 5 ==> (#[trigger] names@[i])@ == told[i],
                    texts(words@) == field_words(views, told.take(index as int)),
                decreases 5 - index,
            {
                let name = names[index];
                proof {
                    lemma_fields_view(fields@);
                    lemma_place_of(views, name@);
                    let longer = told.take(index as int + 1);
                    assert(longer.drop_last() =~= told.take(index as int));
                    assert(longer.last() == name@);
                }
                if let Some(at) = find_field(fields, name) {
                    assert(decreases_to!(*value => value->Object_0));
                    assert(decreases_to!(*fields => fields@));
                    assert(decreases_to!(fields@ => fields@[at as int]));
                    assert(decreases_to!(fields@[at as int] => fields@[at as int].1));
                    let detail = safe_json_detail(&fields[at].1);
                    let mut word = name.to_owned();
                    word.append("=");
                    word.append(detail.as_str());
                    let ghost before = words@;
                    words.push(word);
                    proof {
                        assert(texts(words@) =~= texts(before).push(word@));
                    }
                }
                index += 1;
            }
            proof {
                assert(told.take(5) =~= told);
            }
            join(&words, ", ")
        },
    }
}

/// What is told of an answer, given what its bytes stand for as JSON and as text.
pub open spec fn answer_words(
    body: Seq<u8>,
    truncated: bool,
    parsed: Option<JsonValue>,
    plain: Seq<char>,
) -> Seq<char> {
    match told_value(parsed) {
        Some(value) => value_words(value),
        None => if truncated || (body.len() > 0 && (body[0] == 0x7bu8 || body[0] == 0x5bu8)) {
            "response body could not be safely decoded"@
        } else {
            words_joined(plain)
        },
    }
}

/// The part of an answer that is told.
pub open spec fn told_value(parsed: Option<JsonValue>) -> Option<JsonValue> {
    match parsed {
        Some(value) => match crate::json::field(value, "detail"@) {
            Some(detail) => Some(detail),
            None => match crate::json::field(value, "message"@) {
                Some(message) => Some(message),
                None => crate::json::field(value, "error"@),
            },
        },
        None => None,
    }
}

/// A detail cut to what is told of it.
pub open spec fn cut_detail(detail: Seq<char>, truncated: bool) -> Seq<char> {
    let told = first_chars(detail, MAX_ERROR_DETAIL_CHARS as nat);
    if told.len() == 0 {
        "response body was empty"@
    } else if truncated || told.len() == MAX_ERROR_DETAIL_CHARS {
        told.push('…')
    } else {
        told
    }
}

/// The detail of an answer, given what its bytes stand for as JSON and as text.
pub open spec fn detail_of(
    body: Seq<u8>,
    truncated: bool,
    parsed: Option<JsonValue>,
    plain: Seq<char>,
    key: Seq<char>,
) -> Seq<char> {
    if occurs(body, policy_bytes()) {
        CONTENT_POLICY_DETAIL@
    } else {
        cut_detail(redacted(answer_words(body, truncated, parsed, plain), key), truncated)
    }
}

/// The mark of an answer that refuses the contents, in ASCII.
pub open spec fn policy_bytes() -> Seq<u8> {
    POLICY_MARK@.map_values(|c: char| c as u8)
}

/// The detail of an answer.
pub open spec fn error_detail(body: Seq<u8>, truncated: bool, key: Seq<char>) -> Seq<char> {
    detail_of(body, truncated, json_parse(body), lossy_text(body), key)
}

fn mark_bytes() -> (result: Vec<u8>)
    ensures
        result@ == policy_bytes(),
{
    let letters = crate::text::chars(POLICY_MARK);
    let mut result: Vec<u8> = Vec::new();
    let mut index: usize = 0;
    while index < letters.len()
        invariant
            index <= letters.len(),
            letters@ == POLICY_MARK@,
            result@ == policy_bytes().take(index as int),
        decreases letters.len() - index,
    {
        result.push(letters[index] as u8);
        index += 1;
        proof {
            assert(policy_bytes().take(index as int) =~= policy_bytes().take(index - 1).push(
                policy_bytes()[index - 1],
            ));
        }
    }
    proof {
        assert(policy_bytes().take(index as int) =~= policy_bytes());
    }
    result
}

/// Tests whether some bytes stand in others.
pub fn holds_bytes(body: &Vec<u8>, part: &Vec<u8>) -> (result: bool)
    ensures
        result == occurs(body@, part@),
{
    let mut at: usize = 0;
    while at <= body.len() && part.len() <= body.len() - at
        invariant
            at <= body.len() + 1,
            forall|i: int| 0 <= i < at ==> !#[trigger] occurs_at(body@, part@, i),
        decreases body.len() + 1 - at,
    {
        let mut index: usize = 0;
        while index < part.len() && body[at + index] == part[index]
            invariant
                index <= part.len(),
                at + part.len() <= body.len(),
                forall|i: int| 0 <= i < index ==> body@[at + i] == part@[i],
            decreases part.len() - index,
        {
            index += 1;
        }
        if index == part.len() {
            proof {
                assert(body@.subrange(at as int, at + part.len()) =~= part@);
                assert(occurs_at(body@, part@, at as int));
            }
            return true;
        }
        proof {
            if occurs_at(body@, part@, at as int) {
                assert(body@.subrange(at as int, at + part.len())[index as int]
                    == part@[index as int]);
            }
        }
        at += 1;
    }
    false
}

/// Tells an answer in words, given what its bytes stand for as JSON and as text.
pub fn answer_detail(
    body: &Vec<u8>,
    truncated: bool,
    parsed: Option<Json>,
    plain: &str,
    key: &str,
) -> (result: String)
    ensures
        result@ == detail_of(
            body@,
            truncated,
            match parsed {
                Some(value) => Some(value@),
                None => None,
            },
            plain@,
            key@,
        ),
{
    if holds_bytes(body, &mark_bytes()) {
        return CONTENT_POLICY_DETAIL.to_owned();
    }
    let told: Option<String> = match &parsed {
        Some(value) => match value.get("detail") {
            Some(detail) => Some(safe_json_detail(detail)),
            None => match value.get("message") {
                Some(message) => Some(safe_json_detail(message)),
                None => match value.get("error") {
                    Some(error) => Some(safe_json_detail(error)),
                    None => None,
                },
            },
        },
        None => None,
    };
    let words = match told {
        Some(words) => words,
        None => if truncated || (body.len() > 0 && (body[0] == 0x7b || body[0] == 0x5b)) {
            "response body could not be safely decoded".to_owned()
        } else {
            join_words(plain)
        },
    };
    let shown = redact_sensitive(words.as_str(), key);
    let mut detail = take_chars(shown.as_str(), MAX_ERROR_DETAIL_CHARS);
    let length: usize = detail.as_str().unicode_len();
    if length == 0 {
        "response body was empty".to_owned()
    } else {
        if truncated || length == MAX_ERROR_DETAIL_CHARS {
            detail.push('…');
        }
        detail
    }
}

/// Tells an answer in words.
pub fn safe_error_detail(body: &Vec<u8>, truncated: bool, key: &str) -> (result: String)
    ensures
        result@ == error_detail(body@, truncated, key@),
{
    let parsed = read_json(body);
    let plain = lossy(body);
    answer_detail(body, truncated, parsed, plain.as_str(), key)
}

/// An answer is told by its detail, or else its message, or else its error.
pub proof fn law_details_come_first(value: JsonValue)
    ensures
        crate::json::field(value, "detail"@) is Some ==> told_value(Some(value))
            == crate::json::field(value, "detail"@),
        crate::json::field(value, "detail"@) is None && crate::json::field(
            value,
            "message"@,
        ) is Some ==> told_value(Some(value)) == crate::json::field(value, "message"@),
        crate::json::field(value, "detail"@) is None && crate::json::field(
            value,
            "message"@,
        ) is None ==> told_value(Some(value)) == crate::json::field(value, "error"@),
        told_value(None) is None,
{
}

/// What is told of an answer is never empty, and its own words are cut at 2048 characters, which is
/// marked at the end. Shorter words of a whole answer are told as they are.
pub proof fn law_details_are_cut(detail: Seq<char>, truncated: bool)
    ensures
        detail.len() == 0 ==> cut_detail(detail, truncated) == "response body was empty"@,
        0 < detail.len() < 2048 && !truncated ==> cut_detail(detail, truncated) == detail,
        0 < detail.len() < 2048 && truncated ==> cut_detail(detail, truncated) == detail.push(
            '\u{2026}',
        ),
        detail.len() >= 2048 ==> cut_detail(detail, truncated) == detail.take(2048).push(
            '\u{2026}',
        ),
{
}

} // verus!
