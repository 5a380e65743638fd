//! JSON values.

use vstd::prelude::*;

use crate::text::{decimal, from_size, same};

verus! {

/// A JSON value.
pub enum Json {
    Null,
    Bool(bool),
    /// A whole number that fits a signed machine word.
    Integer(i64),
    /// Any other number, as it is written.
    Number(String),
    Text(String),
    List(Vec<Json>),
    /// The fields of an object, in order.
    Object(Vec<(String, Json)>),
}

/// A JSON value as a mathematical value.
#[verifier::ext_equal]
pub enum JsonValue {
    Null,
    Bool(bool),
    Integer(int),
    Number(Seq<char>),
    Text(Seq<char>),
    List(Seq<JsonValue>),
    Object(Seq<(Seq<char>, JsonValue)>),
}

impl View for Json {
    type V = JsonValue;

    open spec fn view(&self) -> JsonValue {
        value_of(*self)
    }
}

/// The mathematical value of a JSON value.
pub open spec fn value_of(json: Json) -> JsonValue
    decreases json,
{
    match json {
        Json::Null => JsonValue::Null,
        Json::Bool(flag) => JsonValue::Bool(flag),
        Json::Integer(number) => JsonValue::Integer(number as int),
        Json::Number(number) => JsonValue::Number(number@),
        Json::Text(text) => JsonValue::Text(text@),
        Json::List(items) => JsonValue::List(list_view(items@)),
        Json::Object(fields) => JsonValue::Object(fields_view(fields@)),
    }
}

/// The values of a list.
pub open spec fn list_view(items: Seq<Json>) -> Seq<JsonValue>
    decreases items,
{
    if items.len() == 0 {
        Seq::empty()
    } else {
        list_view(items.take(items.len() - 1)).push(value_of(items[items.len() - 1]))
    }
}

/// The names and values of an object.
pub open spec fn fields_view(fields: Seq<(String, Json)>) -> Seq<(Seq<char>, JsonValue)>
    decreases fields,
{
    if fields.len() == 0 {
        Seq::empty()
    } else {
        fields_view(fields.take(fields.len() - 1)).push(
            (fields[fields.len() - 1].0@, value_of(fields[fields.len() - 1].1)),
        )
    }
}

pub proof fn lemma_list_view(items: Seq<Json>)
    ensures
        list_view(items).len() == items.len(),
        forall|i: int| 0 <= i < items.len() ==> #[trigger] list_view(items)[i] == items[i]@,
    decreases items.len(),
{
    if items.len() > 0 {
        lemma_list_view(items.take(items.len() - 1));
    }
}

pub proof fn lemma_fields_view(fields: Seq<(String, Json)>)
    ensures
        fields_view(fields).len() == fields.len(),
        forall|i: int|
            0 <= i < fields.len() ==> #[trigger] fields_view(fields)[i] == (
                fields[i].0@,
                fields[i].1@,
            ),
    decreases fields.len(),
{
    if fields.len() > 0 {
        lemma_fields_view(fields.take(fields.len() - 1));
    }
}

/// The first value that an object has under a name.
pub open spec fn first_field(fields: Seq<(Seq<char>, JsonValue)>, name: Seq<char>) -> Option<JsonValue>
    decreases fields.len(),
{
    if fields.len() == 0 {
        None
    } else if fields[0].0 == name {
        Some(fields[0].1)
    } else {
        first_field(fields.drop_first(), name)
    }
}

/// The value that stands under a name; nothing has fields but an object.
pub open spec fn field(value: JsonValue, name: Seq<char>) -> Option<JsonValue> {
    match value {
        JsonValue::Object(fields) => first_field(fields, name),
        _ => None,
    }
}

/// The text of a value that is a text.
pub open spec fn text_of(value: Option<JsonValue>) -> Option<Seq<char>> {
    match value {
        Some(JsonValue::Text(text)) => Some(text),
        _ => None,
    }
}

/// A value that is a text.
pub fn text(content: &str) -> (result: Json)
    ensures
        result@ == JsonValue::Text(content@),
{
    Json::Text(content.to_owned())
}

/// A value that is a length.
pub open spec fn size_value(size: nat) -> JsonValue {
    if size <= i64::MAX {
        JsonValue::Integer(size as int)
    } else {
        JsonValue::Number(decimal(size))
    }
}

/// A value that is a length.
pub fn size(value: usize) -> (result: Json)
    ensures
        result@ == size_value(value as nat),
{
    if value as u64 <= i64::MAX as u64 {
        Json::Integer(value as i64)
    } else {
        Json::Number(from_size(value))
    }
}

/// A list under construction.
pub struct ListBuilder {
    items: Vec<Json>,
}

impl View for ListBuilder {
    type V = Seq<JsonValue>;

    closed spec fn view(&self) -> Seq<JsonValue> {
        list_view(self.items@)
    }
}

impl ListBuilder {
    pub fn new() -> (result: ListBuilder)
        ensures
            result@ == Seq::<JsonValue>::empty(),
    {
        let result = ListBuilder { items: Vec::new() };
        proof {
            assert(result@ =~= Seq::<JsonValue>::empty());
        }
        result
    }

    pub fn push(&mut self, item: Json)
        ensures
            final(self)@ == old(self)@.push(item@),
    {
        self.items.push(item);
        proof {
            assert(self.items@.take(self.items@.len() - 1) =~= old(self).items@);
        }
    }

    pub fn build(self) -> (result: Json)
        ensures
            result@ == JsonValue::List(self@),
    {
        Json::List(self.items)
    }
}

/// An object under construction.
pub struct ObjectBuilder {
    fields: Vec<(String, Json)>,
}

impl View for ObjectBuilder {
    type V = Seq<(Seq<char>, JsonValue)>;

    closed spec fn view(&self) -> Seq<(Seq<char>, JsonValue)> {
        fields_view(self.fields@)
    }
}

impl ObjectBuilder {
    pub fn new() -> (result: ObjectBuilder)
        ensures
            result@ == Seq::<(Seq<char>, JsonValue)>::empty(),
    {
        let result = ObjectBuilder { fields: Vec::new() };
        proof {
            assert(result@ =~= Seq::<(Seq<char>, JsonValue)>::empty());
        }
        result
    }

    /// Adds a field behind those that are there.
    pub fn field(&mut self, name: &str, value: Json)
        ensures
            final(self)@ == old(self)@.push((name@, value@)),
    {
        self.fields.push((name.to_owned(), value));
        proof {
            assert(self.fields@.take(self.fields@.len() - 1) =~= old(self).fields@);
        }
    }

    pub fn build(self) -> (result: Json)
        ensures
            result@ == JsonValue::Object(self@),
    {
        Json::Object(self.fields)
    }
}

impl Json {
    /// The value that stands under a name.
    pub fn get(&self, name: &str) -> (result: Option<&Json>)
        ensures
            match result {
                Some(value) => field(self@, name@) == Some(value@),
                None => field(self@, name@) is None,
            },
    {
        match self {
            Json::Object(fields) => {
                let ghost views = fields_view(fields@);
                proof {
                    lemma_fields_view(fields@);
                    assert(views.skip(0) =~= views);
                }
                let mut index: usize = 0;
                while index < fields.len()
                    invariant
                        index <= fields.len(),
                        views == fields_view(fields@),
                        self@ == JsonValue::Object(views),
                        first_field(views, name@) == first_field(views.skip(index as int), name@),
                    decreases fields.len() - index,
                {
                    proof {
                        lemma_fields_view(fields@);
                        let rest = views.skip(index as int);
                        assert(rest[0] == views[index as int]);
                        assert(rest.drop_first() =~= views.skip(index as int + 1));
                    }
                    if same(fields[index].0.as_str(), name) {
                        return Some(&fields[index].1);
                    }
                    index += 1;
                }
                None
            },
            _ => None,
        }
    }

    /// The text, of a value that is one.
    pub fn as_text(&self) -> (result: Option<&str>)
        ensures
            match result {
                Some(content) => self@ == JsonValue::Text(content@),
                None => !(self@ is Text),
            },
    {
        match self {
            Json::Text(content) => Some(content.as_str()),
            _ => None,
        }
    }

    /// The text that stands under a name, where there is one.
    pub fn text_field(&self, name: &str) -> (result: Option<String>)
        ensures
            match result {
                Some(content) => text_of(field(self@, name@)) == Some(content@),
                None => text_of(field(self@, name@)) is None,
            },
    {
        match self.get(name) {
            Some(value) => match value.as_text() {
                Some(content) => Some(content.to_owned()),
                None => None,
            },
            None => None,
        }
    }
}

/// The JSON text of a value, without blanks between its parts.
pub uninterp spec fn json_text(value: JsonValue) -> Seq<char>;

/// The JSON text of a value in UTF-8, with its parts on lines of their own.
pub uninterp spec fn json_pretty(value: JsonValue) -> Seq<u8>;

/// The value that JSON text in UTF-8 stands for, where it is well formed.
pub uninterp spec fn json_parse(bytes: Seq<u8>) -> Option<JsonValue>;

/// `serde_json::Value`.
#[verifier::external_type_specification]
#[verifier::external_body]
pub struct ExValue(serde_json::Value);

/// The `serde_json::Value` with the same parts. A number that is not whole is read again from
/// its text.
#[verifier::external_body]
fn to_outside(value: &Json) -> (result: serde_json::Value) {
    match value {
        Json::Null => serde_json::Value::Null,
        Json::Bool(flag) => serde_json::Value::Bool(*flag),
        Json::Integer(number) => serde_json::Value::from(*number),
        Json::Number(number) => serde_json::from_str(number).unwrap_or_default(),
        Json::Text(text) => serde_json::Value::String(text.clone()),
        Json::List(items) => serde_json::Value::Array(items.iter().map(to_outside).collect()),
        Json::Object(fields) => serde_json::Value::Object(
            fields.iter().map(|field| (field.0.clone(), to_outside(&field.1))).collect(),
        ),
    }
}

/// The value with the same parts as a `serde_json::Value`.
#[verifier::external_body]
fn from_outside(value: serde_json::Value) -> (result: Json) {
    match value {
        serde_json::Value::Null => Json::Null,
        serde_json::Value::Bool(flag) => Json::Bool(flag),
        serde_json::Value::Number(number) => match number.as_i64() {
            Some(number) => Json::Integer(number),
            None => Json::Number(number.to_string()),
        },
        serde_json::Value::String(text) => Json::Text(text),
        serde_json::Value::Array(items) => Json::List(items.into_iter().map(from_outside).collect()),
        serde_json::Value::Object(fields) => Json::Object(
            fields.into_iter().map(|field| (field.0, from_outside(field.1))).collect(),
        ),
    }
}

/// `serde_json::Value::to_string`: the JSON text of a value, which depends on the value alone.
#[verifier::external_body]
fn serialized(value: &Json) -> (result: String)
    ensures
        result@ == json_text(value@),
{
    to_outside(value).to_string()
}

/// `serde_json::to_vec_pretty` of a `serde_json::Value`, which has names for all its fields and so
/// can always be written: the bytes depend on the value alone.
#[verifier::external_body]
fn serialized_pretty(value: &Json) -> (result: Vec<u8>)
    ensures
        result@ == json_pretty(value@),
{
    serde_json::to_vec_pretty(&to_outside(value)).unwrap_or_default()
}

/// `serde_json::from_slice`: the value that the bytes stand for, or nothing where they are not
/// well-formed JSON; either depends on the bytes alone.
#[verifier::external_body]
fn parsed(bytes: &Vec<u8>) -> (result: Option<Json>)
    ensures
        match result {
            Some(value) => json_parse(bytes@) == Some(value@),
            None => json_parse(bytes@) is None,
        },
{
    serde_json::from_slice(bytes).ok().map(from_outside)
}

/// The JSON text of a value.
pub fn write_json(value: &Json) -> (result: String)
    ensures
        result@ == json_text(value@),
{
    serialized(value)
}

/// The JSON text of a value, for people to read.
pub fn write_pretty_json(value: &Json) -> (result: Vec<u8>)
    ensures
        result@ == json_pretty(value@),
{
    serialized_pretty(value)
}

/// The value that bytes stand for.
pub fn read_json(bytes: &Vec<u8>) -> (result: Option<Json>)
    ensures
        match result {
            Some(value) => json_parse(bytes@) == Some(value@),
            None => json_parse(bytes@) is None,
        },
{
    parsed(bytes)
}

} // verus!
