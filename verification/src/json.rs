//! JSON documents, read and printed by the `serde_json` crate.
use serde_json::Value;
use vstd::prelude::*;

verus! {

/// `serde_json::Value`, a JSON document or a part of one.
#[verifier::external_type_specification]
#[verifier::external_body]
pub struct ExValue(serde_json::Value);

/// `serde_json::Error`, why a text is no JSON document.
#[verifier::external_type_specification]
#[verifier::external_body]
pub struct ExError(serde_json::Error);

/// What a JSON document holds.
pub enum Json {
    Null,
    Bool(bool),
    /// A whole number that is not negative.
    Unsigned(u64),
    /// A whole number below zero.
    Negative(i64),
    /// Any other number, by the text that is printed of it.
    Float(Seq<char>),
    Text(Seq<char>),
    List(Seq<Json>),
    Table(Map<Seq<char>, Json>),
}

/// What `value` holds.
pub uninterp spec fn json_of(value: Value) -> Json;

/// The message of `error`, which its `Display` prints.
pub uninterp spec fn error_text(error: serde_json::Error) -> Seq<char>;

/// The document that `serde_json::from_slice` reads from `body`, or the message
/// of its error.
pub uninterp spec fn json_parsed(body: Seq<u8>) -> Result<Json, Seq<char>>;

/// The compact text of `json`, which the `Display` of a value prints.
pub uninterp spec fn json_text(json: Json) -> Seq<char>;

impl Json {
    /// The member of a table with the key `key`.
    pub open spec fn member(self, key: Seq<char>) -> Option<Json> {
        match self {
            Json::Table(members) => if members.contains_key(key) {
                Some(members[key])
            } else {
                None
            },
            _ => None,
        }
    }

    /// The items of the list that is the member of a table with the key `key`.
    pub open spec fn items(self, key: Seq<char>) -> Seq<Json> {
        match self.member(key) {
            Some(Json::List(items)) => items,
            _ => Seq::empty(),
        }
    }

    /// The number, if it is a whole one that is not negative.
    pub open spec fn unsigned(self) -> Option<u64> {
        match self {
            Json::Unsigned(number) => Some(number),
            _ => None,
        }
    }
}

/// The document that was read, or the message of the error.
pub open spec fn outcome_of(document: Result<Value, serde_json::Error>) -> Result<Json, Seq<char>> {
    match document {
        Ok(value) => Ok(json_of(value)),
        Err(error) => Err(error_text(error)),
    }
}

/// `serde_json::from_slice`, which reads one JSON document from `body`.
#[verifier::external_body]
pub(crate) fn parse(body: &[u8]) -> (document: Result<Value, serde_json::Error>)
    ensures
        outcome_of(document) == json_parsed(body@),
{
    serde_json::from_slice(body)
}

/// `serde_json::Error::to_string`, the message of an error.
#[verifier::external_body]
pub(crate) fn explain(error: &serde_json::Error) -> (text: String)
    ensures
        text@ == error_text(*error),
{
    error.to_string()
}

/// `serde_json::Value::get` with a text: the member of a table with that key.
#[verifier::external_body]
pub(crate) fn get<'a>(value: &'a Value, key: &str) -> (member: Option<&'a Value>)
    ensures
        member is Some <==> json_of(*value).member(key@) is Some,
        member matches Some(m) ==> json_of(*value).member(key@) == Some(json_of(*m)),
{
    value.get(key)
}

/// The documents that `values` hold.
pub open spec fn jsons_of(values: Seq<Value>) -> Seq<Json> {
    values.map_values(|value: Value| json_of(value))
}

/// `serde_json::Value::as_array`: the items of a list.
#[verifier::external_body]
pub(crate) fn as_array(value: &Value) -> (items: Option<&Vec<Value>>)
    ensures
        items is Some <==> json_of(*value) is List,
        items matches Some(list) ==> json_of(*value) == Json::List(jsons_of(list@)),
{
    value.as_array()
}

/// `serde_json::Value::is_object`: whether the value is a table.
#[verifier::external_body]
pub(crate) fn is_object(value: &Value) -> (table: bool)
    ensures
        table == (json_of(*value) is Table),
{
    value.is_object()
}

/// `serde_json::Value::as_str`: the text, if the value is one.
#[verifier::external_body]
pub(crate) fn as_str(value: &Value) -> (text: Option<&str>)
    ensures
        text is Some <==> json_of(*value) is Text,
        text matches Some(t) ==> json_of(*value) == Json::Text(t@),
{
    value.as_str()
}

/// `serde_json::Value::as_u64`: the number, if it is a whole one that is not
/// negative.
#[verifier::external_body]
pub(crate) fn as_u64(value: &Value) -> (number: Option<u64>)
    ensures
        number == json_of(*value).unsigned(),
{
    value.as_u64()
}

/// `serde_json::Value::to_string`, the compact text of a value.
#[verifier::external_body]
pub(crate) fn render(value: &Value) -> (text: String)
    ensures
        text@ == json_text(json_of(*value)),
{
    value.to_string()
}

/// `serde_json::Value::String`, the value that is the text `text`.
#[verifier::external_body]
pub(crate) fn text_value(text: String) -> (value: Value)
    ensures
        json_of(value) == Json::Text(text@),
{
    Value::String(text)
}

/// `serde_json::Map::new`, as a value: a table without members.
#[verifier::external_body]
pub(crate) fn empty_table() -> (value: Value)
    ensures
        json_of(value) == Json::Table(Map::empty()),
{
    Value::Object(serde_json::Map::new())
}

/// The indexed assignment of `serde_json::Value` with a text: sets the member
/// of a table with that key, which is added if it is missing.
#[verifier::external_body]
pub(crate) fn set_member(value: &mut Value, key: &str, member: Value)
    requires
        json_of(*old(value)) is Table,
    ensures
        json_of(*final(value)) == with_member(json_of(*old(value)), key@, json_of(member)),
{
    value[key] = member;
}

/// `serde_json::Value::clone`, a value that holds the same.
#[verifier::external_body]
pub(crate) fn copy(value: &Value) -> (copy: Value)
    ensures
        json_of(copy) == json_of(*value),
{
    value.clone()
}

/// The table `json` with the member `member` under the key `key`.
pub open spec fn with_member(json: Json, key: Seq<char>, member: Json) -> Json {
    match json {
        Json::Table(members) => Json::Table(members.insert(key, member)),
        _ => json,
    }
}

/// A table has a member under each of its keys and under no other, and what is
/// no table has none.
pub proof fn law_members_are_found_by_their_key(members: Map<Seq<char>, Json>, json: Json, key: Seq<char>)
    ensures
        members.contains_key(key) ==> Json::Table(members).member(key) == Some(members[key]),
        !members.contains_key(key) ==> Json::Table(members).member(key) is None,
        !(json is Table) ==> json.member(key) is None,
        json.member(key) matches Some(Json::List(items)) ==> json.items(key) == items,
        !(json.member(key) matches Some(member) && member is List) ==> json.items(key) == Seq::<
            Json,
        >::empty(),
        json matches Json::Unsigned(number) ==> json.unsigned() == Some(number),
        !(json is Unsigned) ==> json.unsigned() is None,
{
}

/// Setting a member leaves all others as they were.
pub proof fn law_setting_a_member_leaves_the_others(
    json: Json,
    key: Seq<char>,
    member: Json,
    other: Seq<char>,
)
    requires
        json is Table,
    ensures
        with_member(json, key, member).member(key) == Some(member),
        other != key ==> with_member(json, key, member).member(other) == json.member(other),
{
}

/// Values stand for their documents, each in its place, and a document that was
/// read for itself.
pub proof fn law_values_stand_for_their_documents(
    values: Seq<Value>,
    document: Result<Value, serde_json::Error>,
)
    ensures
        jsons_of(values).len() == values.len(),
        forall|i: int| 0 <= i < values.len() ==> #[trigger] jsons_of(values)[i] == json_of(values[i]),
        document matches Ok(value) ==> outcome_of(document) == Ok::<Json, Seq<char>>(json_of(value)),
        document matches Err(error) ==> outcome_of(document) == Err::<Json, Seq<char>>(
            error_text(error),
        ),
{
}

} // verus!
