//! Log lines out of request bodies and files.
use serde_json::Value;
use vstd::prelude::*;
use vstd::utf8::*;

use crate::json::{
    as_array, as_str, as_u64, explain, get, is_object, json_of, json_parsed, json_text, jsons_of,
    parse, render, Json,
};
use crate::text::{
    cut, join_texts, joined, lemma_cut_fits, lemma_utf8_len_add, lines_of, optional_view,
    owned_view, same, split_lines, starts_with, trim, trimmed, truncate, utf8_len, views,
};

verus! {

/// The bytes of a service or a level that a line may hold.
pub const MAX_FIELD: usize = 128;

/// The bytes of a message that a line may hold.
pub const MAX_LINE: usize = 16384;

/// Why a body is refused.
#[derive(Debug)]
pub struct Malformed {
    pub message: String,
}

/// The name of the OTLP severity `number`.
pub open spec fn severity(number: u64) -> Option<Seq<char>> {
    if 1 <= number <= 4 {
        Some("TRACE"@)
    } else if 5 <= number <= 8 {
        Some("DEBUG"@)
    } else if 9 <= number <= 12 {
        Some("INFO"@)
    } else if 13 <= number <= 16 {
        Some("WARN"@)
    } else if 17 <= number <= 20 {
        Some("ERROR"@)
    } else if 21 <= number <= 24 {
        Some("FATAL"@)
    } else {
        None
    }
}

/// The name of the OTLP severity `number`.
pub fn severity_name(number: u64) -> (name: Option<&'static str>)
    ensures
        optional_view(name) == severity(number),
{
    if number == 0 || number > 24 {
        return None;
    }
    let group: u64 = (number - 1) / 4;
    Some(
        if group == 0 {
            "TRACE"
        } else if group == 1 {
            "DEBUG"
        } else if group == 2 {
            "INFO"
        } else if group == 3 {
            "WARN"
        } else if group == 4 {
            "ERROR"
        } else {
            "FATAL"
        },
    )
}

/// The text, or nothing.
pub open spec fn or_empty(text: Option<Seq<char>>) -> Seq<char> {
    match text {
        Some(t) => t,
        None => Seq::empty(),
    }
}

/// The texts that hold something.
pub open spec fn non_empty(parts: Seq<Seq<char>>) -> Seq<Seq<char>>
    decreases parts.len(),
{
    if parts.len() == 0 {
        Seq::empty()
    } else if parts.last().len() > 0 {
        non_empty(parts.drop_last()).push(parts.last())
    } else {
        non_empty(parts.drop_last())
    }
}

/// A line: service, level and message, each cut to its limit, with a space
/// between those that hold something.
pub open spec fn line_text(
    service: Option<Seq<char>>,
    level: Option<Seq<char>>,
    message: Option<Seq<char>>,
) -> Seq<char> {
    joined(
        non_empty(
            seq![
                cut(or_empty(service), MAX_FIELD as nat),
                cut(or_empty(level), MAX_FIELD as nat),
                cut(or_empty(message), MAX_LINE as nat),
            ],
        ),
        " "@,
    )
}

/// Appends to `parts` the beginning of `text` that keeps to `max` bytes, unless
/// it is empty.
fn push_part(parts: &mut Vec<String>, text: Option<&str>, max: usize)
    ensures
        views(final(parts)@) == (if cut(or_empty(optional_view(text)), max as nat).len() > 0 {
            views(old(parts)@).push(cut(or_empty(optional_view(text)), max as nat))
        } else {
            views(old(parts)@)
        }),
{
    match text {
        Some(t) => {
            let kept = truncate(t, max);
            if !kept.is_empty() {
                let ghost before = views(parts@);
                parts.push(kept.to_string());
                assert(views(parts@) == before.push(kept@));
            }
        },
        None => {},
    }
}

/// A line: service, level and message, each cut to its limit, with a space
/// between those that hold something.
pub fn join(service: Option<&str>, level: Option<&str>, message: Option<&str>) -> (line: String)
    ensures
        line@ == line_text(optional_view(service), optional_view(level), optional_view(message)),
{
    let mut parts: Vec<String> = Vec::new();
    push_part(&mut parts, service, MAX_FIELD);
    push_part(&mut parts, level, MAX_FIELD);
    push_part(&mut parts, message, MAX_LINE);
    proof {
        let a = cut(or_empty(optional_view(service)), MAX_FIELD as nat);
        let b = cut(or_empty(optional_view(level)), MAX_FIELD as nat);
        let c = cut(or_empty(optional_view(message)), MAX_LINE as nat);
        let all = seq![a, b, c];
        reveal_with_fuel(non_empty, 4);
        assert(all.drop_last() == seq![a, b]);
        assert(seq![a, b].drop_last() == seq![a]);
        assert(seq![a].drop_last() == Seq::<Seq<char>>::empty());
        assert(views(parts@) == non_empty(all));
    }
    join_texts(&parts, " ")
}

/// The first of the members of `json` with the keys `keys` that is a text.
pub open spec fn first_text(json: Json, keys: Seq<Seq<char>>) -> Option<Seq<char>>
    decreases keys.len(),
{
    if keys.len() == 0 {
        None
    } else {
        match json.member(keys[0]) {
            Some(Json::Text(text)) => Some(text),
            _ => first_text(json, keys.drop_first()),
        }
    }
}

/// The first of the members of `json` with the keys `keys` that is a text,
/// unless that text is empty.
pub open spec fn field_of(json: Json, keys: Seq<Seq<char>>) -> Option<Seq<char>> {
    match first_text(json, keys) {
        Some(text) => if text.len() > 0 {
            Some(text)
        } else {
            None
        },
        None => None,
    }
}

/// The keys that a structured line may have its message under.
pub open spec fn message_keys() -> Seq<Seq<char>> {
    seq!["message"@, "msg"@, "log"@, "body"@, "text"@]
}

/// The keys that a structured line may have its level under.
pub open spec fn level_keys() -> Seq<Seq<char>> {
    seq!["level"@, "severity"@, "severityText"@, "lvl"@]
}

/// The keys that a structured line may have its service under.
pub open spec fn service_keys() -> Seq<Seq<char>> {
    seq!["service"@, "service.name"@, "app"@]
}

/// The views of a list of keys.
pub open spec fn key_views(keys: Seq<&str>) -> Seq<Seq<char>> {
    keys.map_values(|key: &str| key@)
}

/// The first of the members of `value` with the keys `keys` that is a text,
/// unless that text is empty.
fn field<'a>(value: &'a Value, keys: &[&str]) -> (text: Option<&'a str>)
    ensures
        optional_view(text) == field_of(json_of(*value), key_views(keys@)),
{
    let mut i: usize = 0;
    assert(key_views(keys@).skip(0) == key_views(keys@));
    while i < keys.len()
        invariant
            i <= keys@.len(),
            first_text(json_of(*value), key_views(keys@)) == first_text(
                json_of(*value),
                key_views(keys@).skip(i as int),
            ),
        decreases keys@.len() - i,
    {
        proof {
            assert(key_views(keys@).skip(i as int)[0] == keys@[i as int]@);
            assert(key_views(keys@).skip(i as int).drop_first() == key_views(keys@).skip(i + 1));
        }
        if let Some(member) = get(value, keys[i]) {
            if let Some(text) = as_str(member) {
                return if text.is_empty() {
                    None
                } else {
                    Some(text)
                };
            }
        }
        i += 1;
    }
    None
}

/// The line that the JSON table `json` stands for, if it has a message.
pub open spec fn structured_line(json: Json) -> Option<Seq<char>> {
    match field_of(json, message_keys()) {
        Some(message) => Some(
            line_text(
                field_of(json, service_keys()),
                field_of(json, level_keys()),
                Some(message),
            ),
        ),
        None => None,
    }
}

/// The line that `line` stands for: nothing if it is blank, the fields of the
/// JSON table that it is if that has a message, and else itself, trimmed and
/// cut.
pub open spec fn normal_line(line: Seq<char>) -> Option<Seq<char>> {
    let bare = trimmed(line);
    if bare.len() == 0 {
        None
    } else {
        let structured = if bare[0] == '{' {
            match json_parsed(encode_utf8(bare)) {
                Ok(json) => structured_line(json),
                Err(_) => None,
            }
        } else {
            None
        };
        match structured {
            Some(text) => Some(text),
            None => Some(cut(bare, MAX_LINE as nat)),
        }
    }
}

/// The line that the JSON document `value` stands for, if it is a table with a
/// message.
pub fn structured(value: &Value) -> (line: Option<String>)
    ensures
        owned_view(line) == structured_line(json_of(*value)),
{
    let messages: [&str; 5] = ["message", "msg", "log", "body", "text"];
    let services: [&str; 3] = ["service", "service.name", "app"];
    let levels: [&str; 4] = ["level", "severity", "severityText", "lvl"];
    proof {
        assert(key_views(messages@) == message_keys());
        assert(key_views(services@) == service_keys());
        assert(key_views(levels@) == level_keys());
    }
    match field(value, &messages) {
        Some(message) => Some(
            join(field(value, &services), field(value, &levels), Some(message)),
        ),
        None => None,
    }
}

/// The line that `line` stands for, if it is not blank.
pub fn normalize(line: &str) -> (text: Option<String>)
    ensures
        owned_view(text) == normal_line(line@),
{
    let bare = trim(line);
    if bare.is_empty() {
        return None;
    }
    if starts_with(bare, '{') {
        if let Ok(value) = parse(bare.as_bytes()) {
            if let Some(text) = structured(&value) {
                return Some(text);
            }
        }
    }
    Some(truncate(bare, MAX_LINE).to_string())
}

/// The lines that `parts` stand for.
pub open spec fn normal_lines(parts: Seq<Seq<char>>) -> Seq<Seq<char>>
    decreases parts.len(),
{
    if parts.len() == 0 {
        Seq::empty()
    } else {
        match normal_line(parts.last()) {
            Some(line) => normal_lines(parts.drop_last()).push(line),
            None => normal_lines(parts.drop_last()),
        }
    }
}

/// The lines that the lines of `body` stand for.
pub fn lines(body: &str) -> (lines: Vec<String>)
    ensures
        views(lines@) == normal_lines(lines_of(body@)),
{
    let parts = split_lines(body);
    let mut lines: Vec<String> = Vec::new();
    let mut i: usize = 0;
    while i < parts.len()
        invariant
            i <= parts@.len(),
            views(lines@) == normal_lines(views(parts@).take(i as int)),
        decreases parts@.len() - i,
    {
        let ghost before = views(lines@);
        proof {
            let taken = views(parts@).take(i + 1);
            assert(taken.last() == parts@[i as int]@);
            assert(taken.drop_last() == views(parts@).take(i as int));
        }
        if let Some(line) = normalize(parts[i].as_str()) {
            lines.push(line);
            assert(views(lines@) == before.push(line@));
        }
        i += 1;
    }
    assert(views(parts@).take(parts@.len() as int) == views(parts@));
    lines
}

/// The text itself if `json` is one, and else its compact form.
pub open spec fn shown(json: Json) -> Seq<char> {
    match json {
        Json::Text(text) => text,
        _ => json_text(json),
    }
}

/// The keys under which an OTLP value holds its content.
pub open spec fn content_keys() -> Seq<Seq<char>> {
    seq![
        "stringValue"@,
        "intValue"@,
        "doubleValue"@,
        "boolValue"@,
        "kvlistValue"@,
        "arrayValue"@,
        "bytesValue"@,
    ]
}

/// What is shown of the first member of `json` with one of the keys `keys`.
pub open spec fn first_shown(json: Json, keys: Seq<Seq<char>>) -> Seq<char>
    decreases keys.len(),
{
    if keys.len() == 0 {
        Seq::empty()
    } else {
        match json.member(keys[0]) {
            Some(member) => shown(member),
            None => first_shown(json, keys.drop_first()),
        }
    }
}

/// The text of an OTLP value.
pub open spec fn value_text(json: Json) -> Seq<char> {
    if json is Table {
        first_shown(json, content_keys())
    } else {
        shown(json)
    }
}

/// The text itself if `value` is one, and else its compact form.
fn show(value: &Value) -> (text: String)
    ensures
        text@ == shown(json_of(*value)),
{
    match as_str(value) {
        Some(text) => text.to_string(),
        None => render(value),
    }
}

/// The text of an OTLP value.
pub fn any_value(value: &Value) -> (text: String)
    ensures
        text@ == value_text(json_of(*value)),
{
    if !is_object(value) {
        return show(value);
    }
    let keys: [&str; 7] = [
        "stringValue",
        "intValue",
        "doubleValue",
        "boolValue",
        "kvlistValue",
        "arrayValue",
        "bytesValue",
    ];
    let ghost all = key_views(keys@);
    let mut i: usize = 0;
    proof {
        assert(all == content_keys());
        assert(all.skip(0) == all);
    }
    while i < keys.len()
        invariant
            i <= keys@.len(),
            all == key_views(keys@),
            first_shown(json_of(*value), content_keys()) == first_shown(
                json_of(*value),
                all.skip(i as int),
            ),
            json_of(*value) is Table,
        decreases keys@.len() - i,
    {
        proof {
            assert(all.skip(i as int)[0] == keys@[i as int]@);
            assert(all.skip(i as int).drop_first() == all.skip(i + 1));
        }
        if let Some(member) = get(value, keys[i]) {
            return show(member);
        }
        i += 1;
    }
    String::new()
}

/// An attribute of a record or of a resource.
#[derive(Debug)]
pub struct Attribute {
    /// The key, if it is a text.
    pub key: Option<String>,
    /// The text of the value, if there is a value.
    pub value: Option<String>,
}

/// A log record of an OTLP request.
#[derive(Debug)]
pub struct Record {
    pub severity_text: Option<String>,
    pub severity_number: Option<u64>,
    /// The text of the body, if there is a body.
    pub body: Option<String>,
    pub attributes: Vec<Attribute>,
}

/// A resource of an OTLP request, with the records of all its scopes.
#[derive(Debug)]
pub struct Resource {
    pub attributes: Vec<Attribute>,
    pub records: Vec<Record>,
}

/// What an attribute holds.
pub struct AttributeView {
    pub key: Option<Seq<char>>,
    pub value: Option<Seq<char>>,
}

/// What a record holds.
pub struct RecordView {
    pub severity_text: Option<Seq<char>>,
    pub severity_number: Option<u64>,
    pub body: Option<Seq<char>>,
    pub attributes: Seq<AttributeView>,
}

/// What a resource holds.
pub struct ResourceView {
    pub attributes: Seq<AttributeView>,
    pub records: Seq<RecordView>,
}

impl View for Attribute {
    type V = AttributeView;

    open spec fn view(&self) -> AttributeView {
        AttributeView { key: owned_view(self.key), value: owned_view(self.value) }
    }
}

/// What attributes hold.
pub open spec fn attribute_views(attributes: Seq<Attribute>) -> Seq<AttributeView> {
    attributes.map_values(|attribute: Attribute| attribute@)
}

impl View for Record {
    type V = RecordView;

    open spec fn view(&self) -> RecordView {
        RecordView {
            severity_text: owned_view(self.severity_text),
            severity_number: self.severity_number,
            body: owned_view(self.body),
            attributes: attribute_views(self.attributes@),
        }
    }
}

/// What records hold.
pub open spec fn record_views(records: Seq<Record>) -> Seq<RecordView> {
    records.map_values(|record: Record| record@)
}

impl View for Resource {
    type V = ResourceView;

    open spec fn view(&self) -> ResourceView {
        ResourceView {
            attributes: attribute_views(self.attributes@),
            records: record_views(self.records@),
        }
    }
}

/// What resources hold.
pub open spec fn resource_views(resources: Seq<Resource>) -> Seq<ResourceView> {
    resources.map_values(|resource: Resource| resource@)
}

/// The text of the attribute with the key `key`: the value of the first of
/// `attributes` that has the key.
pub open spec fn attribute_of(attributes: Seq<AttributeView>, key: Seq<char>) -> Option<Seq<char>>
    decreases attributes.len(),
{
    if attributes.len() == 0 {
        None
    } else if attributes[0].key == Some(key) {
        attributes[0].value
    } else {
        attribute_of(attributes.drop_first(), key)
    }
}

/// The text of the attribute with the key `key`: the value of the first of
/// `attributes` that has the key.
pub fn attribute<'a>(attributes: &'a [Attribute], key: &str) -> (text: Option<&'a str>)
    ensures
        optional_view(text) == attribute_of(attribute_views(attributes@), key@),
{
    let ghost all = attribute_views(attributes@);
    let mut i: usize = 0;
    assert(all.skip(0) == all);
    while i < attributes.len()
        invariant
            i <= attributes@.len(),
            all == attribute_views(attributes@),
            attribute_of(all, key@) == attribute_of(all.skip(i as int), key@),
        decreases attributes@.len() - i,
    {
        proof {
            assert(all.skip(i as int)[0] == attributes@[i as int]@);
            assert(all.skip(i as int).drop_first() == all.skip(i + 1));
        }
        if let Some(name) = &attributes[i].key {
            if same(name.as_str(), key) {
                return borrowed(&attributes[i].value);
            }
        }
        i += 1;
    }
    None
}

/// The texts of the attributes with the keys `keys` that there are.
pub open spec fn attributes_of(attributes: Seq<AttributeView>, keys: Seq<Seq<char>>) -> Seq<
    Seq<char>,
>
    decreases keys.len(),
{
    if keys.len() == 0 {
        Seq::empty()
    } else {
        match attribute_of(attributes, keys.last()) {
            Some(text) => attributes_of(attributes, keys.drop_last()).push(text),
            None => attributes_of(attributes, keys.drop_last()),
        }
    }
}

/// The attributes that tell of an event without a body.
pub open spec fn event_keys() -> Seq<Seq<char>> {
    seq!["exception.type"@, "exception.message"@, "event.name"@]
}

/// The text of an event that attributes tell of.
pub open spec fn event_of(attributes: Seq<AttributeView>) -> Option<Seq<char>> {
    let parts = attributes_of(attributes, event_keys());
    if parts.len() == 0 {
        None
    } else {
        Some(joined(parts, ": "@))
    }
}

/// The text of an event that attributes tell of.
pub fn event(attributes: &[Attribute]) -> (text: Option<String>)
    ensures
        owned_view(text) == event_of(attribute_views(attributes@)),
{
    let keys: [&str; 3] = ["exception.type", "exception.message", "event.name"];
    let ghost all = key_views(keys@);
    assert(all == event_keys());
    let mut parts: Vec<String> = Vec::new();
    let mut i: usize = 0;
    while i < keys.len()
        invariant
            i <= keys@.len(),
            all == key_views(keys@),
            views(parts@) == attributes_of(attribute_views(attributes@), all.take(i as int)),
        decreases keys@.len() - i,
    {
        let ghost before = views(parts@);
        proof {
            assert(all.take(i + 1).last() == keys@[i as int]@);
            assert(all.take(i + 1).drop_last() == all.take(i as int));
        }
        if let Some(text) = attribute(attributes, keys[i]) {
            parts.push(text.to_string());
            assert(views(parts@) == before.push(text@));
        }
        i += 1;
    }
    assert(all.take(keys@.len() as int) == all);
    assert(views(parts@).len() == parts@.len());
    if parts.len() == 0 {
        None
    } else {
        Some(join_texts(&parts, ": "))
    }
}

/// The body of a record: its text, or the event that its attributes tell of if
/// the text is blank.
pub open spec fn body_of(record: RecordView) -> Option<Seq<char>> {
    match record.body {
        Some(body) => if trimmed(body).len() > 0 {
            Some(body)
        } else {
            event_of(record.attributes)
        },
        None => event_of(record.attributes),
    }
}

/// The level of a record: its severity text, or the name of its number.
pub open spec fn level_of(record: RecordView) -> Option<Seq<char>> {
    match record.severity_text {
        Some(text) => Some(text),
        None => match record.severity_number {
            Some(number) => severity(number),
            None => None,
        },
    }
}

/// The line of a record of `service`, if it has a body.
pub open spec fn record_line(service: Option<Seq<char>>, record: RecordView) -> Option<Seq<char>> {
    match body_of(record) {
        Some(body) => Some(line_text(service, level_of(record), Some(body))),
        None => None,
    }
}

/// A borrowed optional text.
fn borrowed(text: &Option<String>) -> (borrowed: Option<&str>)
    ensures
        optional_view(borrowed) == owned_view(*text),
{
    match text {
        Some(t) => Some(t.as_str()),
        None => None,
    }
}

impl Record {
    /// The level of the record.
    fn level(&self) -> (text: Option<&str>)
        ensures
            optional_view(text) == level_of(self@),
    {
        match &self.severity_text {
            Some(text) => Some(text.as_str()),
            None => match self.severity_number {
                Some(number) => severity_name(number),
                None => None,
            },
        }
    }

    /// The line of the record of `service`, if it has a body.
    pub fn line(&self, service: Option<&str>) -> (line: Option<String>)
        ensures
            owned_view(line) == record_line(optional_view(service), self@),
    {
        if let Some(body) = &self.body {
            if !trim(body.as_str()).is_empty() {
                return Some(join(service, self.level(), Some(body.as_str())));
            }
        }
        match event(self.attributes.as_slice()) {
            Some(text) => Some(join(service, self.level(), Some(text.as_str()))),
            None => None,
        }
    }
}

/// The lines of records of `service`.
pub open spec fn record_lines(service: Option<Seq<char>>, records: Seq<RecordView>) -> Seq<Seq<char>>
    decreases records.len(),
{
    if records.len() == 0 {
        Seq::empty()
    } else {
        match record_line(service, records.last()) {
            Some(line) => record_lines(service, records.drop_last()).push(line),
            None => record_lines(service, records.drop_last()),
        }
    }
}

/// The lines of resources, each of which names the service of its records.
pub open spec fn resource_lines(resources: Seq<ResourceView>) -> Seq<Seq<char>>
    decreases resources.len(),
{
    if resources.len() == 0 {
        Seq::empty()
    } else {
        resource_lines(resources.drop_last()) + record_lines(
            attribute_of(resources.last().attributes, "service.name"@),
            resources.last().records,
        )
    }
}

/// Appends the lines of the records of a resource.
fn push_records(lines: &mut Vec<String>, resource: &Resource)
    ensures
        views(final(lines)@) == views(old(lines)@) + record_lines(
            attribute_of(resource@.attributes, "service.name"@),
            resource@.records,
        ),
{
    let service = attribute(resource.attributes.as_slice(), "service.name");
    let ghost before = views(lines@);
    let ghost name = optional_view(service);
    let ghost all = resource@.records;
    let mut i: usize = 0;
    assert(before + record_lines(name, all.take(0)) == before);
    while i < resource.records.len()
        invariant
            i <= resource.records@.len(),
            all == record_views(resource.records@),
            name == optional_view(service),
            views(lines@) == before + record_lines(name, all.take(i as int)),
        decreases resource.records@.len() - i,
    {
        let record = &resource.records[i];
        let ghost so_far = views(lines@);
        proof {
            assert(all.take(i + 1).last() == record@);
            assert(all.take(i + 1).drop_last() == all.take(i as int));
        }
        if let Some(line) = record.line(service) {
            lines.push(line);
            assert(views(lines@) == so_far.push(line@));
            assert(so_far.push(line@) == before + record_lines(name, all.take(i + 1)));
        }
        i += 1;
    }
    assert(all.take(all.len() as int) == all);
}

/// The lines of the resources of an OTLP request.
pub fn request_lines(resources: &[Resource]) -> (lines: Vec<String>)
    ensures
        views(lines@) == resource_lines(resource_views(resources@)),
{
    let mut lines: Vec<String> = Vec::new();
    let ghost all = resource_views(resources@);
    let mut i: usize = 0;
    while i < resources.len()
        invariant
            i <= resources@.len(),
            all == resource_views(resources@),
            views(lines@) == resource_lines(all.take(i as int)),
        decreases resources@.len() - i,
    {
        proof {
            assert(all.take(i + 1).last() == resources@[i as int]@);
            assert(all.take(i + 1).drop_last() == all.take(i as int));
        }
        push_records(&mut lines, &resources[i]);
        i += 1;
    }
    assert(all.take(all.len() as int) == all);
    lines
}

/// The text, if `json` is one.
pub open spec fn text_in(json: Option<Json>) -> Option<Seq<char>> {
    match json {
        Some(Json::Text(text)) => Some(text),
        _ => None,
    }
}

/// The text of the OTLP value, if there is one.
pub open spec fn value_in(json: Option<Json>) -> Option<Seq<char>> {
    match json {
        Some(value) => Some(value_text(value)),
        None => None,
    }
}

/// The attribute that `json` stands for.
pub open spec fn attribute_in(json: Json) -> AttributeView {
    AttributeView { key: text_in(json.member("key"@)), value: value_in(json.member("value"@)) }
}

/// The attributes that `json` lists.
pub open spec fn attributes_in(json: Json) -> Seq<AttributeView> {
    json.items("attributes"@).map_values(|item: Json| attribute_in(item))
}

/// The record that `json` stands for.
pub open spec fn record_in(json: Json) -> RecordView {
    RecordView {
        severity_text: text_in(json.member("severityText"@)),
        severity_number: match json.member("severityNumber"@) {
            Some(number) => number.unsigned(),
            None => None,
        },
        body: value_in(json.member("body"@)),
        attributes: attributes_in(json),
    }
}

/// The records that `scopes` list, one scope after the other.
pub open spec fn records_in(scopes: Seq<Json>) -> Seq<RecordView>
    decreases scopes.len(),
{
    if scopes.len() == 0 {
        Seq::empty()
    } else {
        records_in(scopes.drop_last()) + scopes.last().items("logRecords"@).map_values(
            |item: Json| record_in(item),
        )
    }
}

/// The resource that `json` stands for.
pub open spec fn resource_in(json: Json) -> ResourceView {
    ResourceView {
        attributes: match json.member("resource"@) {
            Some(inner) => attributes_in(inner),
            None => Seq::empty(),
        },
        records: records_in(json.items("scopeLogs"@)),
    }
}

/// The resources that an OTLP document lists.
pub open spec fn resources_in(document: Json) -> Seq<ResourceView> {
    document.items("resourceLogs"@).map_values(|item: Json| resource_in(item))
}

/// The items of the list that is the member of `value` with the key `key`.
fn items<'a>(value: &'a Value, key: &str) -> (items: Option<&'a Vec<Value>>)
    ensures
        json_of(*value).items(key@) == (match items {
            Some(list) => jsons_of(list@),
            None => Seq::empty(),
        }),
{
    match get(value, key) {
        Some(member) => as_array(member),
        None => None,
    }
}

/// The member of `value` with the key `key`, if it is a text.
fn read_text(value: &Value, key: &str) -> (text: Option<String>)
    ensures
        owned_view(text) == text_in(json_of(*value).member(key@)),
{
    match get(value, key) {
        Some(member) => match as_str(member) {
            Some(text) => Some(text.to_string()),
            None => None,
        },
        None => None,
    }
}

/// The text of the OTLP value that is the member of `value` with the key `key`.
fn read_value(value: &Value, key: &str) -> (text: Option<String>)
    ensures
        owned_view(text) == value_in(json_of(*value).member(key@)),
{
    match get(value, key) {
        Some(member) => Some(any_value(member)),
        None => None,
    }
}

/// The attributes that `value` lists.
fn read_attributes(value: &Value) -> (attributes: Vec<Attribute>)
    ensures
        attribute_views(attributes@) == attributes_in(json_of(*value)),
{
    let mut attributes: Vec<Attribute> = Vec::new();
    let ghost all = attributes_in(json_of(*value));
    if let Some(list) = items(value, "attributes") {
        let mut i: usize = 0;
        while i < list.len()
            invariant
                i <= list@.len() == all.len(),
                forall|j: int|
                    0 <= j < list@.len() ==> #[trigger] all[j] == attribute_in(json_of(list@[j])),
                attribute_views(attributes@) == all.take(i as int),
            decreases list@.len() - i,
        {
            let attribute = Attribute {
                key: read_text(&list[i], "key"),
                value: read_value(&list[i], "value"),
            };
            let ghost before = attribute_views(attributes@);
            attributes.push(attribute);
            proof {
                assert(all[i as int] == attribute@);
                assert(attribute_views(attributes@) == before.push(attribute@));
                assert(before.push(attribute@) == all.take(i + 1));
            }
            i += 1;
        }
        assert(all.take(all.len() as int) == all);
    }
    attributes
}

/// The record that `value` stands for.
fn read_record(value: &Value) -> (record: Record)
    ensures
        record@ == record_in(json_of(*value)),
{
    Record {
        severity_text: read_text(value, "severityText"),
        severity_number: match get(value, "severityNumber") {
            Some(number) => as_u64(number),
            None => None,
        },
        body: read_value(value, "body"),
        attributes: read_attributes(value),
    }
}

/// Appends the records that a scope lists.
fn read_scope(records: &mut Vec<Record>, scope: &Value)
    ensures
        record_views(final(records)@) == record_views(old(records)@) + json_of(*scope).items(
            "logRecords"@,
        ).map_values(|item: Json| record_in(item)),
{
    let ghost before = record_views(records@);
    let ghost all = json_of(*scope).items("logRecords"@).map_values(|item: Json| record_in(item));
    if let Some(list) = items(scope, "logRecords") {
        let mut i: usize = 0;
        assert(before + all.take(0) == before);
        while i < list.len()
            invariant
                i <= list@.len() == all.len(),
                forall|j: int|
                    0 <= j < list@.len() ==> #[trigger] all[j] == record_in(json_of(list@[j])),
                record_views(records@) == before + all.take(i as int),
            decreases list@.len() - i,
        {
            let record = read_record(&list[i]);
            let ghost so_far = record_views(records@);
            records.push(record);
            proof {
                assert(all[i as int] == record@);
                assert(record_views(records@) == so_far.push(record@));
                assert(so_far.push(record@) == before + all.take(i + 1));
            }
            i += 1;
        }
        assert(all.take(all.len() as int) == all);
    } else {
        assert(before + all == before);
    }
}

/// The resource that `value` stands for.
fn read_resource(value: &Value) -> (resource: Resource)
    ensures
        resource@ == resource_in(json_of(*value)),
{
    let attributes = match get(value, "resource") {
        Some(inner) => read_attributes(inner),
        None => Vec::new(),
    };
    let ghost scopes = json_of(*value).items("scopeLogs"@);
    let mut records: Vec<Record> = Vec::new();
    assert(record_views(records@) == Seq::<RecordView>::empty());
    if let Some(list) = items(value, "scopeLogs") {
        let mut i: usize = 0;
        while i < list.len()
            invariant
                i <= list@.len(),
                scopes == jsons_of(list@),
                record_views(records@) == records_in(scopes.take(i as int)),
            decreases list@.len() - i,
        {
            proof {
                assert(scopes.take(i + 1).last() == json_of(list@[i as int]));
                assert(scopes.take(i + 1).drop_last() == scopes.take(i as int));
            }
            read_scope(&mut records, &list[i]);
            i += 1;
        }
        assert(scopes.take(scopes.len() as int) == scopes);
    }
    assert(attribute_views(attributes@) == resource_in(json_of(*value)).attributes);
    Resource { attributes, records }
}

/// The resources that an OTLP document lists.
pub fn read_request(document: &Value) -> (resources: Vec<Resource>)
    ensures
        resource_views(resources@) == resources_in(json_of(*document)),
{
    let mut resources: Vec<Resource> = Vec::new();
    let ghost all = resources_in(json_of(*document));
    if let Some(list) = items(document, "resourceLogs") {
        let mut i: usize = 0;
        while i < list.len()
            invariant
                i <= list@.len() == all.len(),
                forall|j: int|
                    0 <= j < list@.len() ==> #[trigger] all[j] == resource_in(json_of(list@[j])),
                resource_views(resources@) == all.take(i as int),
            decreases list@.len() - i,
        {
            let resource = read_resource(&list[i]);
            let ghost before = resource_views(resources@);
            resources.push(resource);
            proof {
                assert(all[i as int] == resource@);
                assert(resource_views(resources@) == before.push(resource@));
                assert(before.push(resource@) == all.take(i + 1));
            }
            i += 1;
        }
        assert(all.take(all.len() as int) == all);
    }
    resources
}

/// What an OTLP request yields: its lines, or the message that it is refused
/// with.
pub open spec fn otlp_outcome(body: Seq<u8>) -> Result<Seq<Seq<char>>, Seq<char>> {
    match json_parsed(body) {
        Ok(document) => Ok(resource_lines(resources_in(document))),
        Err(message) => Err(message),
    }
}

/// The lines of an OTLP/JSON request.
pub fn otlp(body: &[u8]) -> (lines: Result<Vec<String>, Malformed>)
    ensures
        (match lines {
            Ok(list) => Ok(views(list@)),
            Err(refusal) => Err(refusal.message@),
        }) == otlp_outcome(body@),
{
    match parse(body) {
        Ok(document) => Ok(request_lines(read_request(&document).as_slice())),
        Err(error) => Err(Malformed { message: explain(&error) }),
    }
}

/// The bytes that a line may take.
pub const LINE_LIMIT: usize = MAX_FIELD + 1 + MAX_FIELD + 1 + MAX_LINE;

/// The bytes that `parts` take together.
spec fn total_len(parts: Seq<Seq<char>>) -> nat
    decreases parts.len(),
{
    if parts.len() == 0 {
        0
    } else {
        total_len(parts.drop_last()) + utf8_len(parts.last())
    }
}

/// Joining adds one byte between neighbours.
proof fn lemma_joined_len(parts: Seq<Seq<char>>)
    requires
        parts.len() > 0,
    ensures
        utf8_len(joined(parts, " "@)) == total_len(parts) + parts.len() - 1,
        joined(parts, " "@).len() >= parts.last().len(),
    decreases parts.len(),
{
    reveal_strlit(" ");
    reveal_with_fuel(encode_utf8, 2);
    assert(" "@ == seq![' ']);
    assert(" "@.drop_first() == Seq::<char>::empty());
    assert(utf8_len(" "@) == 1);
    if parts.len() == 1 {
        assert(total_len(parts.drop_last()) == 0);
    } else {
        let head = joined(parts.drop_last(), " "@);
        lemma_joined_len(parts.drop_last());
        lemma_utf8_len_add(head, " "@);
        lemma_utf8_len_add(head + " "@, parts.last());
    }
}

/// A text that takes bytes keeps a character when it is cut to four bytes or
/// more.
proof fn lemma_cut_keeps_something(s: Seq<char>, max: nat)
    requires
        s.len() > 0,
        max >= 4,
    ensures
        cut(s, max).len() > 0,
    decreases s.len(),
{
    if s.len() == 1 {
        reveal_with_fuel(encode_utf8, 2);
        assert(s.drop_first() == Seq::<char>::empty());
        assert(encode_utf8(s).len() <= 4);
    } else if utf8_len(s) > max {
        lemma_cut_keeps_something(s.drop_last(), max);
    }
}

proof fn lemma_line_text(
    service: Option<Seq<char>>,
    level: Option<Seq<char>>,
    message: Option<Seq<char>>,
)
    ensures
        utf8_len(line_text(service, level, message)) <= LINE_LIMIT,
        or_empty(message).len() > 0 ==> line_text(service, level, message).len() > 0,
{
    let a = cut(or_empty(service), MAX_FIELD as nat);
    let b = cut(or_empty(level), MAX_FIELD as nat);
    let c = cut(or_empty(message), MAX_LINE as nat);
    lemma_cut_fits(or_empty(service), MAX_FIELD as nat);
    lemma_cut_fits(or_empty(level), MAX_FIELD as nat);
    lemma_cut_fits(or_empty(message), MAX_LINE as nat);
    let parts = non_empty(seq![a, b, c]);
    reveal_with_fuel(non_empty, 4);
    reveal_with_fuel(total_len, 4);
    assert(seq![a, b, c].drop_last() == seq![a, b]);
    assert(seq![a, b].drop_last() == seq![a]);
    assert(seq![a].drop_last() == Seq::<Seq<char>>::empty());
    assert(non_empty(seq![a]) == (if a.len() > 0 {
        seq![a]
    } else {
        Seq::empty()
    }));
    assert(non_empty(seq![a, b]) == (if b.len() > 0 {
        non_empty(seq![a]).push(b)
    } else {
        non_empty(seq![a])
    }));
    assert(parts == (if c.len() > 0 {
        non_empty(seq![a, b]).push(c)
    } else {
        non_empty(seq![a, b])
    }));
    assert(total_len(non_empty(seq![a])) <= utf8_len(a));
    if b.len() > 0 {
        assert(non_empty(seq![a]).push(b).drop_last() == non_empty(seq![a]));
    }
    assert(total_len(non_empty(seq![a, b])) <= utf8_len(a) + utf8_len(b));
    if c.len() > 0 {
        assert(non_empty(seq![a, b]).push(c).drop_last() == non_empty(seq![a, b]));
    }
    assert(total_len(parts) <= utf8_len(a) + utf8_len(b) + utf8_len(c));
    if parts.len() > 0 {
        lemma_joined_len(parts);
    } else {
        assert(joined(parts, " "@) == Seq::<char>::empty());
    }
    if or_empty(message).len() > 0 {
        lemma_cut_keeps_something(or_empty(message), MAX_LINE as nat);
        assert(parts.last() == c);
    }
}

/// A line that is taken in is never empty, and keeps to a limit however long
/// the line was.
pub proof fn law_normal_lines_are_bounded(line: Seq<char>)
    ensures
        normal_line(line) matches Some(text) ==> text.len() > 0 && utf8_len(text) <= LINE_LIMIT,
        normal_line(line) is None <==> trimmed(line).len() == 0,
{
    let bare = trimmed(line);
    if bare.len() > 0 {
        lemma_cut_fits(bare, MAX_LINE as nat);
        lemma_cut_keeps_something(bare, MAX_LINE as nat);
        if let Ok(json) = json_parsed(encode_utf8(bare)) {
            if let Some(message) = field_of(json, message_keys()) {
                lemma_line_text(
                    field_of(json, service_keys()),
                    field_of(json, level_keys()),
                    Some(message),
                );
            }
        }
    }
}

/// A log record yields a line exactly if it has a body, and the line keeps to
/// the limit.
pub proof fn law_record_lines_are_bounded(service: Option<Seq<char>>, record: RecordView)
    ensures
        record_line(service, record) is Some <==> body_of(record) is Some,
        record_line(service, record) matches Some(text) ==> utf8_len(text) <= LINE_LIMIT,
{
    if let Some(body) = body_of(record) {
        lemma_line_text(service, level_of(record), Some(body));
    }
}

/// OTLP severities come in fours, from one to twenty-four: each four share a
/// name, and other numbers have none.
pub proof fn law_severities_come_in_fours(number: u64)
    ensures
        severity(number) is Some <==> 1 <= number <= 24,
        1 <= number <= 24 ==> severity(number) == Some(
            seq!["TRACE"@, "DEBUG"@, "INFO"@, "WARN"@, "ERROR"@, "FATAL"@][(number - 1) / 4],
        ),
{
}

/// A line is made of service, level and message, in this order, each cut to its
/// limit, with one space between those that hold something. What is missing or
/// empty leaves no trace.
pub proof fn law_lines_hold_service_level_and_message(
    service: Option<Seq<char>>,
    level: Option<Seq<char>>,
    message: Option<Seq<char>>,
)
    ensures
        ({
            let a = match service {
                Some(text) => cut(text, 128),
                None => Seq::empty(),
            };
            let b = match level {
                Some(text) => cut(text, 128),
                None => Seq::empty(),
            };
            let c = match message {
                Some(text) => cut(text, 16384),
                None => Seq::empty(),
            };
            let line = line_text(service, level, message);
            &&& a.len() > 0 && b.len() > 0 && c.len() > 0 ==> line == a + " "@ + b + " "@ + c
            &&& a.len() > 0 && b.len() > 0 && c.len() == 0 ==> line == a + " "@ + b
            &&& a.len() > 0 && b.len() == 0 && c.len() > 0 ==> line == a + " "@ + c
            &&& a.len() > 0 && b.len() == 0 && c.len() == 0 ==> line == a
            &&& a.len() == 0 && b.len() > 0 && c.len() > 0 ==> line == b + " "@ + c
            &&& a.len() == 0 && b.len() > 0 && c.len() == 0 ==> line == b
            &&& a.len() == 0 && b.len() == 0 ==> line == c
        }),
{
    let a = cut(or_empty(service), MAX_FIELD as nat);
    let b = cut(or_empty(level), MAX_FIELD as nat);
    let c = cut(or_empty(message), MAX_LINE as nat);
    assert(cut(Seq::empty(), 128) == Seq::<char>::empty());
    assert(cut(Seq::empty(), 16384) == Seq::<char>::empty());
    reveal_with_fuel(non_empty, 4);
    reveal_with_fuel(joined, 4);
    assert(seq![a, b, c].drop_last() == seq![a, b]);
    assert(seq![a, b].drop_last() == seq![a]);
    assert(seq![a].drop_last() == Seq::<Seq<char>>::empty());
    let none = Seq::<Seq<char>>::empty();
    assert(none.push(a) == seq![a]);
    assert(none.push(b) == seq![b]);
    assert(none.push(c) == seq![c]);
    assert(seq![a].push(b) == seq![a, b]);
    assert(seq![a].push(c) == seq![a, c]);
    assert(seq![b].push(c) == seq![b, c]);
    assert(seq![a, b].push(c) == seq![a, b, c]);
    assert(seq![a, c].drop_last() == seq![a]);
    assert(seq![b, c].drop_last() == seq![b]);
}

/// The field of a table is the text under the first of the keys that has one,
/// unless that text is empty; members that are no texts are passed over.
pub proof fn law_first_text_is_the_field(json: Json, keys: Seq<Seq<char>>, i: int)
    requires
        0 <= i < keys.len(),
        json.member(keys[i]) matches Some(member) && member is Text,
        forall|j: int|
            0 <= j < i ==> !((#[trigger] json.member(keys[j])) matches Some(member) && member is Text),
    ensures
        ({
            let text = (json.member(keys[i])->0)->Text_0;
            &&& text.len() > 0 ==> field_of(json, keys) == Some(text)
            &&& text.len() == 0 ==> field_of(json, keys) is None
        }),
    decreases keys.len(),
{
    if i > 0 {
        let rest = keys.drop_first();
        assert(json.member(keys[0]) is None || !((json.member(keys[0])->0) is Text));
        assert(rest[i - 1] == keys[i]);
        assert forall|j: int| 0 <= j < i - 1 implies !((#[trigger] json.member(
            rest[j],
        )) matches Some(member) && member is Text) by {
            assert(rest[j] == keys[j + 1]);
            assert(!(json.member(keys[j + 1]) matches Some(member) && member is Text));
        }
        law_first_text_is_the_field(json, rest, i - 1);
    }
}

/// A table without a text under any of the keys has no field.
pub proof fn law_no_text_is_no_field(json: Json, keys: Seq<Seq<char>>)
    requires
        forall|j: int|
            0 <= j < keys.len() ==> !((#[trigger] json.member(keys[j])) matches Some(member)
                && member is Text),
    ensures
        field_of(json, keys) is None,
    decreases keys.len(),
{
    if keys.len() > 0 {
        let rest = keys.drop_first();
        assert(json.member(keys[0]) is None || !((json.member(keys[0])->0) is Text));
        assert forall|j: int| 0 <= j < rest.len() implies !((#[trigger] json.member(
            rest[j],
        )) matches Some(member) && member is Text) by {
            assert(rest[j] == keys[j + 1]);
            assert(!(json.member(keys[j + 1]) matches Some(member) && member is Text));
        }
        law_no_text_is_no_field(json, rest);
    }
}

/// A structured line needs a message, and holds the service, the level and the
/// message that the table has under the first of their keys.
pub proof fn law_structured_lines_need_a_message(json: Json)
    ensures
        ({
            let message = field_of(json, seq!["message"@, "msg"@, "log"@, "body"@, "text"@]);
            let level = field_of(json, seq!["level"@, "severity"@, "severityText"@, "lvl"@]);
            let service = field_of(json, seq!["service"@, "service.name"@, "app"@]);
            &&& structured_line(json) is Some <==> message is Some
            &&& message is Some ==> structured_line(json) == Some(
                line_text(service, level, message),
            )
        }),
{
}

/// A line that is no table with a message is taken as it is, trimmed and cut; a
/// line that is one, as what the table says; a blank line not at all.
pub proof fn law_lines_are_structured_or_plain(line: Seq<char>)
    ensures
        ({
            let bare = trimmed(line);
            let plain = Some(cut(bare, 16384));
            &&& bare.len() == 0 <==> normal_line(line) is None
            &&& bare.len() > 0 && bare[0] != '{' ==> normal_line(line) == plain
            &&& bare.len() > 0 && bare[0] == '{' ==> (match json_parsed(encode_utf8(bare)) {
                Ok(json) => normal_line(line) == (if structured_line(json) is Some {
                    structured_line(json)
                } else {
                    plain
                }),
                Err(_) => normal_line(line) == plain,
            })
        }),
{
}

/// Each line is taken by itself: the lines of two lists are those of the one and
/// then those of the other, and one line yields what it stands for, if anything.
pub proof fn law_each_line_is_taken_by_itself(a: Seq<Seq<char>>, b: Seq<Seq<char>>)
    ensures
        a.len() == 0 ==> normal_lines(a) == Seq::<Seq<char>>::empty(),
        a.len() == 1 ==> normal_lines(a) == (match normal_line(a[0]) {
            Some(line) => seq![line],
            None => Seq::empty(),
        }),
        normal_lines(a + b) == normal_lines(a) + normal_lines(b),
    decreases b.len(),
{
    if a.len() == 1 {
        assert(a.drop_last() == Seq::<Seq<char>>::empty());
        assert(normal_lines(a.drop_last()) == Seq::<Seq<char>>::empty());
        if let Some(line) = normal_line(a[0]) {
            assert(Seq::<Seq<char>>::empty().push(line) == seq![line]);
        }
    }
    if b.len() == 0 {
        assert(a + b == a);
        assert(normal_lines(a) + normal_lines(b) == normal_lines(a));
    } else {
        assert((a + b).drop_last() == a + b.drop_last());
        assert((a + b).last() == b.last());
        law_each_line_is_taken_by_itself(a, b.drop_last());
        let (x, y) = (normal_lines(a), normal_lines(b.drop_last()));
        if let Some(line) = normal_line(b.last()) {
            assert((x + y).push(line) == x + y.push(line));
        }
    }
}

/// An OTLP value that is no table is shown as its text, or in its compact form;
/// a table by the first kind of content that it has, and as nothing without any.
pub proof fn law_values_show_their_content(json: Json, i: int)
    ensures
        json matches Json::Text(text) ==> value_text(json) == text,
        !(json is Table) && !(json is Text) ==> value_text(json) == json_text(json),
        ({
            let keys = seq![
                "stringValue"@,
                "intValue"@,
                "doubleValue"@,
                "boolValue"@,
                "kvlistValue"@,
                "arrayValue"@,
                "bytesValue"@,
            ];
            &&& json is Table && 0 <= i < 7 && json.member(keys[i]) is Some && (forall|j: int|
                0 <= j < i ==> (#[trigger] json.member(keys[j])) is None) ==> value_text(json) == (
            match json.member(keys[i])->0 {
                Json::Text(text) => text,
                other => json_text(other),
            })
            &&& json is Table && (forall|j: int|
                0 <= j < 7 ==> (#[trigger] json.member(keys[j])) is None) ==> value_text(json)
                == Seq::<char>::empty()
        }),
{
    let keys = content_keys();
    if json is Table {
        if 0 <= i < 7 && json.member(keys[i]) is Some && (forall|j: int|
            0 <= j < i ==> (#[trigger] json.member(keys[j])) is None) {
            lemma_first_shown(json, keys, i);
        }
        if forall|j: int| 0 <= j < 7 ==> (#[trigger] json.member(keys[j])) is None {
            lemma_none_shown(json, keys);
        }
    }
}

proof fn lemma_first_shown(json: Json, keys: Seq<Seq<char>>, i: int)
    requires
        0 <= i < keys.len(),
        json.member(keys[i]) is Some,
        forall|j: int| 0 <= j < i ==> (#[trigger] json.member(keys[j])) is None,
    ensures
        first_shown(json, keys) == shown(json.member(keys[i])->0),
    decreases keys.len(),
{
    if i > 0 {
        let rest = keys.drop_first();
        assert(json.member(keys[0]) is None);
        assert(rest[i - 1] == keys[i]);
        assert forall|j: int| 0 <= j < i - 1 implies (#[trigger] json.member(rest[j])) is None by {
            assert(json.member(keys[j + 1]) is None);
        }
        lemma_first_shown(json, rest, i - 1);
    }
}

proof fn lemma_none_shown(json: Json, keys: Seq<Seq<char>>)
    requires
        forall|j: int| 0 <= j < keys.len() ==> (#[trigger] json.member(keys[j])) is None,
    ensures
        first_shown(json, keys) == Seq::<char>::empty(),
    decreases keys.len(),
{
    if keys.len() > 0 {
        let rest = keys.drop_first();
        assert(json.member(keys[0]) is None);
        assert forall|j: int| 0 <= j < rest.len() implies (#[trigger] json.member(
            rest[j],
        )) is None by {
            assert(json.member(keys[j + 1]) is None);
        }
        lemma_none_shown(json, rest);
    }
}

/// The first attribute with a key counts, wherever it stands, and one without
/// the key not at all.
pub proof fn law_first_attribute_with_the_key_counts(
    attributes: Seq<AttributeView>,
    key: Seq<char>,
    i: int,
)
    ensures
        0 <= i < attributes.len() && attributes[i].key == Some(key) && (forall|j: int|
            0 <= j < i ==> (#[trigger] attributes[j]).key != Some(key)) ==> attribute_of(
            attributes,
            key,
        ) == attributes[i].value,
        (forall|j: int| 0 <= j < attributes.len() ==> (#[trigger] attributes[j]).key != Some(key))
            ==> attribute_of(attributes, key) is None,
    decreases attributes.len(),
{
    if attributes.len() > 0 && attributes[0].key != Some(key) {
        let rest = attributes.drop_first();
        law_first_attribute_with_the_key_counts(rest, key, i - 1);
        if forall|j: int| 0 <= j < attributes.len() ==> (#[trigger] attributes[j]).key != Some(key) {
            assert forall|j: int| 0 <= j < rest.len() implies (#[trigger] rest[j]).key != Some(
                key,
            ) by {
                assert(attributes[j + 1].key != Some(key));
            }
        }
        if 0 < i < attributes.len() && attributes[i].key == Some(key) && (forall|j: int|
            0 <= j < i ==> (#[trigger] attributes[j]).key != Some(key)) {
            assert(rest[i - 1] == attributes[i]);
            assert forall|j: int| 0 <= j < i - 1 implies (#[trigger] rest[j]).key != Some(key) by {
                assert(attributes[j + 1].key != Some(key));
            }
        }
    }
}

/// An event is told of by the type and the message of an exception and by its
/// name, in this order, as far as there are any.
pub proof fn law_events_are_told_by_their_attributes(attributes: Seq<AttributeView>)
    ensures
        ({
            let a = attribute_of(attributes, "exception.type"@);
            let b = attribute_of(attributes, "exception.message"@);
            let c = attribute_of(attributes, "event.name"@);
            event_of(attributes) == (match (a, b, c) {
                (Some(x), Some(y), Some(z)) => Some(x + ": "@ + y + ": "@ + z),
                (Some(x), Some(y), None) => Some(x + ": "@ + y),
                (Some(x), None, Some(z)) => Some(x + ": "@ + z),
                (None, Some(y), Some(z)) => Some(y + ": "@ + z),
                (Some(x), None, None) => Some(x),
                (None, Some(y), None) => Some(y),
                (None, None, Some(z)) => Some(z),
                (None, None, None) => None,
            })
        }),
{
    let keys = event_keys();
    let none = Seq::<Seq<char>>::empty();
    let (x, y, z) = (keys[0], keys[1], keys[2]);
    reveal_with_fuel(attributes_of, 4);
    reveal_with_fuel(joined, 4);
    assert(keys.drop_last() == seq![x, y]);
    assert(seq![x, y].drop_last() == seq![x]);
    assert(seq![x].drop_last() == none);
    let a = or_empty(attribute_of(attributes, x));
    let b = or_empty(attribute_of(attributes, y));
    let c = or_empty(attribute_of(attributes, z));
    assert(none.push(a) == seq![a]);
    assert(none.push(b) == seq![b]);
    assert(none.push(c) == seq![c]);
    assert(seq![a].push(b) == seq![a, b]);
    assert(seq![a].push(c) == seq![a, c]);
    assert(seq![b].push(c) == seq![b, c]);
    assert(seq![a, b].push(c) == seq![a, b, c]);
    assert(seq![a, b].drop_last() == seq![a]);
    assert(seq![a, c].drop_last() == seq![a]);
    assert(seq![b, c].drop_last() == seq![b]);
    assert(seq![a, b, c].drop_last() == seq![a, b]);
}

/// A record says what its body says, unless that is blank: then what its
/// attributes tell of. Its level is its severity text, or else the name of its
/// severity number. Without either body or event there is no line.
pub proof fn law_records_say_their_body_or_event(service: Option<Seq<char>>, record: RecordView)
    ensures
        ({
            let level = match record.severity_text {
                Some(text) => Some(text),
                None => match record.severity_number {
                    Some(number) => severity(number),
                    None => None,
                },
            };
            let spoken = record.body matches Some(body) && trimmed(body).len() > 0;
            &&& spoken ==> record_line(service, record) == Some(
                line_text(service, level, record.body),
            )
            &&& !spoken && event_of(record.attributes) is Some ==> record_line(service, record)
                == Some(line_text(service, level, event_of(record.attributes)))
            &&& !spoken && event_of(record.attributes) is None ==> record_line(service, record)
                is None
        }),
{
}

/// Each record is taken by itself, in its place: the lines of two lists of
/// records are those of the one and then those of the other.
pub proof fn law_each_record_is_taken_by_itself(
    service: Option<Seq<char>>,
    a: Seq<RecordView>,
    b: Seq<RecordView>,
)
    ensures
        a.len() == 0 ==> record_lines(service, a) == Seq::<Seq<char>>::empty(),
        a.len() == 1 ==> record_lines(service, a) == (match record_line(service, a[0]) {
            Some(line) => seq![line],
            None => Seq::empty(),
        }),
        record_lines(service, a + b) == record_lines(service, a) + record_lines(service, b),
    decreases b.len(),
{
    if a.len() == 1 {
        assert(a.drop_last() == Seq::<RecordView>::empty());
        assert(record_lines(service, a.drop_last()) == Seq::<Seq<char>>::empty());
        if let Some(line) = record_line(service, a[0]) {
            assert(Seq::<Seq<char>>::empty().push(line) == seq![line]);
        }
    }
    if b.len() == 0 {
        assert(a + b == a);
        assert(record_lines(service, a) + record_lines(service, b) == record_lines(service, a));
    } else {
        assert((a + b).drop_last() == a + b.drop_last());
        assert((a + b).last() == b.last());
        law_each_record_is_taken_by_itself(service, a, b.drop_last());
        let (x, y) = (record_lines(service, a), record_lines(service, b.drop_last()));
        if let Some(line) = record_line(service, b.last()) {
            assert((x + y).push(line) == x + y.push(line));
        }
    }
}

/// Each resource is taken by itself, in its place, and names the service of all
/// its records by its attribute `service.name`.
pub proof fn law_each_resource_is_taken_by_itself(a: Seq<ResourceView>, b: Seq<ResourceView>)
    ensures
        a.len() == 0 ==> resource_lines(a) == Seq::<Seq<char>>::empty(),
        a.len() == 1 ==> resource_lines(a) == record_lines(
            attribute_of(a[0].attributes, "service.name"@),
            a[0].records,
        ),
        resource_lines(a + b) == resource_lines(a) + resource_lines(b),
    decreases b.len(),
{
    if a.len() == 1 {
        assert(a.drop_last() == Seq::<ResourceView>::empty());
        assert(resource_lines(a.drop_last()) == Seq::<Seq<char>>::empty());
        let own = record_lines(attribute_of(a[0].attributes, "service.name"@), a[0].records);
        assert(Seq::<Seq<char>>::empty() + own == own);
    }
    if b.len() == 0 {
        assert(a + b == a);
        assert(resource_lines(a) + resource_lines(b) == resource_lines(a));
    } else {
        assert((a + b).drop_last() == a + b.drop_last());
        assert((a + b).last() == b.last());
        law_each_resource_is_taken_by_itself(a, b.drop_last());
        let (x, y) = (resource_lines(a), resource_lines(b.drop_last()));
        let own = record_lines(
            attribute_of(b.last().attributes, "service.name"@),
            b.last().records,
        );
        assert(x + y + own == x + (y + own));
    }
}

/// The number of records that the first `n` of `scopes` list.
pub open spec fn records_before(scopes: Seq<Json>, n: int) -> int
    decreases n,
{
    if n <= 0 {
        0
    } else {
        records_before(scopes, n - 1) + scopes[n - 1].items("logRecords"@).len()
    }
}

/// The records of a resource are those of all its scopes: each item of each
/// scope has its record, after those of the scopes before it and of the items
/// before it, and there are no others.
pub proof fn law_records_of_all_scopes_are_read(scopes: Seq<Json>)
    ensures
        records_in(scopes).len() == records_before(scopes, scopes.len() as int),
        forall|s: int, r: int|
            #![trigger scopes[s].items("logRecords"@)[r]]
            0 <= s < scopes.len() && 0 <= r < scopes[s].items("logRecords"@).len() ==> 0
                <= records_before(scopes, s) + r < records_in(scopes).len() && records_in(
                scopes,
            )[records_before(scopes, s) + r] == record_in(scopes[s].items("logRecords"@)[r]),
    decreases scopes.len(),
{
    if scopes.len() > 0 {
        let rest = scopes.drop_last();
        let n = rest.len() as int;
        law_records_of_all_scopes_are_read(rest);
        lemma_records_before(rest, scopes, n);
        let own = scopes.last().items("logRecords"@).map_values(|item: Json| record_in(item));
        assert(records_in(scopes) == records_in(rest) + own);
        assert forall|s: int, r: int|
            #![trigger scopes[s].items("logRecords"@)[r]]
            0 <= s < scopes.len() && 0 <= r < scopes[s].items("logRecords"@).len() implies 0
            <= records_before(scopes, s) + r < records_in(scopes).len() && records_in(
            scopes,
        )[records_before(scopes, s) + r] == record_in(scopes[s].items("logRecords"@)[r]) by {
            if s < n {
                assert(rest[s] == scopes[s]);
                assert(rest[s].items("logRecords"@)[r] == scopes[s].items("logRecords"@)[r]);
                lemma_records_before(rest, scopes, s);
            } else {
                assert(own[r] == record_in(scopes[s].items("logRecords"@)[r]));
            }
        }
    }
}

proof fn lemma_records_before(rest: Seq<Json>, scopes: Seq<Json>, n: int)
    requires
        0 <= n <= rest.len() <= scopes.len(),
        rest == scopes.take(rest.len() as int),
    ensures
        records_before(rest, n) == records_before(scopes, n),
    decreases n,
{
    if n > 0 {
        assert(rest[n - 1] == scopes[n - 1]);
        lemma_records_before(rest, scopes, n - 1);
    }
}

/// What a document says of a record, an attribute and a resource is read from
/// the members that OTLP has for it.
pub proof fn law_documents_are_read_by_member(json: Json)
    ensures
        record_in(json).severity_text == (match json.member("severityText"@) {
            Some(Json::Text(text)) => Some(text),
            _ => None,
        }),
        record_in(json).severity_number == (match json.member("severityNumber"@) {
            Some(Json::Unsigned(number)) => Some(number),
            _ => None,
        }),
        record_in(json).body == (match json.member("body"@) {
            Some(value) => Some(value_text(value)),
            None => None,
        }),
        record_in(json).attributes == attributes_in(json),
        attribute_in(json).key == (match json.member("key"@) {
            Some(Json::Text(text)) => Some(text),
            _ => None,
        }),
        attribute_in(json).value == (match json.member("value"@) {
            Some(value) => Some(value_text(value)),
            None => None,
        }),
        json.member("resource"@) matches Some(inner) ==> resource_in(json).attributes
            == attributes_in(inner),
        json.member("resource"@) is None ==> resource_in(json).attributes == Seq::<
            AttributeView,
        >::empty(),
        json.member("scopeLogs"@) matches Some(Json::List(scopes)) ==> resource_in(json).records
            == records_in(scopes),
        !(json.member("scopeLogs"@) matches Some(scopes) && scopes is List) ==> resource_in(
            json,
        ).records == Seq::<RecordView>::empty(),
{
    assert(records_in(Seq::<Json>::empty()) == Seq::<RecordView>::empty());
}

/// Every item of a list of attributes, and of the list of resources, is read,
/// in its place.
pub proof fn law_every_item_is_read(json: Json, items: Seq<Json>)
    ensures
        json.member("attributes"@) == Some(Json::List(items)) ==> attributes_in(json).len()
            == items.len() && (forall|i: int|
            0 <= i < items.len() ==> #[trigger] attributes_in(json)[i] == attribute_in(items[i])),
        json.member("resourceLogs"@) == Some(Json::List(items)) ==> resources_in(json).len()
            == items.len() && (forall|i: int|
            0 <= i < items.len() ==> #[trigger] resources_in(json)[i] == resource_in(items[i])),
        json.member("attributes"@) is None ==> attributes_in(json).len() == 0,
        json.member("resourceLogs"@) is None ==> resources_in(json).len() == 0,
{
}

/// A body that is a JSON document yields the lines of its resources, and any
/// other body the message of what is wrong with it.
pub proof fn law_bodies_yield_lines_or_a_message(body: Seq<u8>)
    ensures
        json_parsed(body) matches Ok(document) ==> otlp_outcome(body) == Ok::<
            Seq<Seq<char>>,
            Seq<char>,
        >(resource_lines(resources_in(document))),
        json_parsed(body) matches Err(message) ==> otlp_outcome(body) == Err::<
            Seq<Seq<char>>,
            Seq<char>,
        >(message),
{
}

/// Attributes, records and resources show all that they hold, each in its place.
pub proof fn law_requests_show_what_they_hold(
    attributes: Seq<Attribute>,
    records: Seq<Record>,
    resources: Seq<Resource>,
    i: int,
)
    ensures
        attribute_views(attributes).len() == attributes.len(),
        0 <= i < attributes.len() ==> attribute_views(attributes)[i].key == owned_view(
            attributes[i].key,
        ) && attribute_views(attributes)[i].value == owned_view(attributes[i].value),
        record_views(records).len() == records.len(),
        0 <= i < records.len() ==> {
            let (seen, record) = (record_views(records)[i], records[i]);
            &&& seen.severity_text == owned_view(record.severity_text)
            &&& seen.severity_number == record.severity_number
            &&& seen.body == owned_view(record.body)
            &&& seen.attributes == attribute_views(record.attributes@)
        },
        resource_views(resources).len() == resources.len(),
        0 <= i < resources.len() ==> {
            let (seen, resource) = (resource_views(resources)[i], resources[i]);
            &&& seen.attributes == attribute_views(resource.attributes@)
            &&& seen.records == record_views(resource.records@)
        },
{
}

} // verus!
