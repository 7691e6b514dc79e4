//! Templates of log lines: variable values are masked, and what is left names
//! the cluster that a line belongs to.
use regex::Regex;
use std::collections::HashMap;
use std::sync::Arc;
use vstd::prelude::*;
use vstd::utf8::*;

use crate::pattern::{
    captures, captures_fit, compile, cuts_text, group, group_lists, pattern_captures,
    pattern_is_valid, pattern_of,
};
use crate::text::{
    byte_slice, chars_of, first_index, join_texts, joined, law_slices_hold_their_bytes,
    lemma_first_index, lemma_strip_start_added, owned_view, share, slice, strip_prefix, strip_start,
    stripped_start, utf8_len, views, without_prefix, Class,
};

verus! {

/// The values that vary between occurrences of a line.
pub const MASK: &'static str =
    r"(?P<STATUS>(?P<PREFIX>\b(?:GET|POST|PUT|PATCH|DELETE|HEAD|OPTIONS)\s+\S+(?:\s+HTTP/[0-9](?:\.[0-9])?\x22?)?\s+|\b(?i:status(?:[ _]?code)?|http)[\s:=]+)(?P<CODE>[1-5])[0-9]{2}\b)|(?P<UUID>\b[0-9a-fA-F]{8}-[0-9a-fA-F]{4}-[0-9a-fA-F]{4}-[0-9a-fA-F]{4}-[0-9a-fA-F]{12}\b)|(?P<EMAIL>[\w.+-]+@[\w-]+\.[\w.-]+)|(?P<IP>\b\d{1,3}\.\d{1,3}\.\d{1,3}\.\d{1,3}\b)|(?P<HEX>\b0x[0-9a-fA-F]+\b)|(?P<NUM>\b\d+\b)";

/// The position of each group among those of [`MASK`], in the order of their
/// opening parentheses.
pub const STATUS: usize = 1;

pub const PREFIX: usize = 2;

pub const CODE: usize = 3;

pub const UUID: usize = 4;

pub const EMAIL: usize = 5;

pub const IP: usize = 6;

pub const HEX: usize = 7;

/// Whether each status match has a prefix that its one-byte code follows.
pub open spec fn statuses_fit(found: Seq<Seq<Option<(usize, usize)>>>) -> bool {
    forall|i: int|
        0 <= i < found.len() && (group(#[trigger] found[i], STATUS as int) is Some) ==> {
            &&& group(found[i], PREFIX as int) is Some
            &&& group(found[i], CODE as int) is Some
            &&& (group(found[i], PREFIX as int)->0).1 == (group(found[i], CODE as int)->0).0
            &&& (group(found[i], CODE as int)->0).1 == (group(found[i], CODE as int)->0).0 + 1
        }
}

/// The name of the value that a match without a status stands for.
pub open spec fn label_of(found: Seq<Option<(usize, usize)>>) -> Seq<char> {
    if group(found, UUID as int) is Some {
        "UUID"@
    } else if group(found, EMAIL as int) is Some {
        "EMAIL"@
    } else if group(found, IP as int) is Some {
        "IP"@
    } else if group(found, HEX as int) is Some {
        "HEX"@
    } else {
        "NUM"@
    }
}

/// What stands for a value: its name in angle brackets.
pub open spec fn value_mark(label: Seq<char>) -> Seq<char> {
    "<"@ + label + ">"@
}

/// What stands for a status: the text before it, and its class.
pub open spec fn status_mark(prefix: Seq<char>, code: Seq<char>) -> Seq<char> {
    prefix + "<"@ + code + "xx>"@
}

/// Where the text between matches `k - 1` and `k` starts.
pub open spec fn gap_start(found: Seq<Seq<Option<(usize, usize)>>>, k: int) -> int {
    if k <= 0 {
        0
    } else {
        (group(found[k - 1], 0)->0).1 as int
    }
}

/// `text` up to the end of its first `k` matches, each replaced.
pub open spec fn spliced_to(
    text: Seq<char>,
    found: Seq<Seq<Option<(usize, usize)>>>,
    replacements: Seq<Seq<char>>,
    k: nat,
) -> Seq<char>
    decreases k,
{
    if k == 0 {
        Seq::empty()
    } else {
        spliced_to(text, found, replacements, (k - 1) as nat) + byte_slice(
            text,
            gap_start(found, k - 1),
            (group(found[k - 1], 0)->0).0 as int,
        ) + replacements[k - 1]
    }
}

/// `text` with each match replaced.
pub open spec fn spliced(
    text: Seq<char>,
    found: Seq<Seq<Option<(usize, usize)>>>,
    replacements: Seq<Seq<char>>,
) -> Seq<char> {
    spliced_to(text, found, replacements, found.len()) + byte_slice(
        text,
        gap_start(found, found.len() as int),
        utf8_len(text) as int,
    )
}

/// What replaces the match `found` of `text`. The text before a status is
/// masked in turn; it is always shorter than `text`.
pub open spec fn replacement_for(text: Seq<char>, found: Seq<Option<(usize, usize)>>) -> Seq<char>
    decreases utf8_len(text), 0nat,
{
    if group(found, STATUS as int) is Some {
        let before = group(found, PREFIX as int)->0;
        let code = group(found, CODE as int)->0;
        let prefix = byte_slice(text, before.0 as int, before.1 as int);
        let shown = if utf8_len(prefix) < utf8_len(text) {
            masked(prefix)
        } else {
            prefix
        };
        status_mark(shown, byte_slice(text, code.0 as int, code.1 as int))
    } else {
        value_mark(label_of(found))
    }
}

/// What replaces each match of `text`.
pub open spec fn replacements_for(text: Seq<char>) -> Seq<Seq<char>>
    decreases utf8_len(text), 1nat,
{
    let found = pattern_captures(MASK@, text);
    Seq::new(found.len(), |i: int| replacement_for(text, found[i]))
}

/// `text` with its variable values replaced by their names.
pub open spec fn masked(text: Seq<char>) -> Seq<char>
    decreases utf8_len(text), 2nat,
{
    spliced(text, pattern_captures(MASK@, text), replacements_for(text))
}

/// The range of group `k` of a match, if the match has that group.
fn range_of(found: &Vec<Option<(usize, usize)>>, k: usize) -> (range: Option<(usize, usize)>)
    ensures
        range == group(found@, k as int),
{
    if k < found.len() {
        found[k]
    } else {
        None
    }
}

/// The name of the value that a match without a status stands for.
pub fn label(found: &Vec<Option<(usize, usize)>>) -> (name: &'static str)
    ensures
        name@ == label_of(found@),
{
    if range_of(found, UUID).is_some() {
        "UUID"
    } else if range_of(found, EMAIL).is_some() {
        "EMAIL"
    } else if range_of(found, IP).is_some() {
        "IP"
    } else if range_of(found, HEX).is_some() {
        "HEX"
    } else {
        "NUM"
    }
}

/// `text` with each match of `found` replaced by the text of the same index.
pub fn splice(
    text: &str,
    found: &Vec<Vec<Option<(usize, usize)>>>,
    replacements: &Vec<String>,
) -> (whole: String)
    requires
        captures_fit(group_lists(found@), text@),
        replacements@.len() == found@.len(),
    ensures
        whole@ == spliced(text@, group_lists(found@), views(replacements@)),
{
    let ghost lists = group_lists(found@);
    let mut whole = String::new();
    let mut last: usize = 0;
    let mut i: usize = 0;
    proof {
        encode_utf8_valid_utf8(text@);
        is_char_boundary_start_end_of_seq(encode_utf8(text@));
    }
    while i < found.len()
        invariant
            i <= found@.len() == replacements@.len(),
            lists == group_lists(found@),
            captures_fit(lists, text@),
            last == gap_start(lists, i as int),
            cuts_text((0, last), text@),
            whole@ == spliced_to(text@, lists, views(replacements@), i as nat),
        decreases found@.len() - i,
    {
        proof {
            assert(lists[i as int] == found@[i as int]@);
            assert(group(lists[i as int], 0) is Some);
            assert(cuts_text(group(lists[i as int], 0)->0, text@));
            if i > 0 {
                assert((group(lists[i - 1], 0)->0).1 <= (group(lists[i as int], 0)->0).0);
            }
        }
        let (start, end) = range_of(&found[i], 0).unwrap();
        whole.append(slice(text, last, start));
        whole.append(replacements[i].as_str());
        assert(views(replacements@)[i as int] == replacements@[i as int]@);
        last = end;
        i += 1;
    }
    whole.append(slice(text, last, text.as_bytes().len()));
    whole
}

/// Masks variable values, with one compiled expression.
pub struct Masker {
    re: Regex,
}

impl Masker {
    #[verifier::type_invariant]
    spec fn masks(self) -> bool {
        pattern_of(self.re) == MASK@
    }

    /// A masker, if the masking expression compiles.
    pub fn new() -> (masker: Option<Masker>)
        ensures
            masker is Some <==> pattern_is_valid(MASK@),
    {
        match compile(MASK) {
            Some(re) => Some(Masker { re }),
            None => None,
        }
    }

    /// What replaces the match `found` of `line`.
    fn replacement(&self, line: &str, found: &Vec<Option<(usize, usize)>>) -> (text: String)
        requires
            group(found@, STATUS as int) is Some ==> {
                &&& group(found@, PREFIX as int) is Some
                &&& group(found@, CODE as int) is Some
                &&& cuts_text(group(found@, PREFIX as int)->0, line@)
                &&& cuts_text(group(found@, CODE as int)->0, line@)
                &&& (group(found@, PREFIX as int)->0).1 < (group(found@, CODE as int)->0).1
            },
        ensures
            text@ == replacement_for(line@, found@),
        decreases utf8_len(line@), 0nat,
    {
        if range_of(found, STATUS).is_some() {
            let before = range_of(found, PREFIX).unwrap();
            let code = range_of(found, CODE).unwrap();
            let prefix = slice(line, before.0, before.1);
            let mut text = self.mask(prefix);
            text.append("<");
            text.append(slice(line, code.0, code.1));
            text.append("xx>");
            text
        } else {
            let mut text = String::new();
            text.append("<");
            text.append(label(found));
            text.append(">");
            text
        }
    }

    /// `line` with its variable values replaced by their names.
    pub fn mask(&self, line: &str) -> (text: String)
        ensures
            text@ == masked(line@),
        decreases utf8_len(line@), 1nat,
    {
        proof {
            use_type_invariant(self);
        }
        let found = captures(&self.re, line);
        let ghost lists = pattern_captures(MASK@, line@);
        let mut replacements: Vec<String> = Vec::new();
        let mut i: usize = 0;
        while i < found.len()
            invariant
                i <= found@.len(),
                i == replacements@.len(),
                lists == group_lists(found@),
                captures_fit(lists, line@),
                statuses_fit(lists),
                forall|j: int|
                    0 <= j < i ==> (#[trigger] replacements@[j])@ == replacement_for(line@, lists[j]),
            decreases found@.len() - i,
        {
            proof {
                assert(lists[i as int] == found@[i as int]@);
                assert(group(lists[i as int], PREFIX as int) is Some ==> cuts_text(
                    group(lists[i as int], PREFIX as int)->0,
                    line@,
                ));
                assert(group(lists[i as int], CODE as int) is Some ==> cuts_text(
                    group(lists[i as int], CODE as int)->0,
                    line@,
                ));
            }
            replacements.push(self.replacement(line, &found[i]));
            i += 1;
        }
        assert(views(replacements@) == replacements_for(line@));
        splice(line, &found, &replacements)
    }
}

/// Whether `c` is the digit of a status class.
pub open spec fn is_class(c: char) -> bool {
    c == '1' || c == '2' || c == '3' || c == '4' || c == '5'
}

/// Whether `s` starts with the mark of a status class, such as `<5xx>`.
pub open spec fn starts_with_class(s: Seq<char>) -> bool {
    &&& s.len() >= 5
    &&& s[0] == '<'
    &&& is_class(s[1])
    &&& s[2] == 'x'
    &&& s[3] == 'x'
    &&& s[4] == '>'
}

/// The digits of the status classes that a masked line shows, in order.
pub open spec fn status_classes(s: Seq<char>) -> Seq<char>
    decreases s.len(),
{
    if s.len() == 0 {
        Seq::empty()
    } else if starts_with_class(s) {
        seq![s[1]] + status_classes(s.skip(5))
    } else {
        status_classes(s.drop_first())
    }
}

/// The name of the status class with the digit `c`.
pub open spec fn class_name(c: char) -> Seq<char> {
    if c == '1' {
        "info"@
    } else if c == '2' {
        "success"@
    } else if c == '3' {
        "redirect"@
    } else if c == '4' {
        "clienterror"@
    } else {
        "servererror"@
    }
}

/// The names of a list of status classes.
pub open spec fn names_of(classes: Seq<char>) -> Seq<Seq<char>> {
    classes.map_values(|c: char| class_name(c))
}

/// The key that keeps lines of different status classes apart; a line without
/// a status has none.
pub open spec fn key_of(s: Seq<char>) -> Option<Seq<char>> {
    if status_classes(s).len() == 0 {
        None
    } else {
        Some("http-"@ + joined(names_of(status_classes(s)), "+"@))
    }
}

/// The name of the status class with the digit `c`.
fn name_class(c: char) -> (name: &'static str)
    ensures
        name@ == class_name(c),
{
    if c == '1' {
        "info"
    } else if c == '2' {
        "success"
    } else if c == '3' {
        "redirect"
    } else if c == '4' {
        "clienterror"
    } else {
        "servererror"
    }
}

/// The key that keeps lines of different status classes apart; a line without
/// a status has none.
pub fn status_key(masked: &str) -> (key: Option<String>)
    ensures
        key is Some <==> key_of(masked@) is Some,
        key matches Some(k) ==> key_of(masked@) == Some(k@),
{
    let chars = chars_of(masked);
    let mut names: Vec<String> = Vec::new();
    let ghost mut classes = Seq::<char>::empty();
    let mut i: usize = 0;
    assert(masked@.skip(0) == masked@);
    assert(classes + status_classes(masked@) == status_classes(masked@));
    while i < chars.len()
        invariant
            i <= chars@.len(),
            chars@ == masked@,
            status_classes(masked@) == classes + status_classes(masked@.skip(i as int)),
            views(names@) == classes.map_values(|c: char| class_name(c)),
        decreases chars@.len() - i,
    {
        let ghost rest = masked@.skip(i as int);
        if chars.len() - i >= 5 && chars[i] == '<' && '1' <= chars[i + 1] && chars[i + 1]
            <= '5' && chars[i + 2] == 'x' && chars[i + 3] == 'x' && chars[i + 4] == '>' {
            let c = chars[i + 1];
            let ghost before = views(names@);
            names.push(name_class(c).to_string());
            proof {
                assert(starts_with_class(rest));
                assert(rest.skip(5) == masked@.skip(i + 5));
                assert(views(names@) == before.push(class_name(c)));
                assert(classes.push(c).map_values(|c: char| class_name(c)) == classes.map_values(
                    |c: char| class_name(c),
                ).push(class_name(c)));
                assert(classes + (seq![c] + status_classes(rest.skip(5))) == classes.push(c)
                    + status_classes(rest.skip(5)));
                classes = classes.push(c);
            }
            i += 5;
        } else {
            assert(!starts_with_class(rest));
            assert(rest.drop_first() == masked@.skip(i + 1));
            i += 1;
        }
    }
    proof {
        assert(classes == status_classes(masked@));
        assert(names@.len() == views(names@).len());
    }
    if names.len() == 0 {
        return None;
    }
    let mut key = String::new();
    key.append("http-");
    key.append(join_texts(&names, "+").as_str());
    Some(key)
}

/// What the clusterer is given for a masked line: the line, after its status
/// key if it has one.
pub open spec fn message_of(masked: Seq<char>) -> Seq<char> {
    match key_of(masked) {
        Some(key) => key + " "@ + masked,
        None => masked,
    }
}

/// The first word of a text.
pub open spec fn first_word(s: Seq<char>) -> Seq<char> {
    s.take(first_index(s, ' '))
}

proof fn lemma_class_digits(s: Seq<char>)
    ensures
        forall|i: int| 0 <= i < status_classes(s).len() ==> is_class(#[trigger] status_classes(s)[i]),
    decreases s.len(),
{
    if s.len() > 0 {
        let all = status_classes(s);
        if starts_with_class(s) {
            lemma_class_digits(s.skip(5));
            let tail = status_classes(s.skip(5));
            assert(all == seq![s[1]] + tail);
            assert forall|i: int| 0 <= i < all.len() implies is_class(#[trigger] all[i]) by {
                if i > 0 {
                    assert(all[i] == tail[i - 1]);
                }
            }
        } else {
            lemma_class_digits(s.drop_first());
            assert(all == status_classes(s.drop_first()));
        }
    }
}

/// Class names hold letters alone, and different classes have different names.
proof fn lemma_class_names(c: char, d: char)
    requires
        is_class(c),
        is_class(d),
    ensures
        class_name(c) == class_name(d) ==> c == d,
        class_name(c).len() > 0,
        forall|i: int| 0 <= i < class_name(c).len() ==> 'a' <= #[trigger] class_name(c)[i] <= 'z',
{
    reveal_strlit("info");
    reveal_strlit("success");
    reveal_strlit("redirect");
    reveal_strlit("clienterror");
    reveal_strlit("servererror");
    if class_name(c) == class_name(d) {
        assert(class_name(c).len() == class_name(d).len());
        assert(class_name(c)[0] == class_name(d)[0]);
    }
}

/// Joined class names hold letters and plus signs alone.
proof fn lemma_joined_letters(classes: Seq<char>)
    requires
        forall|i: int| 0 <= i < classes.len() ==> is_class(#[trigger] classes[i]),
    ensures
        forall|i: int|
            0 <= i < joined(names_of(classes), "+"@).len() ==> {
                let c = #[trigger] joined(names_of(classes), "+"@)[i];
                c == '+' || 'a' <= c <= 'z'
            },
    decreases classes.len(),
{
    reveal_strlit("+");
    if classes.len() > 0 {
        lemma_class_names(classes.last(), classes.last());
        assert(names_of(classes).drop_last() == names_of(classes.drop_last()));
        assert(names_of(classes).last() == class_name(classes.last()));
        if classes.len() > 1 {
            lemma_joined_letters(classes.drop_last());
            let head = joined(names_of(classes.drop_last()), "+"@);
            let all = joined(names_of(classes), "+"@);
            assert(all == head + "+"@ + class_name(classes.last()));
            assert forall|i: int| 0 <= i < all.len() implies {
                let c = #[trigger] all[i];
                c == '+' || 'a' <= c <= 'z'
            } by {
                if i < head.len() {
                    assert(all[i] == head[i]);
                } else if i > head.len() {
                    assert(all[i] == class_name(classes.last())[i - head.len() - 1]);
                }
            }
        }
    }
}

proof fn lemma_joined_injective(a: Seq<char>, b: Seq<char>)
    requires
        a.len() > 0,
        b.len() > 0,
        forall|i: int| 0 <= i < a.len() ==> is_class(#[trigger] a[i]),
        forall|i: int| 0 <= i < b.len() ==> is_class(#[trigger] b[i]),
        joined(names_of(a), "+"@) == joined(names_of(b), "+"@),
    ensures
        a == b,
    decreases a.len(),
{
    reveal_strlit("+");
    let x = joined(names_of(a), "+"@);
    let y = joined(names_of(b), "+"@);
    let p = class_name(a.last());
    let q = class_name(b.last());
    lemma_class_names(a.last(), b.last());
    lemma_class_names(b.last(), a.last());
    assert(names_of(a).drop_last() == names_of(a.drop_last()));
    assert(names_of(b).drop_last() == names_of(b.drop_last()));
    assert(names_of(a).last() == p && names_of(b).last() == q);
    let u = joined(names_of(a.drop_last()), "+"@);
    let v = joined(names_of(b.drop_last()), "+"@);
    if a.len() > 1 {
        assert(x == u + "+"@ + p);
        assert(x[u.len() as int] == '+');
        assert forall|i: int| u.len() < i < x.len() implies x[i] != '+' by {
            assert(x[i] == p[i - u.len() - 1]);
        }
    } else {
        assert(x == p);
    }
    if b.len() > 1 {
        assert(y == v + "+"@ + q);
        assert(y[v.len() as int] == '+');
        assert forall|i: int| v.len() < i < y.len() implies y[i] != '+' by {
            assert(y[i] == q[i - v.len() - 1]);
        }
    } else {
        assert(y == q);
    }
    if a.len() > 1 && b.len() > 1 {
        assert(u.len() == v.len());
        assert(u == x.take(u.len() as int));
        assert(v == y.take(v.len() as int));
        assert(p == x.skip(u.len() as int + 1));
        assert(q == y.skip(v.len() as int + 1));
        lemma_joined_injective(a.drop_last(), b.drop_last());
        assert(a == a.drop_last().push(a.last()));
        assert(b == b.drop_last().push(b.last()));
    } else if a.len() == 1 && b.len() == 1 {
        assert(a == seq![a.last()]);
        assert(b == seq![b.last()]);
    } else if a.len() == 1 {
        assert(p[v.len() as int] == '+');
    } else {
        assert(q[u.len() as int] == '+');
    }
}

/// Two lines with a status have the same key exactly if they show the same
/// status classes in the same order.
pub proof fn law_key_tells_status_classes(a: Seq<char>, b: Seq<char>)
    requires
        key_of(a) is Some,
        key_of(b) is Some,
    ensures
        key_of(a) == key_of(b) <==> status_classes(a) == status_classes(b),
{
    lemma_class_digits(a);
    lemma_class_digits(b);
    if key_of(a) == key_of(b) {
        let x = joined(names_of(status_classes(a)), "+"@);
        let y = joined(names_of(status_classes(b)), "+"@);
        let n = "http-"@.len() as int;
        assert(x == ("http-"@ + x).skip(n));
        assert(y == ("http-"@ + y).skip(n));
        lemma_joined_injective(status_classes(a), status_classes(b));
    }
}

/// The clusterer sees the key of a line with a status as its first word, so
/// lines of different status classes reach it under different first words.
pub proof fn law_status_classes_reach_clusterer_apart(a: Seq<char>, b: Seq<char>)
    requires
        key_of(a) is Some,
        key_of(b) is Some,
    ensures
        first_word(message_of(a)) == key_of(a)->0,
        status_classes(a) != status_classes(b) ==> first_word(message_of(a)) != first_word(
            message_of(b),
        ),
{
    lemma_key_is_first_word(a);
    lemma_key_is_first_word(b);
    law_key_tells_status_classes(a, b);
}

proof fn lemma_key_is_first_word(s: Seq<char>)
    requires
        key_of(s) is Some,
    ensures
        first_word(message_of(s)) == key_of(s)->0,
{
    let key = key_of(s)->0;
    let message = message_of(s);
    reveal_strlit("http-");
    reveal_strlit(" ");
    lemma_class_digits(s);
    lemma_joined_letters(status_classes(s));
    lemma_first_index(message, ' ');
    assert(message[key.len() as int] == ' ');
    assert forall|i: int| 0 <= i < key.len() implies #[trigger] message[i] != ' ' by {
        assert(message[i] == key[i]);
        if i >= 5 {
            assert(key[i] == joined(names_of(status_classes(s)), "+"@)[i - 5]);
        }
    }
    assert(message.take(key.len() as int) == key);
}

/// What the clusterer is told of a line.
#[derive(Debug)]
pub struct Message {
    /// The status key of the line, if it has a status.
    pub key: Option<String>,
    /// The masked line, after the key if there is one.
    pub text: String,
}

/// The cluster of a line and the template that the cluster stands for.
#[derive(Debug, Clone)]
pub struct Assignment {
    pub cluster: usize,
    pub template: Arc<str>,
}

/// How lines are clustered.
#[derive(Debug, Clone, Copy)]
pub struct Config {
    /// The depth of the clusterer's prefix tree.
    pub depth: usize,
    /// The bits of the double-precision number that tells how similar a line
    /// must be to a template to merge into it.
    pub similarity: u64,
    pub max_clusters: usize,
}

impl Default for Config {
    fn default() -> (config: Config)
        ensures
            config.depth == 4,
            config.similarity == 0x3fe6_6666_6666_6666,
            config.max_clusters == 100_000,
    {
        Config { depth: 4, similarity: 0x3fe6_6666_6666_6666, max_clusters: 100_000 }
    }
}

/// The children that a node of the clusterer's prefix tree may have.
pub const MAX_CHILDREN: usize = 100;

/// What a template holds in place of a word that varies.
pub const WILDCARD: &'static str = "<*>";

/// Whether the clusterer takes words with digits to vary.
pub const PARAMETRIZE_NUMERIC: bool = true;

/// A template without the status key that the clusterer saw before it.
pub open spec fn bare_template(key: Option<Seq<char>>, template: Seq<char>) -> Seq<char> {
    match key {
        Some(k) => stripped_start(
            match without_prefix(template, k) {
                Some(rest) => rest,
                None => template,
            },
            Class::Space,
        ),
        None => template,
    }
}

/// The templates known after that of `cluster` was learned: all are dropped
/// first if there are twice as many as there may be clusters.
pub open spec fn learned(
    known: Map<usize, Seq<char>>,
    max_clusters: usize,
    cluster: usize,
    template: Seq<char>,
) -> Map<usize, Seq<char>> {
    if known.len() >= 2 * max_clusters {
        Map::empty().insert(cluster, template)
    } else {
        known.insert(cluster, template)
    }
}

/// Turns lines into messages for a clusterer, and the clusters that it finds
/// into templates.
pub struct Templater {
    masker: Masker,
    templates: HashMap<usize, Arc<str>>,
    max_clusters: usize,
}

impl Templater {
    /// The template of each cluster that was learned.
    pub closed spec fn known(self) -> Map<usize, Seq<char>> {
        self.templates@.map_values(|template: Arc<str>| template@)
    }

    /// The number of clusters that the clusterer may hold.
    pub closed spec fn limit(self) -> usize {
        self.max_clusters
    }

    /// A templater that knows no template, if the masking expression compiles.
    pub fn new(config: Config) -> (templater: Option<Templater>)
        ensures
            templater is Some <==> pattern_is_valid(MASK@),
            templater matches Some(t) ==> t.known() == Map::<usize, Seq<char>>::empty() && t.limit()
                == config.max_clusters,
    {
        broadcast use vstd::std_specs::hash::group_hash_axioms;

        match Masker::new() {
            Some(masker) => {
                let templater = Templater {
                    masker,
                    templates: HashMap::new(),
                    max_clusters: config.max_clusters,
                };
                assert(templater.known() == Map::<usize, Seq<char>>::empty());
                Some(templater)
            },
            None => None,
        }
    }

    /// What the clusterer is to be told of `line`.
    pub fn message(&self, line: &str) -> (message: Message)
        ensures
            owned_view(message.key) == key_of(masked(line@)),
            message.text@ == message_of(masked(line@)),
    {
        let text = self.masker.mask(line);
        match status_key(text.as_str()) {
            Some(key) => {
                let mut whole = String::new();
                whole.append(key.as_str());
                whole.append(" ");
                whole.append(text.as_str());
                Message { key: Some(key), text: whole }
            },
            None => Message { key: None, text },
        }
    }

    /// The assignment of a line that the clusterer put into `cluster`, if that
    /// left the template of the cluster unchanged and the template is known.
    fn recall(&self, cluster: usize, changed: bool) -> (assignment: Option<Assignment>)
        ensures
            assignment is Some <==> !changed && self.known().contains_key(cluster),
            assignment matches Some(a) ==> a.cluster == cluster && a.template@
                == self.known()[cluster],
    {
        broadcast use vstd::std_specs::hash::group_hash_axioms;

        if changed {
            return None;
        }
        match self.templates.get(&cluster) {
            Some(template) => Some(Assignment { cluster, template: template.clone() }),
            None => None,
        }
    }

    /// The assignment of a line with the status key `key` that the clusterer
    /// put into `cluster`, whose template is now `template`.
    fn learn(&mut self, key: &Option<String>, cluster: usize, template: &str) -> (assignment:
        Assignment)
        ensures
            assignment.cluster == cluster,
            assignment.template@ == bare_template(owned_view(*key), template@),
            final(self).known() == learned(
                old(self).known(),
                old(self).limit(),
                cluster,
                assignment.template@,
            ),
            final(self).limit() == old(self).limit(),
    {
        broadcast use vstd::std_specs::hash::group_hash_axioms;

        let bare = match key {
            Some(k) => {
                let rest = match strip_prefix(template, k.as_str()) {
                    Some(rest) => rest,
                    None => template,
                };
                strip_start(rest, Class::Space)
            },
            None => template,
        };
        let shared = share(bare);
        assert(self.known().dom() == self.templates@.dom());
        if self.templates.len() / 2 >= self.max_clusters {
            self.templates.clear();
        }
        self.templates.insert(cluster, shared.clone());
        assert(final(self).known() == learned(
            old(self).known(),
            old(self).limit(),
            cluster,
            shared@,
        ));
        Assignment { cluster, template: shared }
    }
}

impl Templater {
    /// The assignment of a line with the status key `key` that the clusterer
    /// put into `cluster`, whose template is now `template`, `changed` by the
    /// line or not. A template that is known and did not change is shared.
    pub fn assign(&mut self, key: &Option<String>, cluster: usize, changed: bool, template: &str) -> (assignment:
        Assignment)
        ensures
            assignment.cluster == cluster,
            !changed && old(self).known().contains_key(cluster) ==> assignment.template@ == old(
                self,
            ).known()[cluster] && final(self).known() == old(self).known(),
            changed || !old(self).known().contains_key(cluster) ==> assignment.template@
                == bare_template(owned_view(*key), template@) && final(self).known() == learned(
                old(self).known(),
                old(self).limit(),
                cluster,
                assignment.template@,
            ),
            final(self).limit() == old(self).limit(),
    {
        match self.recall(cluster, changed) {
            Some(assignment) => assignment,
            None => self.learn(key, cluster, template),
        }
    }
}

/// The template that was learned of a cluster is the one that is known of it,
/// until more is learned.
pub proof fn law_learned_template_is_known(
    known: Map<usize, Seq<char>>,
    max_clusters: usize,
    cluster: usize,
    template: Seq<char>,
)
    ensures
        learned(known, max_clusters, cluster, template).contains_key(cluster),
        learned(known, max_clusters, cluster, template)[cluster] == template,
{
}

/// The known templates never outnumber twice the clusters that there may be,
/// but for the one learned last.
pub proof fn law_known_templates_are_bounded(
    known: Map<usize, Seq<char>>,
    max_clusters: usize,
    cluster: usize,
    template: Seq<char>,
)
    requires
        known.dom().finite(),
        known.len() <= 2 * max_clusters || known.len() <= 1,
    ensures
        learned(known, max_clusters, cluster, template).dom().finite(),
        learned(known, max_clusters, cluster, template).len() <= 2 * max_clusters || learned(
            known,
            max_clusters,
            cluster,
            template,
        ).len() <= 1,
{
    let after = learned(known, max_clusters, cluster, template);
    if known.len() >= 2 * max_clusters {
        assert(after.dom() == Set::<usize>::empty().insert(cluster));
    } else {
        assert(after.dom() == known.dom().insert(cluster));
    }
}

/// Whether `whole` is `text` with each match of `found` replaced by the mark of
/// the same index: gap `i`, the text between match `i - 1` and match `i`, starts
/// at `at[i]` in `whole`, the mark of match `i` follows it, and the next gap
/// follows the mark.
pub open spec fn reads_as(
    whole: Seq<char>,
    text: Seq<char>,
    found: Seq<Seq<Option<(usize, usize)>>>,
    marks: Seq<Seq<char>>,
    at: Seq<int>,
) -> bool {
    let n = found.len() as int;
    &&& marks.len() == n
    &&& at.len() == n + 1
    &&& at[0] == 0
    &&& 0 <= at[n] <= whole.len()
    &&& forall|i: int|
        0 <= i < n ==> {
            let from = if i == 0 {
                0
            } else {
                (group(found[i - 1], 0)->0).1 as int
            };
            let gap = byte_slice(text, from, (group(found[i], 0)->0).0 as int);
            &&& 0 <= at[i]
            &&& (#[trigger] at[i]) + gap.len() + marks[i].len() == at[i + 1]
            &&& at[i + 1] <= whole.len()
            &&& whole.subrange(at[i], at[i] + gap.len()) == gap
            &&& whole.subrange(at[i] + gap.len(), at[i + 1]) == marks[i]
        }
    &&& whole.skip(at[n]) == byte_slice(
        text,
        if n == 0 {
            0
        } else {
            (group(found[n - 1], 0)->0).1 as int
        },
        encode_utf8(text).len() as int,
    )
}

proof fn lemma_spliced_to_grows(
    text: Seq<char>,
    found: Seq<Seq<Option<(usize, usize)>>>,
    marks: Seq<Seq<char>>,
    k: nat,
    n: nat,
)
    requires
        k <= n,
    ensures
        spliced_to(text, found, marks, k).is_prefix_of(spliced_to(text, found, marks, n)),
    decreases n,
{
    if k < n {
        lemma_spliced_to_grows(text, found, marks, k, (n - 1) as nat);
        let before = spliced_to(text, found, marks, (n - 1) as nat);
        assert(before.is_prefix_of(spliced_to(text, found, marks, n)));
    }
}

/// A splice replaces each match by the text of its index, however many there
/// are, and leaves all that is between and around them.
pub proof fn law_splices_replace_each_match(
    text: Seq<char>,
    found: Seq<Seq<Option<(usize, usize)>>>,
    marks: Seq<Seq<char>>,
) -> (at: Seq<int>)
    requires
        marks.len() == found.len(),
    ensures
        reads_as(spliced(text, found, marks), text, found, marks, at),
{
    let n = found.len();
    let whole = spliced(text, found, marks);
    let at = Seq::new(n + 1, |i: int| spliced_to(text, found, marks, i as nat).len() as int);
    assert forall|i: int| 0 <= i < n implies {
        let from = if i == 0 {
            0
        } else {
            (group(found[i - 1], 0)->0).1 as int
        };
        let gap = byte_slice(text, from, (group(found[i], 0)->0).0 as int);
        &&& 0 <= at[i]
        &&& (#[trigger] at[i]) + gap.len() + marks[i].len() == at[i + 1]
        &&& at[i + 1] <= whole.len()
        &&& whole.subrange(at[i], at[i] + gap.len()) == gap
        &&& whole.subrange(at[i] + gap.len(), at[i + 1]) == marks[i]
    } by {
        let gap = byte_slice(text, gap_start(found, i), (group(found[i], 0)->0).0 as int);
        let before = spliced_to(text, found, marks, i as nat);
        let after = spliced_to(text, found, marks, (i + 1) as nat);
        assert(after == before + gap + marks[i]);
        lemma_spliced_to_grows(text, found, marks, (i + 1) as nat, n);
        assert(after.is_prefix_of(whole));
        assert(whole.take(after.len() as int) == after);
        assert(whole.subrange(at[i], at[i] + gap.len()) == gap) by {
            assert forall|j: int| 0 <= j < gap.len() implies whole[at[i] + j] == gap[j] by {
                assert(whole[at[i] + j] == after[at[i] + j]);
            }
        }
        assert(whole.subrange(at[i] + gap.len(), at[i + 1]) == marks[i]) by {
            assert forall|j: int| 0 <= j < marks[i].len() implies whole[at[i] + gap.len() + j]
                == marks[i][j] by {
                assert(whole[at[i] + gap.len() + j] == after[at[i] + gap.len() + j]);
            }
        }
    }
    let all = spliced_to(text, found, marks, n);
    assert(whole.skip(all.len() as int) == byte_slice(
        text,
        gap_start(found, n as int),
        utf8_len(text) as int,
    ));
    at
}

/// Masking replaces every match of the masking expression, whatever its index,
/// and nothing else: a status by the masked text before it and its class, and
/// any other value by its name in angle brackets. What is between the matches
/// stays as it is.
pub proof fn law_every_match_is_masked(text: Seq<char>) -> (pieces: (Seq<Seq<char>>, Seq<int>))
    requires
        captures_fit(pattern_captures(MASK@, text), text),
        statuses_fit(pattern_captures(MASK@, text)),
    ensures
        reads_as(masked(text), text, pattern_captures(MASK@, text), pieces.0, pieces.1),
        forall|i: int|
            0 <= i < pattern_captures(MASK@, text).len() ==> {
                let found = pattern_captures(MASK@, text)[i];
                let mark = #[trigger] pieces.0[i];
                &&& group(found, 1) is Some ==> mark == masked(
                    byte_slice(
                        text,
                        (group(found, 2)->0).0 as int,
                        (group(found, 2)->0).1 as int,
                    ),
                ) + "<"@ + byte_slice(
                    text,
                    (group(found, 3)->0).0 as int,
                    (group(found, 3)->0).1 as int,
                ) + "xx>"@
                &&& group(found, 1) is None && group(found, 4) is Some ==> mark == "<UUID>"@
                &&& group(found, 1) is None && group(found, 4) is None && group(found, 5) is Some
                    ==> mark == "<EMAIL>"@
                &&& group(found, 1) is None && group(found, 4) is None && group(found, 5) is None
                    && group(found, 6) is Some ==> mark == "<IP>"@
                &&& group(found, 1) is None && group(found, 4) is None && group(found, 5) is None
                    && group(found, 6) is None && group(found, 7) is Some ==> mark == "<HEX>"@
                &&& group(found, 1) is None && group(found, 4) is None && group(found, 5) is None
                    && group(found, 6) is None && group(found, 7) is None ==> mark == "<NUM>"@
            },
{
    let all = pattern_captures(MASK@, text);
    let marks = replacements_for(text);
    let at = law_splices_replace_each_match(text, all, marks);
    reveal_strlit("<");
    reveal_strlit(">");
    reveal_strlit("UUID");
    reveal_strlit("EMAIL");
    reveal_strlit("IP");
    reveal_strlit("HEX");
    reveal_strlit("NUM");
    reveal_strlit("<UUID>");
    reveal_strlit("<EMAIL>");
    reveal_strlit("<IP>");
    reveal_strlit("<HEX>");
    reveal_strlit("<NUM>");
    assert("<"@ + "UUID"@ + ">"@ == "<UUID>"@);
    assert("<"@ + "EMAIL"@ + ">"@ == "<EMAIL>"@);
    assert("<"@ + "IP"@ + ">"@ == "<IP>"@);
    assert("<"@ + "HEX"@ + ">"@ == "<HEX>"@);
    assert("<"@ + "NUM"@ + ">"@ == "<NUM>"@);
    assert forall|i: int| 0 <= i < all.len() && group(#[trigger] all[i], 1) is Some implies utf8_len(
        byte_slice(text, (group(all[i], 2)->0).0 as int, (group(all[i], 2)->0).1 as int),
    ) < utf8_len(text) by {
        let (before, code) = (group(all[i], 2)->0, group(all[i], 3)->0);
        assert(group(all[i], STATUS as int) is Some);
        assert(cuts_text(before, text));
        assert(cuts_text(code, text));
        law_slices_hold_their_bytes(text, before.0 as int, before.1 as int);
    }
    (marks, at)
}

/// Lines that differ only in their values share a mask: where two texts have as
/// many matches, of the same kinds and without a status, and the same text
/// between them, they are masked alike.
pub proof fn law_like_lines_are_masked_alike(a: Seq<char>, b: Seq<char>)
    requires
        pattern_captures(MASK@, a).len() == pattern_captures(MASK@, b).len(),
        forall|i: int, k: int|
            0 <= i < pattern_captures(MASK@, a).len() && 4 <= k <= 7 ==> ((#[trigger] group(
                pattern_captures(MASK@, a)[i],
                k,
            )) is Some <==> group(pattern_captures(MASK@, b)[i], k) is Some),
        forall|i: int|
            0 <= i < pattern_captures(MASK@, a).len() ==> group(
                #[trigger] pattern_captures(MASK@, a)[i],
                1,
            ) is None && group(pattern_captures(MASK@, b)[i], 1) is None,
        forall|i: int|
            0 <= i <= pattern_captures(MASK@, a).len() ==> #[trigger] gap_of(
                a,
                pattern_captures(MASK@, a),
                i,
            ) == gap_of(b, pattern_captures(MASK@, b), i),
    ensures
        masked(a) == masked(b),
{
    let (x, y) = (pattern_captures(MASK@, a), pattern_captures(MASK@, b));
    let (p, q) = (replacements_for(a), replacements_for(b));
    assert forall|i: int| 0 <= i < x.len() implies p[i] == q[i] by {
        assert(group(x[i], 1) is None && group(y[i], 1) is None);
        assert(group(x[i], 4) is Some <==> group(y[i], 4) is Some);
        assert(group(x[i], 5) is Some <==> group(y[i], 5) is Some);
        assert(group(x[i], 6) is Some <==> group(y[i], 6) is Some);
        assert(group(x[i], 7) is Some <==> group(y[i], 7) is Some);
    }
    assert(p == q);
    lemma_like_splices(a, b, x, y, p, x.len());
    assert(gap_of(a, x, x.len() as int) == gap_of(b, y, x.len() as int));
}

/// Gap `i` of `text`: what is between match `i - 1` and match `i`, or the ends
/// of the text.
pub open spec fn gap_of(text: Seq<char>, found: Seq<Seq<Option<(usize, usize)>>>, i: int) -> Seq<
    char,
> {
    byte_slice(
        text,
        if i == 0 {
            0
        } else {
            (group(found[i - 1], 0)->0).1 as int
        },
        if i == found.len() {
            encode_utf8(text).len() as int
        } else {
            (group(found[i], 0)->0).0 as int
        },
    )
}

proof fn lemma_like_splices(
    a: Seq<char>,
    b: Seq<char>,
    x: Seq<Seq<Option<(usize, usize)>>>,
    y: Seq<Seq<Option<(usize, usize)>>>,
    marks: Seq<Seq<char>>,
    n: nat,
)
    requires
        n <= x.len() == y.len(),
        forall|i: int| 0 <= i <= x.len() ==> #[trigger] gap_of(a, x, i) == gap_of(b, y, i),
    ensures
        spliced_to(a, x, marks, n) == spliced_to(b, y, marks, n),
    decreases n,
{
    if n > 0 {
        lemma_like_splices(a, b, x, y, marks, (n - 1) as nat);
        assert(gap_of(a, x, n - 1) == gap_of(b, y, n - 1));
    }
}

/// Whether `s` has the mark of a status class at index `i`: an angle bracket, a
/// digit from one to five, two letters `x` and an angle bracket.
pub open spec fn shows_class_at(s: Seq<char>, i: int) -> bool {
    &&& 0 <= i
    &&& i + 5 <= s.len()
    &&& s[i] == '<'
    &&& '1' <= s[i + 1] <= '5'
    &&& s[i + 2] == 'x'
    &&& s[i + 3] == 'x'
    &&& s[i + 4] == '>'
}

proof fn lemma_classes_at(s: Seq<char>, k: int) -> (at: Seq<int>)
    requires
        0 <= k <= s.len(),
    ensures
        at.len() == status_classes(s.skip(k)).len(),
        forall|j: int|
            0 <= j < at.len() ==> k <= #[trigger] at[j] && shows_class_at(s, at[j]) && status_classes(
                s.skip(k),
            )[j] == s[at[j] + 1],
        forall|i: int, j: int| 0 <= i < j < at.len() ==> #[trigger] at[i] < #[trigger] at[j],
        forall|i: int| k <= i && #[trigger] shows_class_at(s, i) ==> at.contains(i),
    decreases s.len() - k,
{
    let rest = s.skip(k);
    if rest.len() == 0 {
        Seq::empty()
    } else if starts_with_class(rest) {
        assert(rest.skip(5) == s.skip(k + 5));
        let more = lemma_classes_at(s, k + 5);
        let at = seq![k] + more;
        assert(shows_class_at(s, k));
        assert forall|j: int| 0 <= j < at.len() implies k <= #[trigger] at[j] && shows_class_at(
            s,
            at[j],
        ) && status_classes(rest)[j] == s[at[j] + 1] by {
            if j > 0 {
                assert(at[j] == more[j - 1]);
            }
        }
        assert forall|i: int, j: int| 0 <= i < j < at.len() implies #[trigger] at[i]
            < #[trigger] at[j] by {
            assert(at[j] == more[j - 1]);
            if i > 0 {
                assert(at[i] == more[i - 1]);
            }
        }
        assert forall|i: int| k <= i && #[trigger] shows_class_at(s, i) implies at.contains(i) by {
            if i == k {
                assert(at[0] == i);
            } else {
                assert(i >= k + 5);
                let j = choose|j: int| 0 <= j < more.len() && more[j] == i;
                assert(at[j + 1] == i);
            }
        }
        at
    } else {
        assert(rest.drop_first() == s.skip(k + 1));
        let at = lemma_classes_at(s, k + 1);
        assert(!shows_class_at(s, k));
        at
    }
}

/// The status classes of a masked line are the digits of all its class marks,
/// from left to right, and of nothing else.
pub proof fn law_classes_are_those_of_all_marks(s: Seq<char>) -> (at: Seq<int>)
    ensures
        at.len() == status_classes(s).len(),
        forall|j: int|
            0 <= j < at.len() ==> shows_class_at(s, #[trigger] at[j]) && status_classes(s)[j]
                == s[at[j] + 1],
        forall|i: int, j: int| 0 <= i < j < at.len() ==> #[trigger] at[i] < #[trigger] at[j],
        forall|i: int| #[trigger] shows_class_at(s, i) ==> at.contains(i),
{
    assert(s.skip(0) == s);
    lemma_classes_at(s, 0)
}

/// A line has a key exactly if it shows a status class, and then the key has the
/// name of each of its classes, in their order.
pub proof fn law_keys_name_all_classes(s: Seq<char>)
    ensures
        key_of(s) is None <==> forall|i: int| !#[trigger] shows_class_at(s, i),
        key_of(s) matches Some(key) ==> exists|names: Seq<Seq<char>>|
            key == "http-"@ + #[trigger] joined(names, "+"@) && names.len() == status_classes(
                s,
            ).len() && (forall|j: int|
                0 <= j < names.len() ==> {
                    let c = status_classes(s)[j];
                    &&& c == '1' ==> #[trigger] names[j] == "info"@
                    &&& c == '2' ==> names[j] == "success"@
                    &&& c == '3' ==> names[j] == "redirect"@
                    &&& c == '4' ==> names[j] == "clienterror"@
                    &&& c == '5' ==> names[j] == "servererror"@
                }),
{
    let at = law_classes_are_those_of_all_marks(s);
    if key_of(s) is None {
        assert forall|i: int| !#[trigger] shows_class_at(s, i) by {
            if shows_class_at(s, i) {
                assert(at.contains(i));
            }
        }
    } else {
        assert(shows_class_at(s, at[0]));
        let names = names_of(status_classes(s));
        assert(key_of(s)->0 == "http-"@ + joined(names, "+"@));
        assert forall|j: int| 0 <= j < names.len() implies {
            let c = status_classes(s)[j];
            &&& c == '1' ==> #[trigger] names[j] == "info"@
            &&& c == '2' ==> names[j] == "success"@
            &&& c == '3' ==> names[j] == "redirect"@
            &&& c == '4' ==> names[j] == "clienterror"@
            &&& c == '5' ==> names[j] == "servererror"@
        } by {}
    }
}

/// The clusterer is told the whole masked line, after its key and a space if it
/// has a key.
pub proof fn law_messages_hold_the_masked_line(line: Seq<char>)
    ensures
        key_of(line) is None ==> message_of(line) == line,
        key_of(line) matches Some(key) ==> message_of(line) == key + " "@ + line,
{
}

/// A template of the clusterer comes without the key that it was told, and
/// without white space after the key, and is otherwise as the clusterer has it.
pub proof fn law_templates_come_without_their_key(
    key: Seq<char>,
    blanks: Seq<char>,
    rest: Seq<char>,
    template: Seq<char>,
)
    requires
        Class::Space.admits_all(blanks),
        rest.len() > 0 ==> !Class::Space.admits(rest[0]),
    ensures
        bare_template(Some(key), key + blanks + rest) == rest,
        bare_template(None, template) == template,
        !key.is_prefix_of(template) ==> bare_template(Some(key), template) == stripped_start(
            template,
            Class::Space,
        ),
{
    assert(key + blanks + rest == key + (blanks + rest));
    assert((key + (blanks + rest)).skip(key.len() as int) == blanks + rest);
    assert(key.is_prefix_of(key + (blanks + rest)));
    lemma_strip_start_added(blanks, rest, Class::Space);
}

/// Learning a template keeps what is known of other clusters, until twice as
/// many are known as there may be clusters: then all others are forgotten.
pub proof fn law_learning_keeps_the_others(
    known: Map<usize, Seq<char>>,
    max_clusters: usize,
    cluster: usize,
    template: Seq<char>,
    other: usize,
)
    requires
        other != cluster,
    ensures
        ({
            let after = learned(known, max_clusters, cluster, template);
            &&& known.len() < 2 * max_clusters ==> (after.contains_key(other)
                <==> known.contains_key(other))
            &&& known.len() < 2 * max_clusters && known.contains_key(other) ==> after[other]
                == known[other]
            &&& known.len() >= 2 * max_clusters ==> !after.contains_key(other)
        }),
{
}

/// What the masking expression finds: HTTP statuses, UUIDs, e-mail addresses, IP
/// addresses, hexadecimal and decimal numbers, in this order of preference.
pub proof fn law_mask_finds_these_values()
    ensures
        MASK@
            == r"(?P<STATUS>(?P<PREFIX>\b(?:GET|POST|PUT|PATCH|DELETE|HEAD|OPTIONS)\s+\S+(?:\s+HTTP/[0-9](?:\.[0-9])?\x22?)?\s+|\b(?i:status(?:[ _]?code)?|http)[\s:=]+)(?P<CODE>[1-5])[0-9]{2}\b)|(?P<UUID>\b[0-9a-fA-F]{8}-[0-9a-fA-F]{4}-[0-9a-fA-F]{4}-[0-9a-fA-F]{4}-[0-9a-fA-F]{12}\b)|(?P<EMAIL>[\w.+-]+@[\w-]+\.[\w.-]+)|(?P<IP>\b\d{1,3}\.\d{1,3}\.\d{1,3}\.\d{1,3}\b)|(?P<HEX>\b0x[0-9a-fA-F]+\b)|(?P<NUM>\b\d+\b)"@,
{
}

/// How the clusterer is set up beside what is configured.
pub proof fn law_clusterers_are_set_up_so()
    ensures
        MAX_CHILDREN == 100,
        WILDCARD@ == "<*>"@,
        PARAMETRIZE_NUMERIC,
{
}

} // verus!
