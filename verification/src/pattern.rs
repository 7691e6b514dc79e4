//! Regular expressions, matched by the `regex` crate.
use regex::Regex;
use vstd::prelude::*;
use vstd::utf8::*;

use crate::text::utf8_len;

verus! {

/// `regex::Regex`, a compiled regular expression.
#[verifier::external_type_specification]
#[verifier::external_body]
pub struct ExRegex(regex::Regex);

/// The expression that `re` was compiled from, which `Regex::as_str` gives.
pub uninterp spec fn pattern_of(re: Regex) -> Seq<char>;

/// Whether `Regex::new` compiles `pattern`.
pub uninterp spec fn pattern_is_valid(pattern: Seq<char>) -> bool;

/// Whether `pattern` matches anywhere in `text`: what `Regex::is_match` gives.
pub uninterp spec fn pattern_matches(pattern: Seq<char>, text: Seq<char>) -> bool;

/// The matches of `pattern` in `text`, from left to right, each as the byte
/// ranges of its groups: what `Regex::captures_iter` gives.
pub uninterp spec fn pattern_captures(pattern: Seq<char>, text: Seq<char>) -> Seq<
    Seq<Option<(usize, usize)>>,
>;

/// The byte range of group `k` of a match, if the match has that group.
pub open spec fn group(found: Seq<Option<(usize, usize)>>, k: int) -> Option<(usize, usize)> {
    if 0 <= k < found.len() {
        found[k]
    } else {
        None
    }
}

/// Whether `range` is a range of bytes of `text` that cuts no character.
pub open spec fn cuts_text(range: (usize, usize), text: Seq<char>) -> bool {
    &&& range.0 <= range.1 <= utf8_len(text)
    &&& is_char_boundary(encode_utf8(text), range.0 as int)
    &&& is_char_boundary(encode_utf8(text), range.1 as int)
}

/// Whether each match covers a range of `text`, its groups are ranges of
/// `text`, and the matches follow each other without overlap.
pub open spec fn captures_fit(found: Seq<Seq<Option<(usize, usize)>>>, text: Seq<char>) -> bool {
    &&& forall|i: int| 0 <= i < found.len() ==> group(#[trigger] found[i], 0) is Some
    &&& forall|i: int, k: int|
        0 <= i < found.len() && (#[trigger] group(found[i], k)) is Some ==> cuts_text(
            group(found[i], k)->0,
            text,
        )
    &&& forall|i: int, j: int|
        0 <= i < j < found.len() ==> (group(#[trigger] found[i], 0)->0).1 <= (group(
            #[trigger] found[j],
            0,
        )->0).0
}

/// `Regex::new`: the compiled form of `pattern`, which keeps the pattern that
/// it was made from; `None` stands for its error.
#[verifier::external_body]
pub(crate) fn compile(pattern: &str) -> (re: Option<Regex>)
    ensures
        re is Some <==> pattern_is_valid(pattern@),
        re matches Some(r) ==> pattern_of(r) == pattern@,
{
    Regex::new(pattern).ok()
}

/// `Regex::is_match`: whether `re` matches anywhere in `text`.
#[verifier::external_body]
pub(crate) fn is_match(re: &Regex, text: &str) -> (found: bool)
    ensures
        found == pattern_matches(pattern_of(*re), text@),
{
    re.is_match(text)
}

/// The ranges that `found` holds, as sequences.
pub open spec fn group_lists(found: Seq<Vec<Option<(usize, usize)>>>) -> Seq<
    Seq<Option<(usize, usize)>>,
> {
    found.map_values(|groups: Vec<Option<(usize, usize)>>| groups@)
}

/// `Regex::captures_iter`: all matches of `re` in `text`, each with the byte
/// offsets of its groups, group zero being the whole match. Matches come from
/// left to right and do not overlap; offsets lie on character boundaries. For
/// the masking expression, a match of its status group has a prefix group that
/// the one-byte code group follows at once, as the expression spells out.
#[verifier::external_body]
pub(crate) fn captures(re: &Regex, text: &str) -> (found: Vec<Vec<Option<(usize, usize)>>>)
    ensures
        group_lists(found@) == pattern_captures(pattern_of(*re), text@),
        captures_fit(group_lists(found@), text@),
        pattern_of(*re) == crate::template::MASK@ ==> crate::template::statuses_fit(
            group_lists(found@),
        ),
{
    re.captures_iter(text)
        .map(|found| found.iter().map(|group| group.map(|m| (m.start(), m.end()))).collect())
        .collect()
}

/// The groups of a match are found by their number, and all matches are listed,
/// each in its place.
pub proof fn law_groups_are_found_by_their_number(
    found: Seq<Option<(usize, usize)>>,
    all: Seq<Vec<Option<(usize, usize)>>>,
    k: int,
)
    ensures
        0 <= k < found.len() ==> group(found, k) == found[k],
        k < 0 || k >= found.len() ==> group(found, k) is None,
        group_lists(all).len() == all.len(),
        forall|i: int| 0 <= i < all.len() ==> #[trigger] group_lists(all)[i] == all[i]@,
{
}

} // verus!
