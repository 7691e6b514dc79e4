//! Text as a sequence of characters: trimming, cutting, joining, and the few
//! number formats that the messages need.
use std::sync::Arc;
use vstd::prelude::*;
use vstd::utf8::*;

verus! {

/// `String::push` appends one character.
pub assume_specification[ String::push ](text: &mut String, c: char)
    ensures
        final(text)@ == old(text)@.push(c),
;

/// `Arc::from` copies a text into a shared allocation.
#[verifier::external_body]
pub(crate) fn share(text: &str) -> (shared: Arc<str>)
    ensures
        shared@ == text@,
{
    Arc::from(text)
}

/// The view of an optional text that is owned.
pub open spec fn owned_view(text: Option<String>) -> Option<Seq<char>> {
    match text {
        Some(t) => Some(t@),
        None => None,
    }
}

/// The view of an optional text that is borrowed.
pub open spec fn optional_view(text: Option<&str>) -> Option<Seq<char>> {
    match text {
        Some(t) => Some(t@),
        None => None,
    }
}

/// A set of characters that can be trimmed off the ends of a text.
#[derive(Clone, Copy, Debug)]
pub enum Class {
    /// The characters with the Unicode `White_Space` property.
    Space,
    /// The white space of JSON: space, tab, line feed and carriage return.
    Blank,
    /// The slash.
    Slash,
    /// Carriage return and line feed.
    LineEnd,
}

/// Whether `c` has the Unicode `White_Space` property.
pub open spec fn is_space(c: char) -> bool {
    ||| '\u{9}' <= c <= '\u{d}'
    ||| c == '\u{20}'
    ||| c == '\u{85}'
    ||| c == '\u{a0}'
    ||| c == '\u{1680}'
    ||| '\u{2000}' <= c <= '\u{200a}'
    ||| c == '\u{2028}'
    ||| c == '\u{2029}'
    ||| c == '\u{202f}'
    ||| c == '\u{205f}'
    ||| c == '\u{3000}'
}

impl Class {
    /// Whether the class has the character `c`.
    pub open spec fn admits(self, c: char) -> bool {
        match self {
            Class::Space => is_space(c),
            Class::Blank => c == ' ' || c == '\t' || c == '\n' || c == '\r',
            Class::Slash => c == '/',
            Class::LineEnd => c == '\r' || c == '\n',
        }
    }

    /// Whether the class has all characters of `s`.
    pub open spec fn admits_all(self, s: Seq<char>) -> bool {
        forall|i: int| 0 <= i < s.len() ==> self.admits(#[trigger] s[i])
    }

    /// Whether the class has the character `c`.
    pub fn contains(self, c: char) -> (found: bool)
        ensures
            found == self.admits(c),
    {
        match self {
            Class::Space => ('\u{9}' <= c && c <= '\u{d}') || c == '\u{20}' || c == '\u{85}' || c
                == '\u{a0}' || c == '\u{1680}' || ('\u{2000}' <= c && c <= '\u{200a}') || c
                == '\u{2028}' || c == '\u{2029}' || c == '\u{202f}' || c == '\u{205f}' || c
                == '\u{3000}',
            Class::Blank => c == ' ' || c == '\t' || c == '\n' || c == '\r',
            Class::Slash => c == '/',
            Class::LineEnd => c == '\r' || c == '\n',
        }
    }
}

/// `s` without the characters of `class` that it starts with.
pub open spec fn stripped_start(s: Seq<char>, class: Class) -> Seq<char>
    decreases s.len(),
{
    if s.len() > 0 && class.admits(s[0]) {
        stripped_start(s.drop_first(), class)
    } else {
        s
    }
}

/// `s` without the characters of `class` that it ends with.
pub open spec fn stripped_end(s: Seq<char>, class: Class) -> Seq<char>
    decreases s.len(),
{
    if s.len() > 0 && class.admits(s.last()) {
        stripped_end(s.drop_last(), class)
    } else {
        s
    }
}

/// `s` without the characters of `class` around it.
pub open spec fn stripped(s: Seq<char>, class: Class) -> Seq<char> {
    stripped_end(stripped_start(s, class), class)
}

/// `s` without the white space around it.
pub open spec fn trimmed(s: Seq<char>) -> Seq<char> {
    stripped(s, Class::Space)
}

/// Characters of `class` that are added at the end are stripped.
pub proof fn lemma_strip_end_added(s: Seq<char>, after: Seq<char>, class: Class)
    requires
        class.admits_all(after),
    ensures
        stripped_end(s + after, class) == stripped_end(s, class),
    decreases after.len(),
{
    if after.len() == 0 {
        assert(s + after == s);
    } else {
        let rest = after.drop_last();
        assert((s + after).drop_last() == s + rest);
        assert((s + after).last() == after.last());
        assert(class.admits(after[after.len() - 1]));
        lemma_strip_end_added(s, rest, class);
    }
}

/// Characters of `class` that are added at the start are stripped.
pub proof fn lemma_strip_start_added(before: Seq<char>, s: Seq<char>, class: Class)
    requires
        class.admits_all(before),
    ensures
        stripped_start(before + s, class) == stripped_start(s, class),
    decreases before.len(),
{
    if before.len() == 0 {
        assert(before + s == s);
    } else {
        let rest = before.drop_first();
        assert((before + s).drop_first() == rest + s);
        assert(class.admits(before[0]));
        lemma_strip_start_added(rest, s, class);
    }
}

/// Stripping the start of a text leaves what is added at its end.
proof fn lemma_strip_start_keeps_end(s: Seq<char>, after: Seq<char>, class: Class)
    requires
        class.admits_all(after),
    ensures
        stripped(s + after, class) == stripped(s, class),
    decreases s.len(),
{
    if s.len() == 0 {
        assert(s + after == after + Seq::<char>::empty());
        lemma_strip_start_added(after, Seq::empty(), class);
        assert(s == Seq::<char>::empty());
    } else if class.admits(s[0]) {
        assert((s + after)[0] == s[0]);
        assert((s + after).drop_first() == s.drop_first() + after);
        lemma_strip_start_keeps_end(s.drop_first(), after, class);
    } else {
        assert((s + after)[0] == s[0]);
        lemma_strip_end_added(s, after, class);
    }
}

/// Characters of `class` that are added around a text are stripped.
pub proof fn lemma_strip_added(before: Seq<char>, s: Seq<char>, after: Seq<char>, class: Class)
    requires
        class.admits_all(before),
        class.admits_all(after),
    ensures
        stripped(before + s + after, class) == stripped(s, class),
{
    assert(before + s + after == before + (s + after));
    lemma_strip_start_added(before, s + after, class);
    lemma_strip_start_keeps_end(s, after, class);
}

/// The length of `s` in UTF-8, in bytes.
pub open spec fn utf8_len(s: Seq<char>) -> nat {
    encode_utf8(s).len()
}

/// The longest beginning of `s` that takes at most `max` bytes in UTF-8.
pub open spec fn cut(s: Seq<char>, max: nat) -> Seq<char>
    decreases s.len(),
{
    if s.len() == 0 || utf8_len(s) <= max {
        s
    } else {
        cut(s.drop_last(), max)
    }
}

/// The characters of `s` in bytes `from` to `to` of its UTF-8 form.
pub open spec fn byte_slice(s: Seq<char>, from: int, to: int) -> Seq<char> {
    decode_utf8(encode_utf8(s).subrange(from, to))
}

/// The characters of `text`, one by one.
pub fn chars_of(text: &str) -> (chars: Vec<char>)
    ensures
        chars@ == text@,
{
    let mut chars: Vec<char> = Vec::new();
    for c in it: text.chars()
        invariant
            chars@ == it.seq().take(it.index()),
            it.seq() == text@,
    {
        chars.push(c);
    }
    assert(text@.take(text@.len() as int) == text@);
    chars
}

/// The text made of `chars` from index `from` up to index `to`.
pub fn text_of(chars: &Vec<char>, from: usize, to: usize) -> (text: String)
    requires
        from <= to <= chars@.len(),
    ensures
        text@ == chars@.subrange(from as int, to as int),
{
    let mut text = String::new();
    let mut i: usize = from;
    while i < to
        invariant
            from <= i <= to <= chars@.len(),
            text@ == chars@.subrange(from as int, i as int),
        decreases to - i,
    {
        text.push(chars[i]);
        i += 1;
    }
    text
}

/// `text` without the characters of `class` that it starts with.
pub fn strip_start(text: &str, class: Class) -> (rest: &str)
    ensures
        rest@ == stripped_start(text@, class),
{
    let chars = chars_of(text);
    let mut i: usize = 0;
    assert(text@.skip(0) == text@);
    while i < chars.len() && class.contains(chars[i])
        invariant
            i <= chars@.len(),
            chars@ == text@,
            stripped_start(text@, class) == stripped_start(text@.skip(i as int), class),
        decreases chars@.len() - i,
    {
        assert(text@.skip(i as int).drop_first() == text@.skip(i + 1));
        i += 1;
    }
    text.substring_char(i, chars.len())
}

/// `text` without the characters of `class` that it ends with.
pub fn strip_end(text: &str, class: Class) -> (rest: &str)
    ensures
        rest@ == stripped_end(text@, class),
{
    let chars = chars_of(text);
    let mut end: usize = chars.len();
    assert(text@.take(end as int) == text@);
    while end > 0 && class.contains(chars[end - 1])
        invariant
            end <= chars@.len(),
            chars@ == text@,
            stripped_end(text@, class) == stripped_end(text@.take(end as int), class),
        decreases end,
    {
        assert(text@.take(end as int).drop_last() == text@.take(end - 1));
        end -= 1;
    }
    text.substring_char(0, end)
}

/// `text` without the characters of `class` around it.
pub fn strip(text: &str, class: Class) -> (rest: &str)
    ensures
        rest@ == stripped(text@, class),
{
    strip_end(strip_start(text, class), class)
}

/// `text` without the white space around it.
pub fn trim(text: &str) -> (rest: &str)
    ensures
        rest@ == trimmed(text@),
{
    strip(text, Class::Space)
}

proof fn lemma_encode_push(s: Seq<char>, c: char)
    ensures
        encode_utf8(s.push(c)) == encode_utf8(s) + encode_scalar(c as u32),
    decreases s.len(),
{
    reveal_with_fuel(encode_utf8, 2);
    if s.len() == 0 {
        assert(s.push(c).drop_first() == Seq::<char>::empty());
        assert(encode_utf8(s.push(c)) == encode_scalar(c as u32) + Seq::<u8>::empty());
    } else {
        assert(s.push(c).drop_first() == s.drop_first().push(c));
        lemma_encode_push(s.drop_first(), c);
    }
}

/// The UTF-8 of two texts is that of one after that of the other.
pub proof fn lemma_utf8_add(a: Seq<char>, b: Seq<char>)
    ensures
        encode_utf8(a + b) == encode_utf8(a) + encode_utf8(b),
    decreases b.len(),
{
    if b.len() == 0 {
        assert(a + b == a);
        assert(encode_utf8(b) == Seq::<u8>::empty());
    } else {
        let rest = b.drop_last();
        assert(a + b == (a + rest).push(b.last()));
        assert(b == rest.push(b.last()));
        lemma_encode_push(a + rest, b.last());
        lemma_encode_push(rest, b.last());
        lemma_utf8_add(a, rest);
    }
}

/// UTF-8 lengths add up.
pub proof fn lemma_utf8_len_add(a: Seq<char>, b: Seq<char>)
    ensures
        utf8_len(a + b) == utf8_len(a) + utf8_len(b),
{
    lemma_utf8_add(a, b);
}

/// The cut of `s` is its beginning of `k` characters if that fits and one more
/// character would not.
proof fn lemma_cut_at(s: Seq<char>, k: int, max: nat)
    requires
        0 <= k <= s.len(),
        utf8_len(s.take(k)) <= max,
        k < s.len() ==> utf8_len(s.take(k + 1)) > max,
    ensures
        cut(s, max) == s.take(k),
    decreases s.len() - k,
{
    if k == s.len() {
        assert(s.take(k) == s);
    } else {
        let shorter = s.drop_last();
        assert(s == s.take(k + 1) + s.skip(k + 1));
        lemma_utf8_len_add(s.take(k + 1), s.skip(k + 1));
        assert(shorter.take(k) == s.take(k));
        if k + 1 < s.len() {
            assert(shorter.take(k + 1) == s.take(k + 1));
        }
        lemma_cut_at(shorter, k, max);
    }
}

/// A cut text is a beginning of the text and keeps to the limit.
pub proof fn lemma_cut_fits(s: Seq<char>, max: nat)
    ensures
        utf8_len(cut(s, max)) <= max,
        cut(s, max).is_prefix_of(s),
    decreases s.len(),
{
    if s.len() == 0 {
        assert(s == Seq::<char>::empty());
    } else if utf8_len(s) > max {
        lemma_cut_fits(s.drop_last(), max);
    }
}

/// The number of bytes that `c` takes in UTF-8.
fn width(c: char) -> (bytes: usize)
    ensures
        bytes == encode_scalar(c as u32).len(),
        1 <= bytes <= 4,
{
    let code: u32 = c as u32;
    if code <= 0x7f {
        1
    } else if code <= 0x7ff {
        2
    } else if code <= 0xffff {
        3
    } else {
        4
    }
}

/// The longest beginning of `text` that takes at most `max` bytes.
pub fn truncate(text: &str, max: usize) -> (kept: &str)
    ensures
        kept@ == cut(text@, max as nat),
{
    if text.as_bytes().len() <= max {
        return text;
    }
    let mut count: usize = 0;
    let mut used: usize = 0;
    let chars = chars_of(text);
    assert(text@.take(0) == Seq::<char>::empty());
    while count < chars.len() && width(chars[count]) <= max - used
        invariant
            count <= chars@.len(),
            chars@ == text@,
            used <= max,
            used == utf8_len(text@.take(count as int)),
        decreases chars@.len() - count,
    {
        proof {
            assert(text@.take(count + 1) == text@.take(count as int).push(text@[count as int]));
            lemma_encode_push(text@.take(count as int), text@[count as int]);
        }
        used += width(chars[count]);
        count += 1;
    }
    proof {
        if count < text@.len() {
            assert(text@.take(count + 1) == text@.take(count as int).push(text@[count as int]));
            lemma_encode_push(text@.take(count as int), text@[count as int]);
        }
        lemma_cut_at(text@, count as int, max as nat);
    }
    text.substring_char(0, count)
}

/// Whether two texts are the same.
pub fn same(a: &str, b: &str) -> (equal: bool)
    ensures
        equal == (a@ == b@),
{
    let x = a.as_bytes();
    let y = b.as_bytes();
    if x.len() != y.len() {
        return false;
    }
    let mut i: usize = 0;
    while i < x.len()
        invariant
            i <= x@.len() == y@.len(),
            x@ == encode_utf8(a@),
            y@ == encode_utf8(b@),
            forall|j: int| 0 <= j < i ==> x@[j] == y@[j],
        decreases x@.len() - i,
    {
        if x[i] != y[i] {
            return false;
        }
        i += 1;
    }
    proof {
        assert(x@ == y@);
        encode_utf8_decode_utf8(a@);
        encode_utf8_decode_utf8(b@);
    }
    true
}

/// A character boundary of a valid byte sequence is one of each longer
/// beginning that ends at a boundary.
proof fn lemma_boundary_in_prefix(bytes: Seq<u8>, from: int, to: int)
    requires
        valid_utf8(bytes),
        0 <= from <= to <= bytes.len(),
        is_char_boundary(bytes, from),
        is_char_boundary(bytes, to),
    ensures
        valid_utf8(bytes.subrange(0, to)),
        is_char_boundary(bytes.subrange(0, to), from),
{
    let prefix = bytes.subrange(0, to);
    valid_utf8_split(bytes, to);
    if from == to {
        is_char_boundary_start_end_of_seq(prefix);
    } else {
        is_char_boundary_iff_not_is_continuation_byte(bytes, from);
        is_char_boundary_iff_not_is_continuation_byte(prefix, from);
        assert(prefix[from] == bytes[from]);
    }
}

/// Bytes `from` to `to` of `text`, both of which must be character boundaries.
pub fn slice(text: &str, from: usize, to: usize) -> (part: &str)
    requires
        from <= to <= utf8_len(text@),
        is_char_boundary(encode_utf8(text@), from as int),
        is_char_boundary(encode_utf8(text@), to as int),
    ensures
        part@ == byte_slice(text@, from as int, to as int),
        utf8_len(part@) == to - from,
{
    let ghost bytes = encode_utf8(text@);
    proof {
        encode_utf8_valid_utf8(text@);
        lemma_boundary_in_prefix(bytes, from as int, to as int);
    }
    let head = text.split_at(to).0;
    let part = head.split_at(from).1;
    proof {
        assert(encode_utf8(part@) == bytes.subrange(from as int, to as int));
        encode_utf8_decode_utf8(part@);
    }
    part
}

/// Whether `text` starts with the character `c`.
pub fn starts_with(text: &str, c: char) -> (starts: bool)
    ensures
        starts == (text@.len() > 0 && text@[0] == c),
{
    let mut iter = text.chars();
    match iter.next() {
        Some(first) => first == c,
        None => false,
    }
}

/// `s` without the beginning `prefix`, if it has that beginning.
pub open spec fn without_prefix(s: Seq<char>, prefix: Seq<char>) -> Option<Seq<char>> {
    if prefix.is_prefix_of(s) {
        Some(s.skip(prefix.len() as int))
    } else {
        None
    }
}

/// `text` without the beginning `prefix`, if it has that beginning.
pub fn strip_prefix<'a>(text: &'a str, prefix: &str) -> (rest: Option<&'a str>)
    ensures
        rest is Some <==> without_prefix(text@, prefix@) is Some,
        rest matches Some(r) ==> without_prefix(text@, prefix@) == Some(r@),
{
    let whole = chars_of(text);
    let start = chars_of(prefix);
    if start.len() > whole.len() {
        return None;
    }
    let mut i: usize = 0;
    while i < start.len()
        invariant
            i <= start@.len() <= whole@.len(),
            whole@ == text@,
            start@ == prefix@,
            forall|j: int| 0 <= j < i ==> start@[j] == whole@[j],
        decreases start@.len() - i,
    {
        if start[i] != whole[i] {
            assert(prefix@[i as int] != text@[i as int]);
            return None;
        }
        i += 1;
    }
    assert(prefix@.is_prefix_of(text@));
    Some(text.substring_char(start.len(), whole.len()))
}

/// The decimal digit for `d`, which must be below ten.
pub open spec fn digit(d: nat) -> char {
    (('0' as u32) + d) as char
}

/// `n` in decimal, without leading zeros.
pub open spec fn decimal_text(n: nat) -> Seq<char>
    decreases n,
{
    if n < 10 {
        seq![digit(n)]
    } else {
        decimal_text(n / 10).push(digit(n % 10))
    }
}

/// `n` in decimal, without leading zeros.
pub fn decimal(n: u64) -> (text: String)
    ensures
        text@ == decimal_text(n as nat),
    decreases n,
{
    let mut text = if n < 10 {
        String::new()
    } else {
        decimal(n / 10)
    };
    text.push((48u8 + (n % 10) as u8) as char);
    text
}

/// The lower-case hexadecimal digit for `d`, which must be below sixteen.
pub open spec fn hex_digit(d: nat) -> char {
    if d < 10 {
        digit(d)
    } else {
        (('a' as u32) + (d - 10)) as char
    }
}

/// The last `count` hexadecimal digits of `n`.
pub open spec fn hex_text(n: nat, count: nat) -> Seq<char>
    decreases count,
{
    if count == 0 {
        Seq::empty()
    } else {
        hex_text(n / 16, (count - 1) as nat).push(hex_digit(n % 16))
    }
}

/// The last `count` hexadecimal digits of `n`.
pub fn hex(n: u64, count: u8) -> (text: String)
    ensures
        text@ == hex_text(n as nat, count as nat),
    decreases count,
{
    if count == 0 {
        return String::new();
    }
    let mut text = hex(n / 16, count - 1);
    let d: u8 = (n % 16) as u8;
    if d < 10 {
        text.push((48u8 + d) as char);
    } else {
        text.push((97u8 + (d - 10)) as char);
    }
    text
}

/// Whether `c` is a lower-case hexadecimal digit.
pub open spec fn is_hex_digit(c: char) -> bool {
    '0' <= c <= '9' || 'a' <= c <= 'f'
}

/// The number of numbers with `count` hexadecimal digits.
spec fn hex_range(count: nat) -> nat
    decreases count,
{
    if count == 0 {
        1
    } else {
        16 * hex_range((count - 1) as nat)
    }
}

/// The last `count` hexadecimal digits are that many lower-case ones.
pub proof fn lemma_hex_text(n: nat, count: nat)
    ensures
        hex_text(n, count).len() == count,
        forall|i: int| 0 <= i < count ==> is_hex_digit(#[trigger] hex_text(n, count)[i]),
    decreases count,
{
    if count > 0 {
        let head = hex_text(n / 16, (count - 1) as nat);
        lemma_hex_text(n / 16, (count - 1) as nat);
        assert(is_hex_digit(hex_digit(n % 16)));
        assert forall|i: int| 0 <= i < count implies is_hex_digit(#[trigger] hex_text(n, count)[i]) by {
            if i < count - 1 {
                assert(hex_text(n, count)[i] == head[i]);
            }
        }
    }
}

proof fn lemma_hex_injective(a: nat, b: nat, count: nat)
    requires
        a < hex_range(count),
        b < hex_range(count),
        hex_text(a, count) == hex_text(b, count),
    ensures
        a == b,
    decreases count,
{
    if count > 0 {
        let (x, y) = (hex_text(a / 16, (count - 1) as nat), hex_text(b / 16, (count - 1) as nat));
        assert(x == hex_text(a, count).drop_last());
        assert(y == hex_text(b, count).drop_last());
        assert(hex_text(a, count).last() == hex_digit(a % 16));
        assert(hex_text(b, count).last() == hex_digit(b % 16));
        lemma_hex_injective(a / 16, b / 16, (count - 1) as nat);
    }
}

/// Sixteen hexadecimal digits tell a number of 64 bits.
pub proof fn lemma_hex_tells(a: u64, b: u64)
    requires
        hex_text(a as nat, 16) == hex_text(b as nat, 16),
    ensures
        a == b,
{
    reveal_with_fuel(hex_range, 17);
    lemma_hex_injective(a as nat, b as nat, 16);
}

/// The views of a list of texts.
pub open spec fn views(list: Seq<String>) -> Seq<Seq<char>> {
    list.map_values(|text: String| text@)
}

/// The texts of `parts` with `separator` between neighbours.
pub open spec fn joined(parts: Seq<Seq<char>>, separator: Seq<char>) -> Seq<char>
    decreases parts.len(),
{
    if parts.len() == 0 {
        Seq::empty()
    } else if parts.len() == 1 {
        parts[0]
    } else {
        joined(parts.drop_last(), separator) + separator + parts.last()
    }
}

/// The texts of `parts` with `separator` between neighbours.
pub fn join_texts(parts: &Vec<String>, separator: &str) -> (text: String)
    ensures
        text@ == joined(views(parts@), separator@),
{
    let mut text = String::new();
    let mut i: usize = 0;
    while i < parts.len()
        invariant
            i <= parts@.len(),
            text@ == joined(views(parts@).take(i as int), separator@),
        decreases parts@.len() - i,
    {
        if i > 0 {
            text.append(separator);
        }
        text.append(parts[i].as_str());
        proof {
            let taken = views(parts@).take(i + 1);
            assert(taken.drop_last() == views(parts@).take(i as int));
            assert(taken.last() == parts@[i as int]@);
            if i == 0 {
                assert(text@ == parts@[0]@);
            }
        }
        i += 1;
    }
    assert(views(parts@).take(parts@.len() as int) == views(parts@));
    text
}

/// The index of the first `c` in `s`, or the length of `s` if it has none.
pub open spec fn first_index(s: Seq<char>, c: char) -> int
    decreases s.len(),
{
    if s.len() == 0 || s[0] == c {
        0
    } else {
        1 + first_index(s.drop_first(), c)
    }
}

/// The first occurrence of `c` splits `s` as nothing before it is `c`.
pub proof fn lemma_first_index(s: Seq<char>, c: char)
    ensures
        0 <= first_index(s, c) <= s.len(),
        first_index(s, c) < s.len() ==> s[first_index(s, c)] == c,
        forall|j: int| 0 <= j < first_index(s, c) ==> s[j] != c,
    decreases s.len(),
{
    if s.len() > 0 && s[0] != c {
        let rest = s.drop_first();
        lemma_first_index(rest, c);
        assert forall|j: int| 0 <= j < first_index(s, c) implies s[j] != c by {
            if j > 0 {
                assert(rest[j - 1] == s[j]);
            }
        }
    }
}

/// The parts of `s` before and after its first `c`, if it has one.
pub open spec fn split_first(s: Seq<char>, c: char) -> Option<(Seq<char>, Seq<char>)> {
    let at = first_index(s, c);
    if at < s.len() {
        Some((s.take(at), s.skip(at + 1)))
    } else {
        None
    }
}

/// The parts of `text` before and after its first `c`, if it has one.
pub fn split_once(text: &str, c: char) -> (parts: Option<(&str, &str)>)
    ensures
        parts is Some <==> split_first(text@, c) is Some,
        parts matches Some(p) ==> split_first(text@, c) == Some((p.0@, p.1@)),
{
    let chars = chars_of(text);
    let mut i: usize = 0;
    proof {
        lemma_first_index(text@, c);
    }
    while i < chars.len()
        invariant
            i <= chars@.len(),
            chars@ == text@,
            i <= first_index(text@, c) <= text@.len(),
            first_index(text@, c) < text@.len() ==> text@[first_index(text@, c)] == c,
            forall|j: int| 0 <= j < first_index(text@, c) ==> text@[j] != c,
        decreases chars@.len() - i,
    {
        if chars[i] == c {
            assert(first_index(text@, c) == i);
            let before = text.substring_char(0, i);
            let after = text.substring_char(i + 1, chars.len());
            return Some((before, after));
        }
        i += 1;
    }
    None
}

/// `line` without one carriage return at its end.
pub open spec fn without_return(line: Seq<char>) -> Seq<char> {
    if line.len() > 0 && line.last() == '\r' {
        line.drop_last()
    } else {
        line
    }
}

/// The lines of `s`: each ends at a line feed, with or without a carriage
/// return before it, or at the end of `s`.
pub open spec fn lines_of(s: Seq<char>) -> Seq<Seq<char>>
    decreases s.len(),
{
    if s.len() == 0 {
        Seq::empty()
    } else {
        let end = first_index(s, '\n');
        if 0 <= end < s.len() {
            seq![without_return(s.take(end))] + lines_of(s.skip(end + 1))
        } else {
            seq![s]
        }
    }
}

proof fn lemma_first_index_after(s: Seq<char>, c: char, k: int)
    requires
        0 <= k <= s.len(),
        forall|j: int| 0 <= j < k ==> s[j] != c,
    ensures
        first_index(s, c) == k + first_index(s.skip(k), c),
    decreases k,
{
    if k == 0 {
        assert(s.skip(0) == s);
    } else {
        assert(s.drop_first().skip(k - 1) == s.skip(k));
        lemma_first_index_after(s.drop_first(), c, k - 1);
    }
}

/// The lines of `text`, without their line ends.
pub fn split_lines(text: &str) -> (lines: Vec<String>)
    ensures
        views(lines@) == lines_of(text@),
{
    let chars = chars_of(text);
    let mut lines: Vec<String> = Vec::new();
    let mut start: usize = 0;
    let mut i: usize = 0;
    assert(text@.skip(0) == text@);
    while i < chars.len()
        invariant
            start <= i <= chars@.len(),
            chars@ == text@,
            lines_of(text@) == views(lines@) + lines_of(text@.skip(start as int)),
            forall|j: int| start <= j < i ==> text@[j] != '\n',
        decreases chars@.len() - i,
    {
        if chars[i] == '\n' {
            let ghost rest = text@.skip(start as int);
            let ghost before = views(lines@);
            proof {
                lemma_first_index_after(rest, '\n', i - start);
                assert(rest.skip(i - start)[0] == '\n');
                assert(rest.take(i - start) == text@.subrange(start as int, i as int));
                assert(rest.skip(i - start + 1) == text@.skip(i + 1));
            }
            let end: usize = if i > start && chars[i - 1] == '\r' {
                i - 1
            } else {
                i
            };
            lines.push(text_of(&chars, start, end));
            proof {
                let line = without_return(rest.take(i - start));
                assert(lines@.last()@ == line);
                assert(views(lines@) == before + seq![line]);
            }
            start = i + 1;
        }
        i += 1;
    }
    if start < chars.len() {
        let ghost rest = text@.skip(start as int);
        let ghost before = views(lines@);
        proof {
            lemma_first_index_after(rest, '\n', rest.len() as int);
            assert(rest == text@.subrange(start as int, text@.len() as int));
        }
        lines.push(text_of(&chars, start, chars.len()));
        assert(views(lines@) == before + seq![rest]);
    } else {
        assert(views(lines@) == lines_of(text@));
    }
    lines
}

/// The white space that is trimmed is that of Unicode, by code point; JSON and
/// line ends have less of it.
pub proof fn law_classes_hold_their_characters(c: char)
    ensures
        Class::Space.admits(c) <==> {
            let n = c as u32;
            ||| 9 <= n <= 13 || n == 32 || n == 133 || n == 160 || n == 5760
            ||| 8192 <= n <= 8202 || n == 8232 || n == 8233 || n == 8239 || n == 8287 || n == 12288
        },
        Class::Blank.admits(c) <==> c as u32 == 32 || c as u32 == 9 || c as u32 == 10 || c as u32
            == 13,
        Class::Slash.admits(c) <==> c as u32 == 47,
        Class::LineEnd.admits(c) <==> c as u32 == 13 || c as u32 == 10,
{
}

/// Stripping the start takes off characters of the class, and stops at the first
/// that is none.
pub proof fn law_stripping_the_start_stops_at_others(s: Seq<char>, class: Class) -> (taken: Seq<
    char,
>)
    ensures
        s == taken + stripped_start(s, class),
        class.admits_all(taken),
        stripped_start(s, class).len() > 0 ==> !class.admits(stripped_start(s, class)[0]),
    decreases s.len(),
{
    if s.len() > 0 && class.admits(s[0]) {
        let rest = law_stripping_the_start_stops_at_others(s.drop_first(), class);
        let taken = seq![s[0]] + rest;
        let left = stripped_start(s, class);
        assert(s.drop_first() == rest + left);
        assert(s == seq![s[0]] + s.drop_first());
        assert(seq![s[0]] + (rest + left) == taken + left);
        assert forall|i: int| 0 <= i < taken.len() implies class.admits(#[trigger] taken[i]) by {
            if i > 0 {
                assert(taken[i] == rest[i - 1]);
            }
        }
        taken
    } else {
        assert(s == Seq::<char>::empty() + s);
        Seq::empty()
    }
}

/// Stripping the end takes off characters of the class, and stops at the last
/// that is none.
pub proof fn law_stripping_the_end_stops_at_others(s: Seq<char>, class: Class) -> (taken: Seq<char>)
    ensures
        s == stripped_end(s, class) + taken,
        class.admits_all(taken),
        stripped_end(s, class).len() > 0 ==> !class.admits(stripped_end(s, class).last()),
    decreases s.len(),
{
    if s.len() > 0 && class.admits(s.last()) {
        let rest = law_stripping_the_end_stops_at_others(s.drop_last(), class);
        let taken = rest.push(s.last());
        let left = stripped_end(s, class);
        assert(s.drop_last() == left + rest);
        assert(s == s.drop_last().push(s.last()));
        assert((left + rest).push(s.last()) == left + taken);
        assert forall|i: int| 0 <= i < taken.len() implies class.admits(#[trigger] taken[i]) by {
            if i < rest.len() {
                assert(taken[i] == rest[i]);
            }
        }
        taken
    } else {
        assert(s == s + Seq::<char>::empty());
        Seq::empty()
    }
}

/// Stripping takes characters of the class off both ends, and nothing else:
/// what is left starts and ends with others. Trimming does so with white space.
pub proof fn law_stripping_leaves_what_is_between(s: Seq<char>, class: Class) -> (taken: (
    Seq<char>,
    Seq<char>,
))
    ensures
        s == taken.0 + stripped(s, class) + taken.1,
        class.admits_all(taken.0),
        class.admits_all(taken.1),
        stripped(s, class).len() > 0 ==> !class.admits(stripped(s, class)[0]) && !class.admits(
            stripped(s, class).last(),
        ),
        trimmed(s) == stripped(s, Class::Space),
{
    let before = law_stripping_the_start_stops_at_others(s, class);
    let middle = stripped_start(s, class);
    let after = law_stripping_the_end_stops_at_others(middle, class);
    assert(s == before + stripped(s, class) + after);
    if stripped(s, class).len() > 0 {
        assert(stripped(s, class)[0] == middle[0]);
    }
    (before, after)
}

/// A cut text is a beginning of the text that takes no more bytes than allowed,
/// and the longest one: the next character would not fit.
pub proof fn law_cuts_keep_the_longest_beginning(s: Seq<char>, max: nat)
    ensures
        cut(s, max).is_prefix_of(s),
        encode_utf8(cut(s, max)).len() <= max,
        cut(s, max).len() < s.len() ==> encode_utf8(s.take(cut(s, max).len() as int + 1)).len()
            > max,
        encode_utf8(s).len() <= max ==> cut(s, max) == s,
    decreases s.len(),
{
    if s.len() == 0 {
        assert(s == Seq::<char>::empty());
    } else if utf8_len(s) > max {
        let shorter = s.drop_last();
        law_cuts_keep_the_longest_beginning(shorter, max);
        let n = cut(s, max).len() as int;
        if n < shorter.len() {
            assert(s.take(n + 1) == shorter.take(n + 1));
        } else {
            assert(s.take(n + 1) == s);
        }
    }
}

/// A slice holds just the bytes from its start to its end.
pub proof fn law_slices_hold_their_bytes(s: Seq<char>, from: int, to: int)
    requires
        0 <= from <= to <= encode_utf8(s).len(),
        is_char_boundary(encode_utf8(s), from),
        is_char_boundary(encode_utf8(s), to),
    ensures
        encode_utf8(byte_slice(s, from, to)) == encode_utf8(s).subrange(from, to),
{
    let bytes = encode_utf8(s);
    encode_utf8_valid_utf8(s);
    lemma_boundary_in_prefix(bytes, from, to);
    let head = bytes.subrange(0, to);
    valid_utf8_split(head, from);
    assert(head.subrange(from, head.len() as int) == bytes.subrange(from, to));
    decode_utf8_encode_utf8(bytes.subrange(from, to));
}

/// A text is without a beginning exactly what follows the beginning.
pub proof fn law_prefixes_are_taken_off_whole(s: Seq<char>, prefix: Seq<char>, rest: Seq<char>)
    ensures
        without_prefix(s, prefix) == Some(rest) <==> s == prefix + rest,
        without_prefix(prefix + rest, prefix) == Some(rest),
        without_prefix(s, prefix) is None <==> !(prefix.len() <= s.len() && s.take(
            prefix.len() as int,
        ) == prefix),
{
    assert((prefix + rest).skip(prefix.len() as int) == rest);
    if prefix.is_prefix_of(s) {
        assert(s == prefix + s.skip(prefix.len() as int));
        assert(s.take(prefix.len() as int) == prefix);
    }
    if prefix.len() <= s.len() && s.take(prefix.len() as int) == prefix {
        assert(prefix.is_prefix_of(s));
    }
    if s == prefix + rest {
        assert(prefix.is_prefix_of(s));
    }
    assert(prefix.is_prefix_of(prefix + rest));
}

/// The number that the decimal digits `s` stand for.
pub open spec fn decimal_value(s: Seq<char>) -> int
    decreases s.len(),
{
    if s.len() == 0 {
        0
    } else {
        10 * decimal_value(s.drop_last()) + (s.last() as u32 - 48)
    }
}

/// A number in decimal reads as the number: all its characters are digits, the
/// first is no zero unless the number is, and they stand for the number.
pub proof fn law_decimals_read_as_the_number(n: nat)
    ensures
        decimal_value(decimal_text(n)) == n,
        decimal_text(n).len() > 0,
        forall|i: int| 0 <= i < decimal_text(n).len() ==> '0' <= #[trigger] decimal_text(n)[i] <= '9',
        decimal_text(n)[0] == '0' <==> n == 0,
    decreases n,
{
    let s = decimal_text(n);
    if n < 10 {
        assert(s.drop_last() == Seq::<char>::empty());
        assert(decimal_value(s.drop_last()) == 0);
        assert(s.last() as u32 == 48 + n);
    } else {
        let head = decimal_text(n / 10);
        law_decimals_read_as_the_number(n / 10);
        assert(s.drop_last() == head);
        assert(s.last() as u32 == 48 + n % 10);
        assert(s[0] == head[0]);
        assert forall|i: int| 0 <= i < s.len() implies '0' <= #[trigger] s[i] <= '9' by {
            if i < head.len() {
                assert(s[i] == head[i]);
            }
        }
    }
}

/// The value of a lower-case hexadecimal digit.
pub open spec fn hex_digit_value(c: char) -> int {
    if '0' <= c <= '9' {
        c as u32 - 48
    } else {
        c as u32 - 87
    }
}

/// The number that the hexadecimal digits `s` stand for.
pub open spec fn hex_value(s: Seq<char>) -> int
    decreases s.len(),
{
    if s.len() == 0 {
        0
    } else {
        16 * hex_value(s.drop_last()) + hex_digit_value(s.last())
    }
}

proof fn lemma_hex_reads(n: nat, count: nat)
    requires
        n < hex_range(count),
    ensures
        hex_value(hex_text(n, count)) == n,
    decreases count,
{
    if count > 0 {
        let s = hex_text(n, count);
        assert(s.drop_last() == hex_text(n / 16, (count - 1) as nat));
        lemma_hex_reads(n / 16, (count - 1) as nat);
        assert(hex_digit_value(hex_digit(n % 16)) == n % 16);
    }
}

/// Sixteen hexadecimal digits of a number of 64 bits read as the number.
pub proof fn law_hexadecimals_read_as_the_number(n: u64)
    ensures
        hex_value(hex_text(n as nat, 16)) == n,
        hex_text(n as nat, 16).len() == 16,
        forall|i: int| 0 <= i < 16 ==> is_hex_digit(#[trigger] hex_text(n as nat, 16)[i]),
{
    reveal_with_fuel(hex_range, 17);
    lemma_hex_text(n as nat, 16);
    lemma_hex_reads(n as nat, 16);
}

/// Joining puts the separator between neighbours and nowhere else: one text is
/// joined to itself, and two lists to their joined texts around one separator.
pub proof fn law_joining_separates_neighbours(
    a: Seq<Seq<char>>,
    b: Seq<Seq<char>>,
    separator: Seq<char>,
)
    ensures
        a.len() == 0 ==> joined(a, separator) == Seq::<char>::empty(),
        a.len() == 1 ==> joined(a, separator) == a[0],
        a.len() > 0 && b.len() > 0 ==> joined(a + b, separator) == joined(a, separator) + separator
            + joined(b, separator),
    decreases b.len(),
{
    if a.len() > 0 && b.len() > 0 {
        let whole = a + b;
        assert(whole.drop_last() == a + b.drop_last());
        assert(whole.last() == b.last());
        if b.len() == 1 {
            assert(a + b.drop_last() == a);
        } else {
            law_joining_separates_neighbours(a, b.drop_last(), separator);
            assert(joined(whole, separator) == joined(a, separator) + separator + joined(
                b.drop_last(),
                separator,
            ) + separator + b.last());
            assert(joined(whole, separator) == joined(a, separator) + separator + joined(
                b,
                separator,
            ));
        }
    }
}

/// A text is split at the first occurrence of a character, so the part before it
/// does not have the character, and not at all if it has none.
pub proof fn law_splits_are_at_the_first(s: Seq<char>, c: char)
    ensures
        split_first(s, c) is None <==> !s.contains(c),
        split_first(s, c) matches Some((before, after)) ==> s == before.push(c) + after
            && !before.contains(c),
{
    lemma_first_index(s, c);
    let at = first_index(s, c);
    if at < s.len() {
        assert(s[at] == c);
        assert(s.contains(c));
        assert(s == s.take(at).push(c) + s.skip(at + 1));
        if s.take(at).contains(c) {
            let i = choose|i: int| 0 <= i < at && s.take(at)[i] == c;
            assert(s[i] == c);
        }
    }
}

/// Lines end at line feeds: what comes before the first is the first line,
/// without a carriage return at its end, and what comes after it are the other
/// lines. A text without a line feed is one line, and no text is none.
pub proof fn law_lines_end_at_line_feeds(line: Seq<char>, rest: Seq<char>)
    requires
        !line.contains('\n'),
    ensures
        lines_of(Seq::<char>::empty()) == Seq::<Seq<char>>::empty(),
        line.len() > 0 ==> lines_of(line) == seq![line],
        line.len() > 0 && line.last() == '\r' ==> lines_of(line.push('\n') + rest) == seq![
            line.drop_last(),
        ] + lines_of(rest),
        line.len() == 0 || line.last() != '\r' ==> lines_of(line.push('\n') + rest) == seq![line]
            + lines_of(rest),
{
    let whole = line.push('\n') + rest;
    let n = line.len() as int;
    lemma_first_index(line, '\n');
    if first_index(line, '\n') < line.len() {
        assert(line.contains(line[first_index(line, '\n')]));
    }
    assert forall|j: int| 0 <= j < n implies whole[j] != '\n' by {
        assert(whole[j] == line[j]);
        assert(line.contains(line[j]));
    }
    lemma_first_index_after(whole, '\n', n);
    assert(whole.skip(n)[0] == '\n');
    assert(whole.take(n) == line);
    assert(whole.skip(n + 1) == rest);
}

/// A list of texts stands for its texts, each in its place, and an optional text
/// for its text.
pub proof fn law_texts_stand_for_themselves(list: Seq<String>, owned: Option<String>, borrowed: Option<&str>)
    ensures
        views(list).len() == list.len(),
        forall|i: int| 0 <= i < list.len() ==> #[trigger] views(list)[i] == list[i]@,
        owned matches Some(text) ==> owned_view(owned) == Some(text@),
        owned is None ==> owned_view(owned) is None,
        borrowed matches Some(text) ==> optional_view(borrowed) == Some(text@),
        borrowed is None ==> optional_view(borrowed) is None,
{
}

/// The length of a text is that of its bytes, and a class has all of a text if
/// it has each character.
pub proof fn law_lengths_are_in_bytes(s: Seq<char>, class: Class)
    ensures
        utf8_len(s) == encode_utf8(s).len(),
        class.admits_all(s) <==> forall|i: int| 0 <= i < s.len() ==> class.admits(#[trigger] s[i]),
{
}

} // verus!
