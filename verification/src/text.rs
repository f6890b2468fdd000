//! Byte-level text: folded comparison, trimming and searching.
//!
//! G-code is ASCII with comments in whatever the slicer wrote, so every rule
//! about text is stated over the UTF-8 bytes of a line.

use vstd::prelude::*;
use vstd::string::*;

verus! {

/// An ASCII letter in lower case; any other byte as it is.
pub open spec fn lower(byte: u8) -> u8 {
    if 0x41 <= byte <= 0x5a {
        (byte + 0x20) as u8
    } else {
        byte
    }
}

/// The UTF-8 bytes of some text.
pub open spec fn bytes(text: Seq<char>) -> Seq<u8> {
    vstd::utf8::encode_utf8(text)
}

/// The two texts are equal but for the case of their ASCII letters.
pub open spec fn same_fold(a: Seq<u8>, b: Seq<u8>) -> bool {
    &&& a.len() == b.len()
    &&& forall|i: int| 0 <= i < a.len() ==> #[trigger] lower(a[i]) == lower(b[i])
}

/// `key` stands at `at` in `text`, whatever its case.
pub open spec fn at_fold(text: Seq<u8>, at: int, key: Seq<u8>) -> bool {
    &&& 0 <= at
    &&& at + key.len() <= text.len()
    &&& same_fold(text.subrange(at, at + key.len()), key)
}

/// `key` stands somewhere in `text`, whatever its case.
pub open spec fn has_fold(text: Seq<u8>, key: Seq<u8>) -> bool {
    exists|at: int| #[trigger] at_fold(text, at, key)
}

/// The byte is an ASCII digit.
pub open spec fn digit(byte: u8) -> bool {
    0x30 <= byte <= 0x39
}

/// The byte is an ASCII letter.
pub open spec fn letter(byte: u8) -> bool {
    0x41 <= byte <= 0x5a || 0x61 <= byte <= 0x7a
}

/// The byte is ASCII white space: space, tab, line feed, form feed or carriage
/// return.
pub open spec fn blank(byte: u8) -> bool {
    byte == 0x20 || byte == 0x09 || byte == 0x0a || byte == 0x0c || byte == 0x0d
}

/// Bytes the white space character that starts at `at` takes, and zero where
/// none does. These are the characters Unicode gives the `White_Space`
/// property.
pub open spec fn space_after(text: Seq<u8>, at: int) -> int {
    let left = text.len() - at;
    if left >= 1 && (0x09 <= text[at] <= 0x0d || text[at] == 0x20) {
        1
    } else if left >= 2 && text[at] == 0xc2 && (text[at + 1] == 0x85 || text[at + 1] == 0xa0) {
        2
    } else if left >= 3 && wide_space(text[at], text[at + 1], text[at + 2]) {
        3
    } else {
        0
    }
}

/// Bytes the white space character that ends at `end` takes, and zero where
/// none does.
pub open spec fn space_before(text: Seq<u8>, end: int) -> int {
    if end >= 1 && (0x09 <= text[end - 1] <= 0x0d || text[end - 1] == 0x20) {
        1
    } else if end >= 2 && text[end - 2] == 0xc2 && (text[end - 1] == 0x85 || text[end - 1]
        == 0xa0) {
        2
    } else if end >= 3 && wide_space(text[end - 3], text[end - 2], text[end - 1]) {
        3
    } else {
        0
    }
}

/// The three bytes encode one white space character.
pub open spec fn wide_space(first: u8, second: u8, third: u8) -> bool {
    ||| first == 0xe1 && second == 0x9a && third == 0x80
    ||| first == 0xe2 && second == 0x80 && (0x80 <= third <= 0x8a || third == 0xa8 || third == 0xa9
        || third == 0xaf)
    ||| first == 0xe2 && second == 0x81 && third == 0x9f
    ||| first == 0xe3 && second == 0x80 && third == 0x80
}

/// Where `text` goes on once the white space from `at` has been passed.
pub open spec fn past_space(text: Seq<u8>, at: int) -> int
    decreases text.len() - at,
{
    let width = space_after(text, at);
    if width > 0 {
        past_space(text, at + width)
    } else {
        at
    }
}

/// Where `text[from..end]` ends once the white space before `end` has gone.
pub open spec fn before_space(text: Seq<u8>, from: int, end: int) -> int
    decreases end,
{
    let width = space_before(text, end);
    if width > 0 && end - width >= from {
        before_space(text, from, end - width)
    } else {
        end
    }
}

/// The text without the white space it starts with.
pub open spec fn trim_start(text: Seq<u8>) -> Seq<u8> {
    text.skip(past_space(text, 0))
}

/// The text without the white space at either end.
pub open spec fn trim(text: Seq<u8>) -> Seq<u8> {
    let start = past_space(text, 0);
    text.subrange(start, before_space(text, start, text.len() as int))
}

pub proof fn lemma_past_space(text: Seq<u8>, at: int)
    requires
        0 <= at <= text.len(),
    ensures
        at <= past_space(text, at) <= text.len(),
    decreases text.len() - at,
{
    let width = space_after(text, at);
    if width > 0 {
        lemma_past_space(text, at + width);
    }
}

pub proof fn lemma_before_space(text: Seq<u8>, from: int, end: int)
    requires
        0 <= from <= end <= text.len(),
    ensures
        from <= before_space(text, from, end) <= end,
    decreases end,
{
    let width = space_before(text, end);
    if width > 0 && end - width >= from {
        lemma_before_space(text, from, end - width);
    }
}

/// Where `byte` first stands in `text[from..to]`, and `to` where it does not.
pub open spec fn find(text: Seq<u8>, byte: u8, from: int, to: int) -> int
    decreases to - from,
{
    if from >= to {
        to
    } else if text[from] == byte {
        from
    } else {
        find(text, byte, from + 1, to)
    }
}

/// A digit's character.
pub open spec fn figure(digit: nat) -> char {
    (0x30 + digit) as char
}

/// A number written out in decimal, without leading zeros.
pub open spec fn decimal(number: nat) -> Seq<char>
    decreases number,
{
    if number < 10 {
        seq![figure(number)]
    } else {
        decimal(number / 10).push(figure(number % 10))
    }
}

pub proof fn lemma_find(text: Seq<u8>, byte: u8, from: int, to: int)
    requires
        0 <= from <= to <= text.len(),
    ensures
        from <= find(text, byte, from, to) <= to,
        find(text, byte, from, to) < to ==> text[find(text, byte, from, to)] == byte,
        forall|i: int| from <= i < find(text, byte, from, to) ==> text[i] != byte,
    decreases to - from,
{
    if from < to && text[from] != byte {
        lemma_find(text, byte, from + 1, to);
    }
}

/// What stands in a text stands in every text equal to it but for case.
pub proof fn lemma_fold_moves(a: Seq<u8>, b: Seq<u8>, key: Seq<u8>)
    requires
        same_fold(a, b),
        has_fold(a, key),
    ensures
        has_fold(b, key),
{
    let at = choose|at: int| #[trigger] at_fold(a, at, key);
    let part = b.subrange(at, at + key.len());
    assert forall|i: int| 0 <= i < part.len() implies #[trigger] lower(part[i]) == lower(key[i]) by {
        assert(lower(a.subrange(at, at + key.len())[i]) == lower(key[i]));
        assert(lower(a[at + i]) == lower(b[at + i]));
    }
    assert(at_fold(b, at, key));
}

/// Text with everything that is not UTF-8 repaired.
pub uninterp spec fn repaired(raw: Seq<u8>) -> Seq<char>;

/// Calls `String::from_utf8_lossy`, whose result depends on the bytes alone.
/// Bytes that are UTF-8 come out as the text they are; in others, what is not is
/// replaced.
#[verifier::external_body]
pub(crate) fn repair(raw: &[u8]) -> (text: String)
    ensures
        text@ == repaired(raw@),
        vstd::utf8::valid_utf8(raw@) ==> text@ == vstd::utf8::decode_utf8(raw@),
{
    String::from_utf8_lossy(raw).into_owned()
}

/// An ASCII letter in lower case; any other byte as it is.
pub fn to_lower(byte: u8) -> (folded: u8)
    ensures
        folded == lower(byte),
{
    if 0x41 <= byte && byte <= 0x5a {
        byte + 0x20
    } else {
        byte
    }
}

/// Whether `key` stands at `at` in `text`, whatever its case.
pub fn stands_at(text: &[u8], at: usize, key: &[u8]) -> (found: bool)
    ensures
        found == at_fold(text@, at as int, key@),
{
    if at > text.len() || key.len() > text.len() - at {
        return false;
    }
    let mut i: usize = 0;
    while i < key.len()
        invariant
            at + key.len() <= text.len(),
            i <= key.len(),
            forall|j: int| 0 <= j < i ==> lower(text@[at + j]) == lower(#[trigger] key@[j]),
        decreases key.len() - i,
    {
        if to_lower(text[at + i]) != to_lower(key[i]) {
            proof {
                let part = text@.subrange(at as int, at + key@.len());
                assert(lower(part[i as int]) != lower(key@[i as int]));
            }
            return false;
        }
        i += 1;
    }
    assert(same_fold(text@.subrange(at as int, at + key@.len()), key@));
    true
}

/// Whether `text` starts with `prefix`, byte for byte.
pub fn starts_with(text: &[u8], prefix: &[u8]) -> (starts: bool)
    ensures
        starts == prefix@.is_prefix_of(text@),
{
    if prefix.len() > text.len() {
        return false;
    }
    let mut i: usize = 0;
    while i < prefix.len()
        invariant
            prefix.len() <= text.len(),
            i <= prefix.len(),
            forall|j: int| 0 <= j < i ==> text@[j] == prefix@[j],
        decreases prefix.len() - i,
    {
        if text[i] != prefix[i] {
            assert(text@.subrange(0, prefix@.len() as int)[i as int] != prefix@[i as int]);
            return false;
        }
        i += 1;
    }
    assert(prefix@ =~= text@.subrange(0, prefix@.len() as int));
    true
}

/// Whether `text` is `key`, whatever its case.
pub fn equals_fold(text: &[u8], key: &[u8]) -> (same: bool)
    ensures
        same == same_fold(text@, key@),
{
    proof {
        assert(text@.subrange(0, text@.len() as int) =~= text@);
    }
    text.len() == key.len() && stands_at(text, 0, key)
}

/// Whether `needle` stands anywhere in `haystack`, whatever its case.
pub fn contains_fold(haystack: &str, needle: &str) -> (found: bool)
    ensures
        found == has_fold(bytes(haystack@), bytes(needle@)),
{
    holds(haystack.as_bytes(), needle)
}

/// Whether `needle` stands anywhere in `text`, whatever its case.
pub fn holds(text: &[u8], needle: &str) -> (found: bool)
    ensures
        found == has_fold(text@, bytes(needle@)),
{
    let key = needle.as_bytes();
    if key.len() > text.len() {
        return false;
    }
    let last = text.len() - key.len();
    let mut at: usize = 0;
    while at <= last
        invariant
            key@ == bytes(needle@),
            last + key.len() == text.len(),
            at <= last + 1,
            forall|a: int| 0 <= a < at ==> !#[trigger] at_fold(text@, a, key@),
        decreases last + 1 - at,
    {
        if stands_at(text, at, key) {
            return true;
        }
        if at == last {
            assert forall|a: int| !#[trigger] at_fold(text@, a, key@) by {}
            return false;
        }
        at += 1;
    }
    false
}

/// Where `text` goes on once the white space from `from` has been passed.
pub fn skip_space(text: &[u8], from: usize) -> (at: usize)
    requires
        from <= text.len(),
    ensures
        at == past_space(text@, from as int),
        from <= at <= text.len(),
{
    let mut at = from;
    loop
        invariant
            from <= at <= text.len(),
            past_space(text@, from as int) == past_space(text@, at as int),
        decreases text.len() - at,
    {
        let left = text.len() - at;
        if left >= 1 && ((0x09 <= text[at] && text[at] <= 0x0d) || text[at] == 0x20) {
            at += 1;
        } else if left >= 2 && text[at] == 0xc2 && (text[at + 1] == 0x85 || text[at + 1] == 0xa0) {
            at += 2;
        } else if left >= 3 && is_wide_space(text[at], text[at + 1], text[at + 2]) {
            at += 3;
        } else {
            return at;
        }
    }
}

/// Where `text[from..end]` ends once the white space before `end` has gone.
pub fn drop_space(text: &[u8], from: usize, end: usize) -> (at: usize)
    requires
        from <= end <= text.len(),
    ensures
        at == before_space(text@, from as int, end as int),
        from <= at <= end,
{
    let mut at = end;
    loop
        invariant
            from <= at <= end <= text.len(),
            before_space(text@, from as int, end as int) == before_space(
                text@,
                from as int,
                at as int,
            ),
        decreases at,
    {
        let width: usize = if at >= 1 && ((0x09 <= text[at - 1] && text[at - 1] <= 0x0d)
            || text[at - 1] == 0x20) {
            1
        } else if at >= 2 && text[at - 2] == 0xc2 && (text[at - 1] == 0x85 || text[at - 1]
            == 0xa0) {
            2
        } else if at >= 3 && is_wide_space(text[at - 3], text[at - 2], text[at - 1]) {
            3
        } else {
            0
        };
        if width == 0 || at - width < from {
            return at;
        }
        at -= width;
    }
}

/// Where `byte` first stands in `text[from..to]`, and `to` where it does not.
pub fn position(text: &[u8], byte: u8, from: usize, to: usize) -> (at: usize)
    requires
        from <= to <= text.len(),
    ensures
        at == find(text@, byte, from as int, to as int),
        from <= at <= to,
        at < to ==> text@[at as int] == byte,
        forall|i: int| from <= i < at ==> text@[i] != byte,
{
    let mut at = from;
    while at < to && text[at] != byte
        invariant
            from <= at <= to <= text.len(),
            find(text@, byte, from as int, to as int) == find(text@, byte, at as int, to as int),
            forall|i: int| from <= i < at ==> text@[i] != byte,
        decreases to - at,
    {
        at += 1;
    }
    at
}

/// Writes a number out in decimal at the end of a text.
pub fn push_decimal(out: &mut String, number: u64)
    ensures
        final(out)@ == old(out)@ + decimal(number as nat),
    decreases number,
{
    let ghost before = out@;
    if number >= 10 {
        push_decimal(out, number / 10);
    }
    let digit = number % 10;
    let figure = match digit {
        0 => "0",
        1 => "1",
        2 => "2",
        3 => "3",
        4 => "4",
        5 => "5",
        6 => "6",
        7 => "7",
        8 => "8",
        _ => "9",
    };
    proof {
        reveal_strlit("0");
        reveal_strlit("1");
        reveal_strlit("2");
        reveal_strlit("3");
        reveal_strlit("4");
        reveal_strlit("5");
        reveal_strlit("6");
        reveal_strlit("7");
        reveal_strlit("8");
        reveal_strlit("9");
        assert(figure@ =~= seq![self::figure(digit as nat)]);
    }
    out.append(figure);
    assert(out@ =~= before + decimal(number as nat));
}

/// Some words with a number after them.
pub fn phrase(words: &str, number: u64) -> (said: String)
    ensures
        said@ == words@ + decimal(number as nat),
{
    let mut said = String::from_str(words);
    push_decimal(&mut said, number);
    said
}

/// White space starts and ends where characters do.
proof fn lemma_space_boundary(text: Seq<u8>, at: int)
    requires
        vstd::utf8::valid_utf8(text),
        0 <= at <= text.len(),
        vstd::utf8::is_char_boundary(text, at),
        space_after(text, at) > 0,
    ensures
        vstd::utf8::is_char_boundary(text, at + space_after(text, at)),
{
    let width = space_after(text, at);
    let rest = text.subrange(at, text.len() as int);
    vstd::utf8::valid_utf8_split(text, at);
    assert(rest[0] == text[at]);
    reveal_with_fuel(vstd::utf8::is_char_boundary, 2);
    assert(vstd::utf8::length_of_first_scalar(rest) == width);
    assert(vstd::utf8::is_char_boundary(rest, width));
    if at + width < text.len() {
        vstd::utf8::is_char_boundary_iff_not_is_continuation_byte(rest, width);
        assert(rest[width] == text[at + width]);
        vstd::utf8::is_char_boundary_iff_not_is_continuation_byte(text, at + width);
    } else {
        vstd::utf8::is_char_boundary_start_end_of_seq(text);
    }
}

proof fn lemma_past_space_boundary(text: Seq<u8>, at: int)
    requires
        vstd::utf8::valid_utf8(text),
        0 <= at <= text.len(),
        vstd::utf8::is_char_boundary(text, at),
    ensures
        vstd::utf8::is_char_boundary(text, past_space(text, at)),
    decreases text.len() - at,
{
    if space_after(text, at) > 0 {
        lemma_space_boundary(text, at);
        lemma_past_space_boundary(text, at + space_after(text, at));
    }
}

proof fn lemma_before_space_boundary(text: Seq<u8>, from: int, end: int)
    requires
        vstd::utf8::valid_utf8(text),
        0 <= from <= end <= text.len(),
        vstd::utf8::is_char_boundary(text, end),
    ensures
        vstd::utf8::is_char_boundary(text, before_space(text, from, end)),
    decreases end,
{
    let width = space_before(text, end);
    if width > 0 && end - width >= from {
        vstd::utf8::is_char_boundary_iff_not_is_continuation_byte(text, end - width);
        lemma_before_space_boundary(text, from, end - width);
    }
}

/// The part of a text between two places where characters start or end.
pub fn between(text: &str, start: usize, end: usize) -> (part: &str)
    requires
        start <= end <= bytes(text@).len(),
        vstd::utf8::is_char_boundary(bytes(text@), start as int),
        vstd::utf8::is_char_boundary(bytes(text@), end as int),
    ensures
        bytes(part@) == bytes(text@).subrange(start as int, end as int),
{
    let ghost whole = text.spec_bytes();
    proof {
        vstd::utf8::encode_utf8_valid_utf8(text@);
    }
    let (head, _) = text.split_at(end);
    proof {
        let kept = head.spec_bytes();
        vstd::utf8::encode_utf8_valid_utf8(head@);
        if start < end {
            assert(kept[start as int] == whole[start as int]);
            vstd::utf8::is_char_boundary_iff_not_is_continuation_byte(whole, start as int);
            vstd::utf8::is_char_boundary_iff_not_is_continuation_byte(kept, start as int);
        } else {
            vstd::utf8::is_char_boundary_start_end_of_seq(kept);
        }
    }
    let (_, part) = head.split_at(start);
    assert(part.spec_bytes() =~= whole.subrange(start as int, end as int));
    part
}

/// A text without the white space at either end.
pub fn trimmed(text: &str) -> (inner: &str)
    ensures
        bytes(inner@) == trim(bytes(text@)),
{
    let raw = text.as_bytes();
    let start = skip_space(raw, 0);
    let end = drop_space(raw, start, raw.len());
    proof {
        vstd::utf8::encode_utf8_valid_utf8(text@);
        vstd::utf8::is_char_boundary_start_end_of_seq(raw@);
        lemma_past_space_boundary(raw@, 0);
        lemma_before_space_boundary(raw@, start as int, raw@.len() as int);
    }
    between(text, start, end)
}

/// The part of a text before the first `=` and the part after it, each without
/// the white space around it.
pub open spec fn split_setting(text: Seq<u8>) -> Option<(Seq<u8>, Seq<u8>)> {
    let at = find(text, 0x3d, 0, text.len() as int);
    if at < text.len() {
        Some((trim(text.take(at)), trim(text.skip(at + 1))))
    } else {
        None
    }
}

/// Splits `key = value`.
pub fn setting(text: &str) -> (found: Option<(&str, &str)>)
    ensures
        found is Some == split_setting(bytes(text@)) is Some,
        found matches Some((key, value)) ==> {
            &&& bytes(key@) == (split_setting(bytes(text@))->0).0
            &&& bytes(value@) == (split_setting(bytes(text@))->0).1
        },
{
    let raw = text.as_bytes();
    let at = position(raw, 0x3d, 0, raw.len());
    if at == raw.len() {
        return None;
    }
    proof {
        vstd::utf8::encode_utf8_valid_utf8(text@);
        vstd::utf8::is_char_boundary_start_end_of_seq(raw@);
        vstd::utf8::is_char_boundary_iff_not_is_continuation_byte(raw@, at as int);
        lemma_after_ascii(raw@, at as int);
    }
    let key = between(text, 0, at);
    let value = between(text, at + 1, raw.len());
    assert(raw@.subrange(0, at as int) =~= raw@.take(at as int));
    assert(raw@.subrange(at + 1, raw@.len() as int) =~= raw@.skip(at + 1));
    Some((trimmed(key), trimmed(value)))
}

/// A character ends right behind an ASCII byte.
pub proof fn lemma_after_ascii(text: Seq<u8>, at: int)
    requires
        vstd::utf8::valid_utf8(text),
        0 <= at < text.len(),
        text[at] < 0x80,
    ensures
        vstd::utf8::is_char_boundary(text, at + 1),
{
    vstd::utf8::is_char_boundary_iff_not_is_continuation_byte(text, at);
    let rest = text.subrange(at, text.len() as int);
    vstd::utf8::valid_utf8_split(text, at);
    assert(rest[0] == text[at]);
    reveal_with_fuel(vstd::utf8::is_char_boundary, 2);
    assert(vstd::utf8::length_of_first_scalar(rest) == 1);
    assert(vstd::utf8::is_char_boundary(rest, 1));
    if at + 1 < text.len() {
        vstd::utf8::is_char_boundary_iff_not_is_continuation_byte(rest, 1);
        assert(rest[1] == text[at + 1]);
        vstd::utf8::is_char_boundary_iff_not_is_continuation_byte(text, at + 1);
    } else {
        vstd::utf8::is_char_boundary_start_end_of_seq(text);
    }
}

fn is_wide_space(first: u8, second: u8, third: u8) -> (wide: bool)
    ensures
        wide == wide_space(first, second, third),
{
    (first == 0xe1 && second == 0x9a && third == 0x80) || (first == 0xe2 && second == 0x80 && ((
    0x80 <= third && third <= 0x8a) || third == 0xa8 || third == 0xa9 || third == 0xaf)) || (first
        == 0xe2 && second == 0x81 && third == 0x9f) || (first == 0xe3 && second == 0x80 && third
        == 0x80)
}

/// Whether two texts are the same.
pub fn same(a: &str, b: &str) -> (equal: bool)
    ensures
        equal == (a@ == b@),
{
    let x = a.as_bytes();
    let y = b.as_bytes();
    proof {
        vstd::utf8::encode_utf8_decode_utf8(a@);
        vstd::utf8::encode_utf8_decode_utf8(b@);
    }
    if x.len() != y.len() {
        return false;
    }
    let mut i: usize = 0;
    while i < x.len()
        invariant
            i <= x.len() == y.len(),
            x@ == vstd::utf8::encode_utf8(a@),
            y@ == vstd::utf8::encode_utf8(b@),
            forall|j: int| 0 <= j < i ==> x@[j] == y@[j],
        decreases x.len() - i,
    {
        if x[i] != y[i] {
            return false;
        }
        i = i + 1;
    }
    assert(x@ =~= y@);
    true
}

} // verus!
