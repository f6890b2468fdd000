//! What the words of a file mean.
//!
//! Nothing here is run. Labels, markers, settings and numbers are described by
//! the characters they are made of, and what the rest of the library reads out
//! of them is held to that.

use crate::bgcode::metadata;
use crate::double;
use crate::double::Double;
use crate::feature;
use crate::slicer;
use crate::source;
use crate::text;
use vstd::arithmetic::power::*;
use vstd::prelude::*;

verus! {

/// A byte is a character, or the same letter in the other case.
pub open spec fn alike(byte: u8, letter: char) -> bool {
    ||| byte as int == letter as int
    ||| 'A' <= letter <= 'Z' && byte as int == letter as int + 32
    ||| 'a' <= letter <= 'z' && byte as int == letter as int - 32
}

/// A word stands at a place of a text, in whatever case.
pub open spec fn reads_at(raw: Seq<u8>, at: int, word: Seq<char>) -> bool {
    &&& 0 <= at
    &&& at + word.len() <= raw.len()
    &&& forall|i: int| 0 <= i < word.len() ==> alike(raw[at + i], #[trigger] word[i])
}

/// A word stands somewhere in a text, in whatever case.
pub open spec fn shows(raw: Seq<u8>, word: Seq<char>) -> bool {
    exists|at: int| #[trigger] reads_at(raw, at, word)
}

/// A text is a word, in whatever case.
pub open spec fn is_word(raw: Seq<u8>, word: Seq<char>) -> bool {
    raw.len() == word.len() && reads_at(raw, 0, word)
}

/// Some bytes are one white space character.
pub open spec fn is_space(raw: Seq<u8>) -> bool {
    ||| raw == seq![0x09u8]
    ||| raw == seq![0x0au8]
    ||| raw == seq![0x0bu8]
    ||| raw == seq![0x0cu8]
    ||| raw == seq![0x0du8]
    ||| raw == seq![0x20u8]
    ||| raw == seq![0xc2u8, 0x85u8]
    ||| raw == seq![0xc2u8, 0xa0u8]
    ||| raw == seq![0xe1u8, 0x9au8, 0x80u8]
    ||| raw.len() == 3 && raw[0] == 0xe2 && raw[1] == 0x80 && 0x80 <= raw[2] <= 0x8a
    ||| raw == seq![0xe2u8, 0x80u8, 0xa8u8]
    ||| raw == seq![0xe2u8, 0x80u8, 0xa9u8]
    ||| raw == seq![0xe2u8, 0x80u8, 0xafu8]
    ||| raw == seq![0xe2u8, 0x81u8, 0x9fu8]
    ||| raw == seq![0xe3u8, 0x80u8, 0x80u8]
}

/// Some bytes are white space characters, one after the other.
pub open spec fn is_white(raw: Seq<u8>) -> bool
    decreases raw.len(),
{
    ||| raw.len() == 0
    ||| raw.len() >= 1 && is_space(raw.take(1)) && is_white(raw.skip(1))
    ||| raw.len() >= 2 && is_space(raw.take(2)) && is_white(raw.skip(2))
    ||| raw.len() >= 3 && is_space(raw.take(3)) && is_white(raw.skip(3))
}

/// A text starts with no white space.
pub open spec fn starts_solid(raw: Seq<u8>) -> bool {
    &&& raw.len() >= 1 ==> !is_space(raw.take(1))
    &&& raw.len() >= 2 ==> !is_space(raw.take(2))
    &&& raw.len() >= 3 ==> !is_space(raw.take(3))
}

/// A text ends with no white space.
pub open spec fn ends_solid(raw: Seq<u8>) -> bool {
    let len = raw.len() as int;
    &&& len >= 1 ==> !is_space(raw.skip(len - 1))
    &&& len >= 2 ==> !is_space(raw.skip(len - 2))
    &&& len >= 3 ==> !is_space(raw.skip(len - 3))
}

proof fn lemma_space_after(raw: Seq<u8>, at: int)
    requires
        0 <= at <= raw.len(),
    ensures
        ({
            let left = raw.skip(at);
            let width = text::space_after(raw, at);
            &&& 0 <= width <= 3 && at + width <= raw.len()
            &&& width > 0 ==> is_space(left.take(width))
            &&& left.len() >= 1 && is_space(left.take(1)) ==> width == 1
            &&& left.len() >= 2 && is_space(left.take(2)) ==> width == 2
            &&& left.len() >= 3 && is_space(left.take(3)) ==> width == 3
        }),
{
    let left = raw.skip(at);
    let width = text::space_after(raw, at);
    if left.len() >= 1 {
        assert(left.take(1)[0] == raw[at]);
        assert(left.take(1) =~= seq![raw[at]]);
    }
    if left.len() >= 2 {
        let two = left.take(2);
        assert(two[0] == raw[at] && two[1] == raw[at + 1]);
        assert(two =~= seq![raw[at], raw[at + 1]]);
        assert(!(two =~= seq![0x09u8]));
    }
    if left.len() >= 3 {
        let three = left.take(3);
        assert(three[0] == raw[at] && three[1] == raw[at + 1] && three[2] == raw[at + 2]);
        assert(three =~= seq![raw[at], raw[at + 1], raw[at + 2]]);
    }
}

proof fn lemma_space_before(raw: Seq<u8>, end: int)
    requires
        0 <= end <= raw.len(),
    ensures
        ({
            let left = raw.take(end);
            let width = text::space_before(raw, end);
            &&& 0 <= width <= 3 && width <= end
            &&& width > 0 ==> is_space(left.skip(end - width))
            &&& end >= 1 && is_space(left.skip(end - 1)) ==> width == 1
            &&& end >= 2 && is_space(left.skip(end - 2)) ==> width == 2
            &&& end >= 3 && is_space(left.skip(end - 3)) ==> width == 3
        }),
{
    let left = raw.take(end);
    if end >= 1 {
        let one = left.skip(end - 1);
        assert(one[0] == raw[end - 1]);
        assert(one =~= seq![raw[end - 1]]);
    }
    if end >= 2 {
        let two = left.skip(end - 2);
        assert(two[0] == raw[end - 2] && two[1] == raw[end - 1]);
        assert(two =~= seq![raw[end - 2], raw[end - 1]]);
    }
    if end >= 3 {
        let three = left.skip(end - 3);
        assert(three[0] == raw[end - 3] && three[1] == raw[end - 2] && three[2] == raw[end - 1]);
        assert(three =~= seq![raw[end - 3], raw[end - 2], raw[end - 1]]);
    }
}

proof fn lemma_past_white(raw: Seq<u8>, at: int, spaces: int)
    requires
        0 <= at <= spaces <= raw.len(),
        is_white(raw.subrange(at, spaces)),
        starts_solid(raw.skip(spaces)),
    ensures
        text::past_space(raw, at) == spaces,
    decreases spaces - at,
{
    let white = raw.subrange(at, spaces);
    let left = raw.skip(at);
    lemma_space_after(raw, at);
    if white.len() == 0 {
        lemma_space_after(raw, spaces);
    } else {
        let width: int = if is_space(white.take(1)) && is_white(white.skip(1)) {
            1
        } else if white.len() >= 2 && is_space(white.take(2)) && is_white(white.skip(2)) {
            2
        } else {
            3
        };
        assert(white.take(width) =~= left.take(width));
        assert(white.skip(width) =~= raw.subrange(at + width, spaces));
        lemma_past_white(raw, at + width, spaces);
    }
}

/// What goes once white space has been passed is white, and what is left is not.
proof fn lemma_past(raw: Seq<u8>, at: int)
    requires
        0 <= at <= raw.len(),
    ensures
        at <= text::past_space(raw, at) <= raw.len(),
        is_white(raw.subrange(at, text::past_space(raw, at))),
        starts_solid(raw.skip(text::past_space(raw, at))),
    decreases raw.len() - at,
{
    lemma_space_after(raw, at);
    let width = text::space_after(raw, at);
    let left = raw.skip(at);
    if width > 0 {
        lemma_past(raw, at + width);
        let end = text::past_space(raw, at);
        let white = raw.subrange(at, end);
        assert(white.skip(width) =~= raw.subrange(at + width, end));
        assert(white.take(width) =~= left.take(width));
    } else {
        assert(raw.subrange(at, at).len() == 0);
    }
}

/// White space before a text goes when it is trimmed, all of it and nothing else.
pub proof fn leading_white_space_goes(spaces: Seq<u8>, body: Seq<u8>)
    requires
        is_white(spaces),
        starts_solid(body),
    ensures
        text::trim_start(spaces + body) == body,
{
    let raw = spaces + body;
    assert(raw.subrange(0, spaces.len() as int) =~= spaces);
    assert(raw.skip(spaces.len() as int) =~= body);
    lemma_past_white(raw, 0, spaces.len() as int);
}

/// Trimming a text takes white space before and behind it, and leaves a text
/// that has neither.
pub proof fn trimming_takes_white_space_alone(raw: Seq<u8>)
    ensures
        exists|start: int, end: int|
            #![trigger raw.subrange(start, end)]
            {
                &&& 0 <= start <= end <= raw.len()
                &&& text::trim(raw) == raw.subrange(start, end)
                &&& is_white(raw.take(start))
            },
        starts_solid(text::trim_start(raw)),
        text::trim(raw).len() > 0 ==> ends_solid(text::trim(raw)),
{
    let start = text::past_space(raw, 0);
    lemma_past(raw, 0);
    text::lemma_before_space(raw, start, raw.len() as int);
    let end = text::before_space(raw, start, raw.len() as int);
    assert(raw.take(start) =~= raw.subrange(0, start));
    lemma_before(raw, start, raw.len() as int);
    let inner = raw.subrange(start, end);
    if inner.len() > 0 {
        let len = inner.len() as int;
        let left = raw.take(end);
        lemma_space_before(raw, end);
        let width = text::space_before(raw, end);
        if len >= 1 {
            assert(inner.skip(len - 1) =~= left.skip(end - 1));
        }
        if len >= 2 {
            assert(inner.skip(len - 2) =~= left.skip(end - 2));
        }
        if len >= 3 {
            assert(inner.skip(len - 3) =~= left.skip(end - 3));
        }
    }
}

proof fn lemma_before(raw: Seq<u8>, from: int, end: int)
    requires
        0 <= from <= end <= raw.len(),
    ensures
        ({
            let at = text::before_space(raw, from, end);
            &&& from <= at <= end
            &&& text::space_before(raw, at) == 0 || at - text::space_before(raw, at) < from
        }),
    decreases end,
{
    let width = text::space_before(raw, end);
    if width > 0 && end - width >= from {
        lemma_before(raw, from, end - width);
    }
}

/// A text between spaces and tabs comes out of them whole.
pub proof fn a_text_between_blanks_comes_out_whole(
    before: Seq<u8>,
    body: Seq<u8>,
    behind: Seq<u8>,
)
    requires
        body.len() > 0,
        0x21 <= body[0] <= 0x7e,
        0x21 <= body.last() <= 0x7e,
        forall|i: int| 0 <= i < before.len() ==> (#[trigger] before[i] == 0x20 || before[i] == 0x09),
        forall|i: int| 0 <= i < behind.len() ==> (#[trigger] behind[i] == 0x20 || behind[i] == 0x09),
    ensures
        text::trim(before + body + behind) == body,
{
    let raw = before + body + behind;
    let start = before.len() as int;
    let end = start + body.len();
    lemma_past_blanks(raw, 0, start);
    assert(raw[start] == body[0]);
    assert(text::past_space(raw, 0) == start);
    assert(raw[end - 1] == body.last());
    lemma_before_blanks(raw, start, end, raw.len() as int);
    assert(raw.subrange(start, end) =~= body);
}

proof fn lemma_past_blanks(raw: Seq<u8>, at: int, end: int)
    requires
        0 <= at <= end < raw.len(),
        forall|i: int| at <= i < end ==> (#[trigger] raw[i] == 0x20 || raw[i] == 0x09),
        0x21 <= raw[end] <= 0x7e,
    ensures
        text::past_space(raw, at) == end,
    decreases end - at,
{
    if at < end {
        assert(text::space_after(raw, at) == 1);
        lemma_past_blanks(raw, at + 1, end);
    }
}

proof fn lemma_before_blanks(raw: Seq<u8>, from: int, end: int, at: int)
    requires
        0 <= from < end <= at <= raw.len(),
        forall|i: int| end <= i < at ==> (#[trigger] raw[i] == 0x20 || raw[i] == 0x09),
        0x21 <= raw[end - 1] <= 0x7e,
    ensures
        text::before_space(raw, from, at) == end,
    decreases at,
{
    if end < at {
        assert(text::space_before(raw, at) == 1);
        lemma_before_blanks(raw, from, end, at - 1);
    }
}

proof fn lemma_alike(byte: u8, letter: char)
    requires
        letter as int <= 0x7f,
    ensures
        alike(byte, letter) == (text::lower(byte) == text::lower(letter as u8)),
{
}

proof fn lemma_reads_at(raw: Seq<u8>, at: int, word: Seq<char>)
    requires
        vstd::utf8::is_ascii_chars(word),
    ensures
        text::bytes(word).len() == word.len(),
        reads_at(raw, at, word) == text::at_fold(raw, at, text::bytes(word)),
{
    vstd::utf8::is_ascii_chars_encode_utf8(word);
    let key = text::bytes(word);
    assert forall|i: int| 0 <= i < word.len() implies key[i] == #[trigger] word[i] as u8 && word[i] as int
        <= 0x7f by {}
    if 0 <= at && at + word.len() <= raw.len() {
        let part = raw.subrange(at, at + word.len());
        if reads_at(raw, at, word) {
            assert forall|i: int| 0 <= i < part.len() implies #[trigger] text::lower(part[i])
                == text::lower(key[i]) by {
                assert(alike(raw[at + i], word[i]));
                lemma_alike(raw[at + i], word[i]);
            }
        }
        if text::same_fold(part, key) {
            assert forall|i: int| 0 <= i < word.len() implies alike(
                raw[at + i],
                #[trigger] word[i],
            ) by {
                assert(text::lower(part[i]) == text::lower(key[i]));
                lemma_alike(raw[at + i], word[i]);
            }
        }
    }
}

proof fn lemma_shows(raw: Seq<u8>, word: Seq<char>)
    requires
        vstd::utf8::is_ascii_chars(word),
    ensures
        shows(raw, word) == text::has_fold(raw, text::bytes(word)),
{
    if shows(raw, word) {
        let at = choose|at: int| #[trigger] reads_at(raw, at, word);
        lemma_reads_at(raw, at, word);
        assert(text::at_fold(raw, at, text::bytes(word)));
    }
    if text::has_fold(raw, text::bytes(word)) {
        let at = choose|at: int| #[trigger] text::at_fold(raw, at, text::bytes(word));
        lemma_reads_at(raw, at, word);
        assert(reads_at(raw, at, word));
    }
}

proof fn lemma_is_word(raw: Seq<u8>, word: Seq<char>)
    requires
        vstd::utf8::is_ascii_chars(word),
    ensures
        is_word(raw, word) == text::same_fold(raw, text::bytes(word)),
{
    lemma_reads_at(raw, 0, word);
    if raw.len() == word.len() {
        assert(raw.subrange(0, word.len() as int) =~= raw);
    }
}

/// A text is a word of ASCII letters where each of its bytes is the letter, in
/// either case.
pub proof fn a_word_is_itself_in_any_case(raw: Seq<u8>, word: Seq<char>)
    requires
        vstd::utf8::is_ascii_chars(word),
    ensures
        is_word(raw, word) == text::same_fold(raw, text::bytes(word)),
{
    lemma_is_word(raw, word);
}

/// The words of a label say which region it names. An overhang is one whatever
/// else is said; the visible wall is told from the hidden ones, and any other
/// perimeter is hidden; then come the solid regions, and what else is filled.
pub proof fn a_region_goes_by_the_words_of_its_label(label: Seq<u8>)
    ensures
        ({
            let region = feature::named(label);
            let overhang = shows(label, "overhang"@);
            let visible = shows(label, "external perimeter"@) || shows(label, "outer wall"@)
                || shows(label, "wall-outer"@);
            let hidden = shows(label, "inner wall"@) || shows(label, "wall-inner"@) || shows(
                label,
                "perimeter"@,
            );
            let solid = shows(label, "solid"@) || shows(label, "top surface"@) || shows(
                label,
                "bottom surface"@,
            ) || shows(label, "bridge"@) || shows(label, "skin"@);
            let filled = shows(label, "fill"@);
            &&& region is Overhang == overhang
            &&& region is ExternalPerimeter == (visible && !overhang)
            &&& region is InternalPerimeter == (hidden && !visible && !overhang)
            &&& region is SolidInfill == (solid && !hidden && !visible && !overhang)
            &&& region is SparseInfill == (filled && !solid && !hidden && !visible && !overhang)
        }),
{
    reveal_strlit("overhang");
    reveal_strlit("external perimeter");
    reveal_strlit("outer wall");
    reveal_strlit("wall-outer");
    reveal_strlit("inner wall");
    reveal_strlit("wall-inner");
    reveal_strlit("perimeter");
    reveal_strlit("solid");
    reveal_strlit("top surface");
    reveal_strlit("bottom surface");
    reveal_strlit("bridge");
    reveal_strlit("skin");
    reveal_strlit("infill");
    reveal_strlit("fill");
    lemma_shows(label, "overhang"@);
    lemma_shows(label, "external perimeter"@);
    lemma_shows(label, "outer wall"@);
    lemma_shows(label, "wall-outer"@);
    lemma_shows(label, "inner wall"@);
    lemma_shows(label, "wall-inner"@);
    lemma_shows(label, "perimeter"@);
    lemma_shows(label, "solid"@);
    lemma_shows(label, "top surface"@);
    lemma_shows(label, "bottom surface"@);
    lemma_shows(label, "bridge"@);
    lemma_shows(label, "skin"@);
    lemma_shows(label, "infill"@);
    lemma_shows(label, "fill"@);
    if shows(label, "infill"@) {
        let at = choose|at: int| #[trigger] reads_at(label, at, "infill"@);
        assert forall|i: int| 0 <= i < 4 implies alike(label[at + 2 + i], #[trigger] "fill"@[i]) by {
            assert("infill"@[i + 2] == "fill"@[i]);
            assert(alike(label[at + (i + 2)], "infill"@[i + 2]));
        }
        assert(reads_at(label, at + 2, "fill"@));
    }
}

/// A comment marks a region where it starts with `TYPE:` or `FEATURE:`, white
/// space aside, and what follows is the label.
pub proof fn a_region_marker_is_known_by_its_key(spaces: Seq<u8>, body: Seq<u8>)
    requires
        is_white(spaces),
        starts_solid(body),
    ensures
        reads_at(body, 0, "TYPE:"@) ==> feature::label(spaces + body) == Some(body.skip(5)),
        reads_at(body, 0, "FEATURE:"@) ==> feature::label(spaces + body) == Some(body.skip(8)),
        feature::label(spaces + body) is Some == (reads_at(body, 0, "TYPE:"@) || reads_at(
            body,
            0,
            "FEATURE:"@,
        )),
        feature::marked(spaces + body) is Some == feature::label(spaces + body) is Some,
        feature::marked(spaces + body) is Some ==> feature::marked(spaces + body)->0
            == feature::named(feature::label(spaces + body)->0),
{
    reveal_strlit("TYPE:");
    reveal_strlit("FEATURE:");
    leading_white_space_goes(spaces, body);
    lemma_reads_at(body, 0, "TYPE:"@);
    lemma_reads_at(body, 0, "FEATURE:"@);
    if reads_at(body, 0, "FEATURE:"@) {
        assert(alike(body[0], "FEATURE:"@[0]));
        assert("TYPE:"@[0] == 'T');
        if reads_at(body, 0, "TYPE:"@) {
            assert(alike(body[0], "TYPE:"@[0]));
        }
    }
}

/// A comment begins a layer where it says `LAYER_CHANGE` or `CHANGE_LAYER` and no
/// more, or `LAYER:` and more.
pub proof fn a_layer_marker_is_known_by_its_words(spaces: Seq<u8>, body: Seq<u8>)
    requires
        is_white(spaces),
        starts_solid(body),
    ensures
        feature::changes_layer(spaces + body) == (is_word(body, "LAYER_CHANGE"@) || is_word(
            body,
            "CHANGE_LAYER"@,
        ) || (reads_at(body, 0, "LAYER:"@) && body.len() > 6)),
{
    reveal_strlit("LAYER_CHANGE");
    reveal_strlit("CHANGE_LAYER");
    reveal_strlit("LAYER:");
    leading_white_space_goes(spaces, body);
    lemma_is_word(body, "LAYER_CHANGE"@);
    lemma_is_word(body, "CHANGE_LAYER"@);
    lemma_reads_at(body, 0, "LAYER:"@);
}

/// A line is a comment where a `;` is the first thing on it, and then all that
/// follows the `;` is what it says.
pub proof fn a_comment_line_starts_with_its_semicolon(spaces: Seq<u8>, body: Seq<u8>)
    requires
        is_white(spaces),
        starts_solid(body),
    ensures
        feature::bare_comment(spaces + body) is Some == (body.len() > 0 && body[0] as int == ';' as int),
        feature::bare_comment(spaces + body) is Some ==> feature::bare_comment(spaces + body)->0
            == body.skip(1),
{
    leading_white_space_goes(spaces, body);
}

/// A flag is `1` or `true` where it is set and `0` or `false` where it is not;
/// anything else is no flag.
pub proof fn a_flag_is_one_or_nought(value: Seq<u8>)
    ensures
        slicer::truth(value) == Some(true) <==> is_word(value, "1"@) || is_word(value, "true"@),
        slicer::truth(value) == Some(false) <==> is_word(value, "0"@) || is_word(value, "false"@),
{
    reveal_strlit("1");
    reveal_strlit("0");
    reveal_strlit("true");
    reveal_strlit("false");
    lemma_is_word(value, "1"@);
    lemma_is_word(value, "0"@);
    lemma_is_word(value, "true"@);
    lemma_is_word(value, "false"@);
    if is_word(value, "0"@) {
        assert(alike(value[0], "0"@[0]));
        if is_word(value, "1"@) {
            assert(alike(value[0], "1"@[0]));
        }
    }
    if is_word(value, "false"@) {
        assert("false"@.len() == 5 && "true"@.len() == 4 && "1"@.len() == 1);
    }
}

/// The visible wall goes first where the flag is set, or where the order that is
/// named starts with `outer`.
pub proof fn the_visible_wall_goes_first_where_it_is_said(value: Seq<u8>)
    ensures
        is_word(value, "1"@) || is_word(value, "true"@) || reads_at(value, 0, "outer"@)
            <==> slicer::order(value) is ExternalFirst,
{
    a_flag_is_one_or_nought(value);
    reveal_strlit("outer");
    reveal_strlit("0");
    reveal_strlit("false");
    lemma_reads_at(value, 0, "outer"@);
    if reads_at(value, 0, "outer"@) {
        assert(alike(value[0], "outer"@[0]));
        if is_word(value, "0"@) {
        }
        if is_word(value, "false"@) {
            assert(alike(value[0], "false"@[0]));
        }
    }
}

/// Arcs are fitted unless that is said to be off: `0`, `false` or `disabled`.
pub proof fn arcs_are_fitted_unless_that_is_off(value: Seq<u8>)
    ensures
        slicer::fits_arcs(value) == !(is_word(value, "0"@) || is_word(value, "false"@) || is_word(
            value,
            "disabled"@,
        )),
{
    a_flag_is_one_or_nought(value);
    reveal_strlit("disabled");
    reveal_strlit("1");
    reveal_strlit("true");
    lemma_is_word(value, "disabled"@);
}

/// Some characters are decimal digits.
pub open spec fn are_digits(raw: Seq<u8>) -> bool {
    forall|i: int| 0 <= i < raw.len() ==> 48 <= #[trigger] raw[i] <= 57
}

/// What decimal digits are worth, the first of them most.
pub open spec fn digits_worth(raw: Seq<u8>) -> int
    decreases raw.len(),
{
    if raw.len() == 0 {
        0
    } else {
        (raw[0] - 48) * pow(10, (raw.len() - 1) as nat) + digits_worth(raw.skip(1))
    }
}

/// What digits are worth, from either end, is the same.
pub proof fn digits_are_worth_what_they_spell(raw: Seq<u8>)
    requires
        are_digits(raw),
    ensures
        digits_worth(raw) == slicer::spelled(raw),
{
    lemma_digits_worth(raw);
}

proof fn lemma_digits_worth(raw: Seq<u8>)
    requires
        are_digits(raw),
    ensures
        digits_worth(raw) == slicer::spelled(raw),
        digits_worth(raw) >= 0,
    decreases raw.len(),
{
    if raw.len() == 1 {
        lemma_pow0(10);
        assert(raw.drop_last() =~= seq![]);
        assert(slicer::spelled(seq![]) == 0);
        assert(raw.skip(1) =~= seq![]);
        assert(digits_worth(raw.skip(1)) == 0);
    } else if raw.len() > 1 {
        let tail = raw.skip(1);
        let front = raw.drop_last();
        lemma_digits_worth(tail);
        lemma_digits_worth(front);
        lemma_digits_worth(tail.drop_last());
        assert(tail.drop_last() =~= front.skip(1));
        assert(tail.last() == raw.last());
        let n = (raw.len() - 2) as nat;
        reveal(pow);
        assert(pow(10, n + 1) == 10 * pow(10, n));
        let first = raw[0] - 48;
        assert(front[0] == raw[0]);
        assert(first * pow(10, n + 1) == 10 * (first * pow(10, n))) by (nonlinear_arith)
            requires
                pow(10, n + 1) == 10 * pow(10, n),
        ;
    }
}

/// A whole number is digits with a plus sign before them or none, and is what
/// they are worth where that fits thirty-two bits.
pub proof fn a_whole_number_is_what_its_digits_are_worth(raw: Seq<u8>)
    requires
        raw.len() > 0,
        are_digits(raw),
    ensures
        digits_worth(raw) <= 4294967295 ==> slicer::whole(raw) == Some(digits_worth(raw) as u32)
            && slicer::whole(seq![43u8] + raw) == Some(digits_worth(raw) as u32),
        digits_worth(raw) > 4294967295 ==> slicer::whole(raw) is None && slicer::whole(
            seq![43u8] + raw,
        ) is None,
{
    lemma_digits_worth(raw);
    assert((seq![43u8] + raw).skip(1) =~= raw);
    assert(48 <= raw[0] <= 57);
    assert(slicer::unsigned(raw) == raw);
    assert(slicer::all_digits(raw));
}

/// Nothing else is a whole number.
pub proof fn nothing_but_digits_is_a_whole_number(raw: Seq<u8>)
    requires
        raw.len() == 0 || !are_digits(raw.skip(1)) || raw.len() == 1 && !are_digits(raw)
            || !are_digits(raw) && raw[0] != 43,
    ensures
        slicer::whole(raw) is None,
{
    if raw.len() > 0 {
        if !are_digits(raw.skip(1)) {
            let i = choose|i: int| 0 <= i < raw.skip(1).len() && !(48 <= (#[trigger] raw.skip(1)[i]) <= 57);
            assert(!text::digit(raw[i + 1]));
            assert(!text::digit(raw.skip(1)[i]));
        } else if !are_digits(raw) {
            let i = choose|i: int| 0 <= i < raw.len() && !(48 <= (#[trigger] raw[i]) <= 57);
            assert(!text::digit(raw[i]));
        }
    }
}

/// The value of a variable is what its first mention says, and it has none where
/// it is not mentioned.
pub proof fn a_variable_is_what_its_first_mention_says(
    environment: Seq<(String, String)>,
    name: Seq<char>,
    at: int,
)
    requires
        0 <= at <= environment.len(),
        forall|i: int| 0 <= i < at ==> (#[trigger] environment[i]).0@ != name,
    ensures
        at == environment.len() ==> slicer::named(environment, name, 0) is None,
        at < environment.len() && environment[at].0@ == name ==> slicer::named(environment, name, 0)
            == Some(environment[at].1@),
{
    lemma_named(environment, name, 0, at);
}

proof fn lemma_named(environment: Seq<(String, String)>, name: Seq<char>, from: int, at: int)
    requires
        0 <= from <= at <= environment.len(),
        forall|i: int| 0 <= i < at ==> (#[trigger] environment[i]).0@ != name,
    ensures
        slicer::named(environment, name, from) == slicer::named(environment, name, at),
    decreases at - from,
{
    if from < at {
        assert(environment[from].0@ != name);
        lemma_named(environment, name, from + 1, at);
    }
}

/// An option that was exported as white space alone, or not at all, is not
/// stated, and the other spelling of it then counts.
pub proof fn a_blank_option_leaves_the_other_spelling(blank: String, other: Option<String>)
    requires
        is_white(text::bytes(blank@)),
    ensures
        slicer::stated(Some(blank)) is None,
        slicer::stated(None) is None,
        slicer::either(Some(blank), other) == slicer::stated(other),
        slicer::either(None, other) == slicer::stated(other),
        slicer::stated(other) is Some ==> slicer::either(other, Some(blank)) == slicer::stated(
            other,
        ),
{
    let raw = text::bytes(blank@);
    assert(raw.subrange(0, raw.len() as int) =~= raw);
    assert(starts_solid(raw.skip(raw.len() as int)));
    lemma_past_white(raw, 0, raw.len() as int);
}

/// An option that is stated under its first spelling counts under that one,
/// whatever the other says, without the blanks around it.
pub proof fn the_first_spelling_of_an_option_counts(
    value: String,
    other: Option<String>,
    before: Seq<u8>,
    body: Seq<u8>,
    behind: Seq<u8>,
)
    requires
        text::bytes(value@) == before + body + behind,
        body.len() > 0,
        0x21 <= body[0] <= 0x7e,
        0x21 <= body.last() <= 0x7e,
        forall|i: int| 0 <= i < before.len() ==> (#[trigger] before[i] == 0x20 || before[i] == 0x09),
        forall|i: int| 0 <= i < behind.len() ==> (#[trigger] behind[i] == 0x20 || behind[i] == 0x09),
    ensures
        slicer::either(Some(value), other) == Some(body),
{
    a_text_between_blanks_comes_out_whole(before, body, behind);
}

/// A setting is split at its first equals sign, and is none without one.
pub proof fn a_setting_is_split_at_its_first_equals_sign(key: Seq<u8>, value: Seq<u8>)
    requires
        !key.contains(61),
    ensures
        text::split_setting(key) is None,
        text::split_setting(key + seq![61u8] + value) == Some((text::trim(key), text::trim(value))),
{
    text::lemma_find(key, 61, 0, key.len() as int);
    let raw = key + seq![61u8] + value;
    let at = text::find(raw, 61, 0, raw.len() as int);
    text::lemma_find(raw, 61, 0, raw.len() as int);
    assert(raw[key.len() as int] == 61);
    if at < key.len() {
        assert(raw[at] == key[at]);
        assert(key.contains(61));
    }
    assert(raw.take(at) =~= key);
    assert(raw.skip(at + 1) =~= value);
}

/// A number is written out in the digits that are worth it, and with no nought
/// before them.
pub proof fn a_number_is_written_in_the_digits_that_are_worth_it(number: nat)
    ensures
        ({
            let said = text::decimal(number);
            let raw = Seq::new(said.len(), |i: int| said[i] as u8);
            &&& said.len() > 0
            &&& forall|i: int| 0 <= i < said.len() ==> '0' <= #[trigger] said[i] <= '9'
            &&& digits_worth(raw) == number
            &&& said.len() > 1 ==> said[0] != '0'
        }),
    decreases number,
{
    let said = text::decimal(number);
    let raw = Seq::new(said.len(), |i: int| said[i] as u8);
    if number >= 10 {
        a_number_is_written_in_the_digits_that_are_worth_it(number / 10);
        let less = text::decimal(number / 10);
        let before = Seq::new(less.len(), |i: int| less[i] as u8);
        assert(raw.drop_last() =~= before);
        assert(said.last() as int == 48 + number % 10);
        assert(raw.last() == 48 + number % 10);
        assert(are_digits(before)) by {
            assert forall|i: int| 0 <= i < before.len() implies 48 <= #[trigger] before[i] <= 57 by {
                assert('0' <= less[i] <= '9');
            }
        }
        assert forall|i: int| 0 <= i < said.len() implies '0' <= #[trigger] said[i] <= '9' by {
            if i < less.len() {
                assert('0' <= less[i] <= '9');
            }
        }
        assert(are_digits(raw)) by {
            assert forall|i: int| 0 <= i < raw.len() implies 48 <= #[trigger] raw[i] <= 57 by {
                assert('0' <= said[i] <= '9');
            }
        }
        lemma_digits_worth(before);
        lemma_digits_worth(raw);
        assert(said[0] == less[0]);
        if less.len() == 1 && less[0] == '0' {
            assert(before =~= seq![48u8]);
            assert(slicer::spelled(seq![]) == 0);
            assert(before.drop_last() =~= seq![]);
        }
    } else {
        assert(said =~= seq![text::figure(number)]);
        assert(raw =~= seq![(48 + number) as u8]);
        assert(raw.drop_last() =~= seq![]);
        assert(slicer::spelled(seq![]) == 0);
        lemma_digits_worth(raw);
    }
}

proof fn lemma_find_shifts(a: Seq<u8>, b: Seq<u8>, byte: u8, from: int, to: int)
    requires
        0 <= from <= to <= b.len(),
    ensures
        text::find(a + b, byte, a.len() + from, a.len() + to) == a.len() + text::find(
            b,
            byte,
            from,
            to,
        ),
    decreases to - from,
{
    if from < to {
        assert((a + b)[a.len() + from] == b[from]);
        if b[from] != byte {
            lemma_find_shifts(a, b, byte, from + 1, to);
        }
    }
}

proof fn lemma_stated_shifts(a: Seq<u8>, b: Seq<u8>, at: int, key: Seq<u8>)
    requires
        0 <= at <= b.len() + 1,
    ensures
        metadata::stated_from(a + b, a.len() + at, key) == metadata::stated_from(b, at, key),
    decreases b.len() + 1 - at,
{
    let ini = a + b;
    if at < b.len() {
        let end = text::find(b, 0x0a, at, b.len() as int);
        text::lemma_find(b, 0x0a, at, b.len() as int);
        lemma_find_shifts(a, b, 0x0a, at, b.len() as int);
        lemma_find_shifts(a, b, 0x3d, at, end);
        text::lemma_find(b, 0x3d, at, end);
        let equals = text::find(b, 0x3d, at, end);
        assert(ini.subrange(a.len() + at, a.len() + equals) =~= b.subrange(at, equals));
        if equals < end {
            assert(ini.subrange(a.len() + equals + 1, a.len() + end) =~= b.subrange(
                equals + 1,
                end,
            ));
        }
        lemma_stated_shifts(a, b, end + 1, key);
    }
}

/// Metadata is read line by line: a line whose part before its first equals sign
/// is the key states what stands behind the sign, white space around either
/// aside, and any other leaves it to the lines behind it.
pub proof fn metadata_is_stated_line_by_line(line: Seq<u8>, rest: Seq<u8>, key: Seq<u8>)
    requires
        !line.contains(10),
    ensures
        metadata::stated_from(line + seq![10u8] + rest, 0, key) == match text::split_setting(line) {
            Some((name, value)) if name == key => Some(value),
            _ => metadata::stated_from(rest, 0, key),
        },
        metadata::stated_from(line, 0, key) == match text::split_setting(line) {
            Some((name, value)) if name == key => Some(value),
            _ => None,
        },
        metadata::stated_from(seq![], 0, key) is None,
{
    let ini = line + seq![10u8] + rest;
    assert(ini.take(line.len() as int) =~= line);
    lemma_stated_line(ini, line, key);
    if line.len() > 0 {
        lemma_stated_line(line, line, key);
        assert(metadata::stated_from(line, line.len() as int + 1, key) is None);
    } else {
        assert(text::find(line, 0x3d, 0, 0) == 0);
    }
    let head = line + seq![10u8];
    assert(head + rest =~= ini);
    lemma_stated_shifts(head, rest, 0, key);
}

proof fn lemma_stated_line(ini: Seq<u8>, line: Seq<u8>, key: Seq<u8>)
    requires
        !line.contains(10),
        0 < ini.len(),
        line == ini || ini.len() > line.len() && ini.take(line.len() as int) == line && ini[line.len() as int] == 10,
    ensures
        metadata::stated_from(ini, 0, key) == match text::split_setting(line) {
            Some((name, value)) if name == key => Some(value),
            _ => metadata::stated_from(ini, line.len() as int + 1, key),
        },
{
    let size = line.len() as int;
    assert forall|i: int| 0 <= i < size implies ini[i] == line[i] && line[i] != 10 by {
        assert(ini.take(size)[i] == ini[i]);
        assert(line.contains(line[i]));
    }
    let end = text::find(ini, 0x0a, 0, ini.len() as int);
    text::lemma_find(ini, 0x0a, 0, ini.len() as int);
    assert(end == size);
    let equals = text::find(ini, 0x3d, 0, size);
    let at = text::find(line, 0x3d, 0, size);
    text::lemma_find(ini, 0x3d, 0, size);
    text::lemma_find(line, 0x3d, 0, size);
    assert(equals == at);
    assert(ini.subrange(0, equals) =~= line.take(at));
    if at < size {
        assert(ini.subrange(equals + 1, end) =~= line.skip(at + 1));
    }
}

/// Of the heights some blocks state the first that is one counts: a finite number
/// above zero. Where none is, there is none.
pub proof fn the_first_height_that_is_one_counts(values: Seq<Option<Double>>, at: int)
    requires
        0 <= at <= values.len(),
        forall|i: int|
            0 <= i < at ==> ((#[trigger] values[i]) is Some ==> double::exponent(values[i]->0.bits) == 2047
                || double::worth(values[i]->0.bits) <= 0),
    ensures
        at == values.len() ==> source::first_height(values, 0) is None,
        at < values.len() && values[at] is Some && double::exponent(values[at]->0.bits) != 2047
            && double::worth(values[at]->0.bits) > 0 ==> source::first_height(values, 0)
            == values[at],
{
    lemma_first_height(values, 0, at);
    if at < values.len() && values[at] is Some {
        double::doubles_compare_as_what_they_are_worth(values[at]->0, values[at]->0);
    }
}

proof fn lemma_first_height(values: Seq<Option<Double>>, from: int, at: int)
    requires
        0 <= from <= at <= values.len(),
        forall|i: int|
            0 <= i < at ==> ((#[trigger] values[i]) is Some ==> double::exponent(values[i]->0.bits) == 2047
                || double::worth(values[i]->0.bits) <= 0),
    ensures
        source::first_height(values, from) == source::first_height(values, at),
    decreases at - from,
{
    if from < at {
        if values[from] is Some {
            double::doubles_compare_as_what_they_are_worth(values[from]->0, values[from]->0);
        }
        lemma_first_height(values, from + 1, at);
    }
}

} // verus!
