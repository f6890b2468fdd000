//! What a line says once the value of one of its words has been replaced.
//!
//! A rewrite replaces digits and leaves every other byte alone. Here is why that
//! changes what the line says about that word and about nothing else.

use crate::gcode;
use crate::gcode::Code;
use crate::gcode::Word;
use crate::text;
use vstd::prelude::*;

verus! {

/// A word at its place in a line that has grown by `by` bytes before it.
pub open spec fn shifted(word: Option<Word>, from: int, by: int) -> Option<Word> {
    match word {
        Some(word) => if word.start >= from {
            Some(Word { start: (word.start + by) as usize, end: (word.end + by) as usize, ..word })
        } else {
            Some(word)
        },
        None => None,
    }
}

/// The value of a word stands at `start..end` of a line's body: a letter before
/// it, and all the figures behind that letter.
pub open spec fn stands(body: Seq<u8>, start: int, end: int) -> bool {
    &&& 1 <= start <= end <= body.len()
    &&& 0x61 <= text::lower(body[start - 1]) <= 0x7a
    &&& end == gcode::figures_end(body, start)
}

/// Nothing but figures.
pub open spec fn all_figures(digits: Seq<u8>) -> bool {
    forall|i: int| 0 <= i < digits.len() ==> gcode::figure(#[trigger] digits[i])
}

/// A plain decimal is a number, and made of figures alone.
pub proof fn lemma_plain(digits: Seq<u8>)
    requires
        gcode::plain(digits),
    ensures
        all_figures(digits),
        gcode::number_of(digits) is Some,
{
    let rest = gcode::unsigned(digits);
    lemma_counted(rest);
    assert forall|i: int| 0 <= i < digits.len() implies gcode::figure(#[trigger] digits[i]) by {
        if rest.len() < digits.len() {
            if i > 0 {
                assert(rest[i - 1] == digits[i]);
            }
        }
    }
}

proof fn lemma_counted(digits: Seq<u8>)
    requires
        gcode::figures(digits).others == 0,
    ensures
        all_figures(digits),
    decreases digits.len(),
{
    if digits.len() > 0 {
        lemma_counted(digits.drop_last());
        assert forall|i: int| 0 <= i < digits.len() implies gcode::figure(#[trigger] digits[i]) by {
            if i < digits.len() - 1 {
                assert(digits.drop_last()[i] == digits[i]);
            }
        }
    }
}

/// Runs of the same bytes that end in front of the same byte are the same run.
proof fn lemma_same_run(a: Seq<u8>, b: Seq<u8>, at: int, stop: int, kind: spec_fn(u8) -> bool)
    requires
        0 <= at <= stop < a.len(),
        stop < b.len(),
        forall|i: int| at <= i <= stop ==> #[trigger] a[i] == b[i],
        !kind(a[stop]),
    ensures
        gcode::run_end(a, at, kind) == gcode::run_end(b, at, kind),
        at <= gcode::run_end(a, at, kind) <= stop,
    decreases stop - at,
{
    assert(a[at] == b[at]);
    if kind(a[at]) {
        lemma_same_run(a, b, at + 1, stop, kind);
    }
}

/// A run that stands elsewhere in another text ends as much further on.
proof fn lemma_moved_run(a: Seq<u8>, b: Seq<u8>, at: int, by: int, kind: spec_fn(u8) -> bool)
    requires
        0 <= at <= a.len(),
        0 <= at + by,
        b.len() == a.len() + by,
        forall|i: int| at <= i < a.len() ==> #[trigger] a[i] == b[i + by],
    ensures
        gcode::run_end(b, at + by, kind) == gcode::run_end(a, at, kind) + by,
        at <= gcode::run_end(a, at, kind) <= a.len(),
    decreases a.len() - at,
{
    if at < a.len() {
        assert(a[at] == b[at + by]);
        if kind(a[at]) {
            lemma_moved_run(a, b, at + 1, by, kind);
        }
    }
}

/// The figures put in place of a value are all the figures behind its letter.
proof fn lemma_new_run(body: Seq<u8>, start: int, end: int, digits: Seq<u8>, at: int)
    requires
        stands(body, start, end),
        all_figures(digits),
        start <= at <= start + digits.len(),
    ensures
        gcode::figures_end(gcode::replaced(body, start, end, digits), at) == start + digits.len(),
    decreases start + digits.len() - at,
{
    let made = gcode::replaced(body, start, end, digits);
    let kind = |byte: u8| gcode::figure(byte);
    gcode::lemma_run_end(body, start, kind);
    if at < start + digits.len() {
        assert(made[at] == digits[at - start]);
        lemma_new_run(body, start, end, digits, at + 1);
    } else if at < made.len() {
        assert(made[at] == body[end]);
    }
}

proof fn lemma_before(body: Seq<u8>, start: int, end: int, digits: Seq<u8>, at: int, letter: u8)
    requires
        stands(body, start, end),
        0 <= at < start - 1,
    ensures
        gcode::word_at(gcode::replaced(body, start, end, digits), at, letter) == gcode::word_at(
            body,
            at,
            letter,
        ),
        gcode::plane_at(gcode::replaced(body, start, end, digits), at) == gcode::plane_at(body, at),
{
    let made = gcode::replaced(body, start, end, digits);
    let kind = |byte: u8| gcode::figure(byte);
    assert(forall|i: int| 0 <= i < start ==> #[trigger] made[i] == body[i]);
    lemma_same_run(body, made, at + 1, start - 1, kind);
    let stop = gcode::figures_end(body, at + 1);
    assert(made.subrange(at + 1, stop) =~= body.subrange(at + 1, stop));
}

proof fn lemma_behind(body: Seq<u8>, start: int, end: int, digits: Seq<u8>, at: int, letter: u8)
    requires
        stands(body, start, end),
        end <= at < body.len(),
        body.len() <= usize::MAX,
        body.len() + digits.len() - (end - start) <= usize::MAX,
    ensures
        gcode::word_at(
            gcode::replaced(body, start, end, digits),
            at + digits.len() - (end - start),
            letter,
        ) == shifted(
            gcode::word_at(body, at, letter),
            end,
            digits.len() - (end - start),
        ),
        gcode::word_at(body, at, letter) is Some ==> gcode::word_at(body, at, letter)->0.start > end,
        gcode::plane_at(
            gcode::replaced(body, start, end, digits),
            at + digits.len() - (end - start),
        ) == gcode::plane_at(body, at),
{
    let made = gcode::replaced(body, start, end, digits);
    let kind = |byte: u8| gcode::figure(byte);
    let by = digits.len() - (end - start);
    assert(forall|i: int| end <= i < body.len() ==> #[trigger] body[i] == made[i + by]);
    assert(body[at] == made[at + by]);
    lemma_moved_run(body, made, at + 1, by, kind);
    let stop = gcode::figures_end(body, at + 1);
    assert(made.subrange(at + 1 + by, stop + by) =~= body.subrange(at + 1, stop));
}

/// No word opens among figures.
proof fn lemma_among(body: Seq<u8>, from: int, upto: int, letter: u8)
    requires
        0 <= from <= upto <= body.len(),
        0x61 <= letter <= 0x7a,
        forall|i: int| from <= i < upto ==> gcode::figure(#[trigger] body[i]),
    ensures
        gcode::last_word(body, letter, upto) == gcode::last_word(body, letter, from),
    decreases upto - from,
{
    if from < upto {
        assert(gcode::figure(body[upto - 1]));
        lemma_among(body, from, upto - 1, letter);
    }
}

proof fn lemma_words_before(
    body: Seq<u8>,
    start: int,
    end: int,
    digits: Seq<u8>,
    upto: int,
    letter: u8,
)
    requires
        stands(body, start, end),
        0 <= upto < start,
    ensures
        gcode::last_word(gcode::replaced(body, start, end, digits), letter, upto)
            == gcode::last_word(body, letter, upto),
        gcode::last_word(body, letter, upto) is Some ==> gcode::last_word(
            body,
            letter,
            upto,
        )->0.start <= upto,
    decreases upto,
{
    if upto > 0 {
        lemma_words_before(body, start, end, digits, upto - 1, letter);
        lemma_before(body, start, end, digits, upto - 1, letter);
    }
}

/// What the words of one letter become where `upto` bytes of the body have been
/// read, once the whole of the replaced value has.
proof fn lemma_words(body: Seq<u8>, start: int, end: int, digits: Seq<u8>, upto: int, letter: u8)
    requires
        stands(body, start, end),
        all_figures(digits),
        end <= upto <= body.len(),
        body.len() <= usize::MAX,
        body.len() + digits.len() - (end - start) <= usize::MAX,
        0x61 <= letter <= 0x7a,
    ensures
        ({
            let made = gcode::replaced(body, start, end, digits);
            let by = digits.len() - (end - start);
            let was = gcode::last_word(body, letter, upto);
            let now = gcode::last_word(made, letter, upto + by);
            &&& text::lower(body[start - 1]) != letter ==> now == shifted(was, end, by)
            &&& text::lower(body[start - 1]) == letter && was is Some && was->0.start == start
                && gcode::number_of(digits) is Some ==> now == Some(
                Word {
                    start: start as usize,
                    end: (start + digits.len()) as usize,
                    value: gcode::number_of(digits)->0,
                },
            )
        }),
    decreases upto,
{
    let made = gcode::replaced(body, start, end, digits);
    let by = digits.len() - (end - start);
    let kind = |byte: u8| gcode::figure(byte);
    if upto > end {
        lemma_behind(body, start, end, digits, upto - 1, letter);
        lemma_words(body, start, end, digits, upto - 1, letter);
    } else {
        gcode::lemma_run_end(body, start, kind);
        lemma_among(body, start, end, letter);
        assert forall|i: int| start <= i < start + digits.len() implies gcode::figure(
            #[trigger] made[i],
        ) by {
            assert(made[i] == digits[i - start]);
        }
        lemma_among(made, start, start + digits.len(), letter);
        lemma_words_before(body, start, end, digits, start - 1, letter);
        lemma_new_run(body, start, end, digits, start);
        assert(made[start - 1] == body[start - 1]);
        assert(made.subrange(start, start + digits.len()) =~= digits);
    }
}

proof fn lemma_plane(body: Seq<u8>, start: int, end: int, digits: Seq<u8>)
    requires
        stands(body, start, end),
        all_figures(digits),
        start < end,
        digits.len() > 0,
        body.len() <= usize::MAX,
        body.len() + digits.len() - (end - start) <= usize::MAX,
    ensures
        gcode::in_plane(gcode::replaced(body, start, end, digits)) == gcode::in_plane(body),
{
    let made = gcode::replaced(body, start, end, digits);
    let by = digits.len() - (end - start);
    let kind = |byte: u8| gcode::figure(byte);
    gcode::lemma_run_end(body, start, kind);
    lemma_new_run(body, start, end, digits, start);
    assert(made[start - 1] == body[start - 1]);
    assert(gcode::plane_at(made, start - 1) == gcode::plane_at(body, start - 1));
    if gcode::in_plane(body) {
        let at = choose|at: int| 0 <= at < body.len() && #[trigger] gcode::plane_at(body, at);
        if at < start - 1 {
            lemma_before(body, start, end, digits, at, 0x78);
            assert(gcode::plane_at(made, at));
        } else if at >= end {
            lemma_behind(body, start, end, digits, at, 0x78);
            assert(gcode::plane_at(made, at + by));
        } else if at >= start {
            assert(gcode::figure(body[at]));
        }
    }
    if gcode::in_plane(made) {
        let at = choose|at: int| 0 <= at < made.len() && #[trigger] gcode::plane_at(made, at);
        if at < start - 1 {
            lemma_before(body, start, end, digits, at, 0x78);
            assert(gcode::plane_at(body, at));
        } else if at >= start + digits.len() {
            lemma_behind(body, start, end, digits, at - by, 0x78);
            assert(gcode::plane_at(body, at - by));
        } else if at >= start {
            assert(made[at] == digits[at - start]);
        }
    }
}

/// The command of a line is read before any word that is not a command itself.
proof fn lemma_command(body: Seq<u8>, start: int, end: int, digits: Seq<u8>)
    requires
        stands(body, start, end),
        text::lower(body[start - 1]) != 0x67,
        text::lower(body[start - 1]) != 0x6d,
        text::lower(body[start - 1]) != 0x6e,
    ensures
        gcode::command(gcode::replaced(body, start, end, digits)) == gcode::command(body),
{
    let made = gcode::replaced(body, start, end, digits);
    let blank = |byte: u8| text::blank(byte);
    let digit = |byte: u8| text::digit(byte);
    let stop = start - 1;
    assert(forall|i: int| 0 <= i < start ==> #[trigger] made[i] == body[i]);
    lemma_same_run(body, made, 0, stop, blank);
    let at = gcode::blank_end(body, 0);
    assert(made[at] == body[at]);
    if at < stop {
        lemma_same_run(body, made, at + 1, stop, digit);
        let after = gcode::digits_end(body, at + 1);
        lemma_same_run(body, made, after, stop, blank);
    }
    let found = gcode::command_at(body);
    assert(gcode::command_at(made) == found);
    assert(made[found] == body[found]);
    if found < stop {
        lemma_same_run(body, made, found + 1, stop, digit);
        let last = gcode::digits_end(body, found + 1);
        assert(made.subrange(found + 1, last) =~= body.subrange(found + 1, last));
    }
}

/// A line's body ends where it did, past the figures that were put in.
proof fn lemma_body(raw: Seq<u8>, start: int, end: int, digits: Seq<u8>)
    requires
        stands(gcode::body_of(raw), start, end),
        all_figures(digits),
    ensures
        gcode::body_of(gcode::replaced(raw, start, end, digits)) == gcode::replaced(
            gcode::body_of(raw),
            start,
            end,
            digits,
        ),
{
    let made = gcode::replaced(raw, start, end, digits);
    let by = digits.len() - (end - start);
    text::lemma_find(raw, 0x3b, 0, raw.len() as int);
    text::lemma_find(made, 0x3b, 0, made.len() as int);
    let was = text::find(raw, 0x3b, 0, raw.len() as int);
    let now = text::find(made, 0x3b, 0, made.len() as int);
    assert forall|i: int| 0 <= i < was + by implies #[trigger] made[i] != 0x3b by {
        if i < start {
            assert(made[i] == raw[i]);
        } else if i < start + digits.len() {
            assert(gcode::figure(digits[i - start]));
        } else {
            assert(made[i] == raw[i - by]);
        }
    }
    if was < raw.len() {
        assert(made[was + by] == raw[was]);
    }
    assert(now == was + by);
    assert(gcode::body_of(made) =~= gcode::replaced(gcode::body_of(raw), start, end, digits));
}

/// A word that a line has stands in its body, and has figures.
pub proof fn lemma_stands(body: Seq<u8>, letter: u8, upto: int)
    requires
        0 <= upto <= body.len() <= usize::MAX,
        0x61 <= letter <= 0x7a,
    ensures
        gcode::last_word(body, letter, upto) matches Some(word) ==> {
            &&& stands(body, word.start as int, word.end as int)
            &&& text::lower(body[word.start - 1]) == letter
            &&& word.start < word.end
        },
    decreases upto,
{
    if upto > 0 {
        let kind = |byte: u8| gcode::figure(byte);
        gcode::lemma_run_end(body, upto, kind);
        lemma_stands(body, letter, upto - 1);
        let end = gcode::figures_end(body, upto);
        if end == upto {
            lemma_nothing(body.subrange(upto, end));
        }
    }
}

/// No figures are no number.
pub proof fn lemma_nothing(digits: Seq<u8>)
    requires
        digits.len() == 0,
    ensures
        gcode::number_of(digits) is None,
{
    assert(gcode::unsigned(digits).len() == 0);
}

/// A letter that opens a word of a move and is no command of its own.
pub open spec fn axis(letter: u8) -> bool {
    letter == 0x78 || letter == 0x79 || letter == 0x7a || letter == 0x65 || letter == 0x66
        || letter == 0x69 || letter == 0x6a
}

/// The word some digits make behind a letter.
pub open spec fn read_back(start: int, digits: Seq<u8>) -> Word {
    Word {
        start: start as usize,
        end: (start + digits.len()) as usize,
        value: gcode::number_of(digits)->0,
    }
}

/// The word of a line that a letter opens, where the line is read for it.
pub open spec fn word_of(line: gcode::Line, letter: u8) -> Option<Word> {
    if letter == 0x78 {
        line.x
    } else if letter == 0x79 {
        line.y
    } else if letter == 0x7a {
        line.z
    } else if letter == 0x65 {
        line.e
    } else if letter == 0x66 {
        line.f
    } else if letter == 0x69 {
        line.i
    } else if letter == 0x6a {
        line.j
    } else {
        None
    }
}

pub proof fn lemma_whole(raw: Seq<u8>, letter: u8, digits: Seq<u8>)
    requires
        axis(letter),
        raw.len() <= usize::MAX,
        gcode::word(gcode::body_of(raw), letter) is Some,
        ({
            let word = gcode::word(gcode::body_of(raw), letter)->0;
            raw.len() + digits.len() - (word.end - word.start) <= usize::MAX
        }),
        all_figures(digits),
        gcode::number_of(digits) is Some,
    ensures
        ({
            let body = gcode::body_of(raw);
            let word = gcode::word(body, letter)->0;
            let by = digits.len() - (word.end - word.start);
            let made = gcode::replaced(raw, word.start as int, word.end as int, digits);
            let changed = gcode::body_of(made);
            &&& 1 <= word.start <= word.end <= body.len() <= raw.len()
            &&& changed.len() == body.len() + by
            &&& made.len() == raw.len() + by
            &&& gcode::command(changed) == gcode::command(body)
            &&& gcode::in_plane(changed) == gcode::in_plane(body)
            &&& gcode::word(changed, letter) == Some(read_back(word.start as int, digits))
            &&& forall|other: u8| #[trigger]
                axis(other) && other != letter ==> gcode::word(changed, other) == shifted(
                    gcode::word(body, other),
                    word.end as int,
                    by,
                )
        }),
{
    let body = gcode::body_of(raw);
    let word = gcode::word(body, letter)->0;
    let start = word.start as int;
    let end = word.end as int;
    let by = digits.len() - (end - start);
    text::lemma_find(raw, 0x3b, 0, raw.len() as int);
    lemma_stands(body, letter, body.len() as int);
    lemma_body(raw, start, end, digits);
    if digits.len() == 0 {
        lemma_nothing(digits);
    }
    lemma_command(body, start, end, digits);
    lemma_plane(body, start, end, digits);
    let upto = body.len() as int;
    lemma_words(body, start, end, digits, upto, letter);
    assert forall|other: u8| #[trigger] axis(other) && other != letter implies gcode::word(
        gcode::body_of(gcode::replaced(raw, start, end, digits)),
        other,
    ) == shifted(gcode::word(body, other), end, by) by {
        lemma_words(body, start, end, digits, upto, other);
    }
}

/// A line in which one word was given other digits says what it said, with that
/// number for that word: it has the same command, nothing else of it has another
/// value, and its comment is where it was but for the bytes that were put in.
pub proof fn a_rewritten_word_changes_nothing_else(
    raw: &str,
    made: &str,
    letter: u8,
    digits: Seq<u8>,
)
    requires
        axis(letter),
        text::bytes(raw@).len() <= usize::MAX,
        text::bytes(made@).len() <= usize::MAX,
        word_of(gcode::reading(raw, true), letter) is Some,
        ({
            let word = word_of(gcode::reading(raw, true), letter)->0;
            text::bytes(made@) == gcode::replaced(
                text::bytes(raw@),
                word.start as int,
                word.end as int,
                digits,
            )
        }),
        gcode::plain(digits),
    ensures
        ({
            let was = gcode::reading(raw, true);
            let now = gcode::reading(made, true);
            let word = word_of(was, letter)->0;
            let by = digits.len() - (word.end - word.start);
            &&& now.code == was.code
            &&& now.clockwise == was.clockwise
            &&& now.has_xy == was.has_xy
            &&& word_of(now, letter) == Some(read_back(word.start as int, digits))
            &&& forall|other: u8| #[trigger]
                axis(other) && other != letter ==> word_of(now, other) == shifted(
                    word_of(was, other),
                    word.end as int,
                    by,
                )
            &&& now.comment_at is Some == was.comment_at is Some
            &&& was.comment_at is Some ==> now.comment_at->0 == was.comment_at->0 + by
        }),
{
    lemma_plain(digits);
    let bytes = text::bytes(raw@);
    let body = gcode::body_of(bytes);
    assert(word_of(gcode::reading(raw, true), letter) == gcode::word(body, letter));
    let word = gcode::word(body, letter)->0;
    text::lemma_find(bytes, 0x3b, 0, bytes.len() as int);
    lemma_stands(body, letter, body.len() as int);
    assert(text::bytes(made@).len() == bytes.len() + digits.len() - (word.end - word.start));
    lemma_whole(bytes, letter, digits);
}

/// A byte that is part of a white space character: no letter, no figure, and no
/// start of a comment.
pub open spec fn spacing(byte: u8) -> bool {
    byte >= 0x80 || 0x09 <= byte <= 0x0d || byte == 0x20
}

pub proof fn lemma_spaces(raw: Seq<u8>, end: int)
    requires
        0 <= end <= raw.len(),
    ensures
        0 <= text::before_space(raw, 0, end) <= end,
        forall|i: int|
            text::before_space(raw, 0, end) <= i < end ==> spacing(#[trigger] raw[i]),
        text::before_space(raw, 0, end) > 0 ==> !text::blank(
            raw[text::before_space(raw, 0, end) - 1],
        ),
    decreases end,
{
    let width = text::space_before(raw, end);
    if width > 0 && end - width >= 0 {
        lemma_spaces(raw, end - width);
    }
}

/// The same words open in the first `end` bytes of two bodies, where the figures
/// of both stop there.
proof fn lemma_same_words(a: Seq<u8>, b: Seq<u8>, end: int, upto: int, letter: u8)
    requires
        0 <= upto <= end <= a.len(),
        end <= b.len(),
        forall|i: int| 0 <= i < end ==> #[trigger] a[i] == b[i],
        end < a.len() ==> !gcode::figure(a[end]),
        end < b.len() ==> !gcode::figure(b[end]),
    ensures
        gcode::last_word(a, letter, upto) == gcode::last_word(b, letter, upto),
    decreases upto,
{
    if upto > 0 {
        lemma_same_words(a, b, end, upto - 1, letter);
        lemma_same_place(a, b, end, upto - 1, letter);
    }
}

proof fn lemma_same_place(a: Seq<u8>, b: Seq<u8>, end: int, at: int, letter: u8)
    requires
        0 <= at < end <= a.len(),
        end <= b.len(),
        forall|i: int| 0 <= i < end ==> #[trigger] a[i] == b[i],
        end < a.len() ==> !gcode::figure(a[end]),
        end < b.len() ==> !gcode::figure(b[end]),
    ensures
        gcode::word_at(a, at, letter) == gcode::word_at(b, at, letter),
        gcode::plane_at(a, at) == gcode::plane_at(b, at),
{
    let kind = |byte: u8| gcode::figure(byte);
    lemma_run_to(a, b, at + 1, end, kind);
    let stop = gcode::figures_end(a, at + 1);
    assert(a[at] == b[at]);
    assert(a.subrange(at + 1, stop) =~= b.subrange(at + 1, stop));
}

/// Runs of the same bytes that cannot go past `end` are the same run.
proof fn lemma_run_to(a: Seq<u8>, b: Seq<u8>, at: int, end: int, kind: spec_fn(u8) -> bool)
    requires
        0 <= at <= end <= a.len(),
        end <= b.len(),
        forall|i: int| 0 <= i < end ==> #[trigger] a[i] == b[i],
        end < a.len() ==> !kind(a[end]),
        end < b.len() ==> !kind(b[end]),
    ensures
        gcode::run_end(a, at, kind) == gcode::run_end(b, at, kind),
        at <= gcode::run_end(a, at, kind) <= end,
    decreases end - at,
{
    if at < end {
        assert(a[at] == b[at]);
        if kind(a[at]) {
            lemma_run_to(a, b, at + 1, end, kind);
        }
    }
}

/// No word opens among white space.
proof fn lemma_no_words(body: Seq<u8>, from: int, upto: int, letter: u8)
    requires
        0 <= from <= upto <= body.len(),
        0x61 <= letter <= 0x7a,
        forall|i: int| from <= i < upto ==> spacing(#[trigger] body[i]),
    ensures
        gcode::last_word(body, letter, upto) == gcode::last_word(body, letter, from),
    decreases upto - from,
{
    if from < upto {
        assert(spacing(body[upto - 1]));
        lemma_no_words(body, from, upto - 1, letter);
    }
}

/// A body with a `Z` word put in at `end`.
pub open spec fn lifted(body: Seq<u8>, end: int, digits: Seq<u8>) -> Seq<u8> {
    body.take(end) + seq![0x20u8, 0x5a] + digits + body.skip(end)
}

/// Where a body's last bytes are white space, the text before them ends.
pub open spec fn trimmed_at(body: Seq<u8>, end: int) -> bool {
    &&& 0 <= end <= body.len()
    &&& forall|i: int| end <= i < body.len() ==> spacing(#[trigger] body[i])
    &&& end > 0 ==> !text::blank(body[end - 1])
}

pub proof fn lemma_lifted_words(body: Seq<u8>, end: int, digits: Seq<u8>, letter: u8)
    requires
        trimmed_at(body, end),
        all_figures(digits),
        gcode::number_of(digits) is Some,
        axis(letter),
        lifted(body, end, digits).len() <= usize::MAX,
    ensures
        gcode::word(lifted(body, end, digits), letter) == if letter == 0x7a {
            Some(read_back(end + 2, digits))
        } else {
            gcode::word(body, letter)
        },
{
    let made = lifted(body, end, digits);
    let last = end + 2 + digits.len();
    let kind = |byte: u8| gcode::figure(byte);
    assert forall|i: int| end + 2 <= i < last implies gcode::figure(#[trigger] made[i]) by {
        assert(made[i] == digits[i - end - 2]);
    }
    assert forall|i: int| last <= i < made.len() implies spacing(#[trigger] made[i]) by {
        assert(made[i] == body[i - last + end]);
    }
    lemma_no_words(made, last, made.len() as int, letter);
    lemma_among(made, end + 2, last, letter);
    assert(made[end] == 0x20);
    assert(made[end + 1] == 0x5a);
    if letter == 0x7a {
        gcode::lemma_run_end(made, end + 2, kind);
        assert(made.subrange(end + 2, last) =~= digits);
        let stop = gcode::figures_end(made, end + 2);
        if stop < last {
            assert(gcode::figure(made[stop]));
        } else if stop > last {
            assert(gcode::figure(made[last]));
        }
    } else {
        assert(gcode::last_word(made, letter, end + 1) == gcode::last_word(made, letter, end));
        if end < body.len() {
            assert(spacing(body[end]));
        }
        lemma_same_words(body, made, end, end, letter);
        lemma_no_words(body, end, body.len() as int, letter);
    }
}

pub proof fn lemma_lifted_plane(body: Seq<u8>, end: int, digits: Seq<u8>)
    requires
        trimmed_at(body, end),
        all_figures(digits),
    ensures
        gcode::in_plane(lifted(body, end, digits)) == gcode::in_plane(body),
{
    let made = lifted(body, end, digits);
    assert(made[end] == 0x20);
    assert(made[end + 1] == 0x5a);
    if end < body.len() {
        assert(spacing(body[end]));
    }
    assert forall|at: int| 0 <= at < end implies #[trigger] gcode::plane_at(made, at)
        == gcode::plane_at(body, at) by {
        lemma_same_place(body, made, end, at, 0x78);
    }
    if gcode::in_plane(body) {
        let at = choose|at: int| 0 <= at < body.len() && #[trigger] gcode::plane_at(body, at);
        if at >= end {
            assert(spacing(body[at]));
        }
        assert(gcode::plane_at(made, at));
    }
    if gcode::in_plane(made) {
        let at = choose|at: int| 0 <= at < made.len() && #[trigger] gcode::plane_at(made, at);
        if at >= end + 2 + digits.len() {
            assert(made[at] == body[at - 2 - digits.len()]);
            assert(spacing(made[at]));
        } else if at >= end + 2 {
            assert(made[at] == digits[at - end - 2]);
        }
        assert(gcode::plane_at(body, at));
    }
}

pub proof fn lemma_lifted_command(body: Seq<u8>, end: int, digits: Seq<u8>)
    requires
        trimmed_at(body, end),
    ensures
        gcode::command(lifted(body, end, digits)) == gcode::command(body),
{
    let made = lifted(body, end, digits);
    let blank = |byte: u8| text::blank(byte);
    let digit = |byte: u8| text::digit(byte);
    assert(made[end] == 0x20);
    assert(made[end + 1] == 0x5a);
    assert(forall|i: int| 0 <= i < end ==> #[trigger] made[i] == body[i]);
    if end < body.len() {
        assert(spacing(body[end]));
    }
    gcode::lemma_run_end(body, 0, blank);
    gcode::lemma_run_end(made, 0, blank);
    let at = gcode::blank_end(body, 0);
    if end == 0 {
        // Nothing but white space: there is no command, and then only a `Z`.
        assert(gcode::blank_end(made, 0) == 1) by {
            assert(gcode::run_end(made, 1, blank) == 1);
        }
        if at < body.len() {
            assert(spacing(body[at]));
        }
        lemma_no_command(body, at);
        lemma_no_command(made, 1);
    } else {
        // The last byte that is no white space stops every run of it.
        lemma_same_run(body, made, 0, end - 1, blank);
        assert(made[at] == body[at]);
        lemma_run_to(body, made, at + 1, end, digit);
        let after = gcode::digits_end(body, at + 1);
        let numbered = text::lower(body[at]) == 0x6e && after > at + 1;
        if numbered && after == end {
            // A line number and nothing else.
            gcode::lemma_run_end(body, end, blank);
            let found = gcode::blank_end(body, end);
            if found < body.len() {
                assert(spacing(body[found]));
            }
            assert(gcode::blank_end(made, end) == end + 1) by {
                assert(gcode::run_end(made, end + 1, blank) == end + 1);
            }
            lemma_no_command(body, found);
            lemma_no_command(made, end + 1);
        } else {
            if numbered {
                lemma_same_run(body, made, after, end - 1, blank);
            }
            let found = gcode::command_at(body);
            assert(gcode::command_at(made) == found);
            assert(made[found] == body[found]);
            lemma_run_to(body, made, found + 1, end, digit);
            let last = gcode::digits_end(body, found + 1);
            assert(made.subrange(found + 1, last) =~= body.subrange(found + 1, last));
        }
    }
}

/// A byte that is neither a `G` nor an `M` opens no command that is known.
proof fn lemma_no_command(body: Seq<u8>, at: int)
    requires
        gcode::command_at(body) == at,
        0 <= at < body.len() ==> text::lower(body[at]) != 0x67 && text::lower(body[at]) != 0x6d,
        0 <= at,
    ensures
        gcode::command(body) == (Code::Other, false),
{
}

/// Taking the word that was put in out again gives the line back, byte for byte.
pub proof fn a_height_that_rides_a_line_comes_out_whole(raw: Seq<u8>, digits: Seq<u8>)
    ensures
        ({
            let made = gcode::with_z(raw, digits);
            let at = gcode::body_end(raw);
            let width = 2 + digits.len();
            &&& 0 <= at <= gcode::body_of(raw).len() <= raw.len()
            &&& made.len() == raw.len() + width
            &&& made.subrange(at, at + width) == seq![0x20u8, 0x5a] + digits
            &&& made.take(at) + made.skip(at + width) == raw
        }),
{
    let made = gcode::with_z(raw, digits);
    let at = gcode::body_end(raw);
    let width = 2 + digits.len();
    text::lemma_find(raw, 0x3b, 0, raw.len() as int);
    lemma_spaces(raw, gcode::body_of(raw).len() as int);
    assert(made.subrange(at, at + width) =~= seq![0x20u8, 0x5a] + digits);
    assert(made.take(at) + made.skip(at + width) =~= raw);
}

/// A line that had no `Z` word and was given one at its end says what it said,
/// with that number for its `Z`: every other word is where it was.
pub proof fn a_height_that_rides_a_line_reads_back(raw: &str, made: &str, digits: Seq<u8>)
    requires
        text::bytes(raw@).len() <= usize::MAX,
        text::bytes(made@).len() <= usize::MAX,
        text::bytes(made@) == gcode::with_z(text::bytes(raw@), digits),
        gcode::plain(digits),
    ensures
        ({
            let was = gcode::reading(raw, true);
            let now = gcode::reading(made, true);
            &&& now.code == was.code
            &&& now.clockwise == was.clockwise
            &&& now.has_xy == was.has_xy
            &&& now.z is Some
            &&& now.z->0.value == gcode::number_of(digits)->0
            &&& forall|other: u8| #[trigger]
                axis(other) && other != 0x7a ==> word_of(now, other) == word_of(was, other)
            &&& now.comment_at is Some == was.comment_at is Some
            &&& was.comment_at is Some ==> now.comment_at->0 == was.comment_at->0 + 2
                + digits.len()
        }),
{
    lemma_plain(digits);
    let bytes = text::bytes(raw@);
    let body = gcode::body_of(bytes);
    let found = body.len() as int;
    text::lemma_find(bytes, 0x3b, 0, bytes.len() as int);
    lemma_spaces(bytes, found);
    let end = text::before_space(bytes, 0, found);
    assert(trimmed_at(body, end)) by {
        assert forall|i: int| end <= i < body.len() implies spacing(#[trigger] body[i]) by {
            assert(body[i] == bytes[i]);
        }
    }
    let whole = gcode::with_z(bytes, digits);
    let changed = lifted(body, end, digits);
    let last = changed.len() as int;
    assert forall|i: int| 0 <= i < last implies #[trigger] whole[i] == changed[i] && whole[i]
        != 0x3b by {
        if i < end {
            assert(bytes[i] != 0x3b);
        } else if i >= end + 2 + digits.len() {
            let was = i - 2 - digits.len();
            assert(whole[i] == bytes[was]);
            assert(changed[i] == body[was]);
            assert(bytes[was] != 0x3b);
        } else if i >= end + 2 {
            assert(gcode::figure(digits[i - end - 2]));
        }
    }
    text::lemma_find(whole, 0x3b, 0, whole.len() as int);
    if found < bytes.len() {
        assert(whole[last] == bytes[found]);
    }
    assert(gcode::body_of(whole) =~= changed);
    lemma_lifted_command(body, end, digits);
    lemma_lifted_plane(body, end, digits);
    lemma_lifted_words(body, end, digits, 0x78);
    lemma_lifted_words(body, end, digits, 0x79);
    lemma_lifted_words(body, end, digits, 0x7a);
    lemma_lifted_words(body, end, digits, 0x65);
    lemma_lifted_words(body, end, digits, 0x66);
    lemma_lifted_words(body, end, digits, 0x69);
    lemma_lifted_words(body, end, digits, 0x6a);
}

/// Whatever is laid down for a value is a plain decimal, so a line it is written
/// into reads back with it.
pub proof fn what_is_laid_down_is_plain(negative: bool, scaled: nat, decimals: nat)
    requires
        scaled < gcode::tens(gcode::MAX_EXACT_DIGITS as nat),
        decimals <= gcode::MAX_FIXED_DECIMALS,
    ensures
        gcode::plain(gcode::laid(negative, scaled, decimals)),
{
    gcode::what_is_laid_down_reads_back(negative, scaled, decimals);
}

} // verus!
