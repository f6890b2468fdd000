//! The grammar of a line.
//!
//! Nothing here is run. Lines, numbers, commands and words are put together out
//! of their parts, and what is read out of them is held to that.

use crate::gcode;
use crate::gcode::Code;
use crate::gcode::Line;
use crate::gcode::Number;
use crate::gcode::Word;
use crate::slicer;
use crate::text;
use crate::wording;
use vstd::prelude::*;

verus! {

/// A byte of white space as a line has it between its words: space, tab, line
/// feed, form feed or carriage return.
pub open spec fn is_blank(byte: u8) -> bool {
    byte == 32 || byte == 9 || byte == 10 || byte == 12 || byte == 13
}

/// There is nothing but blanks.
pub open spec fn all_blank(raw: Seq<u8>) -> bool {
    forall|i: int| 0 <= i < raw.len() ==> is_blank(#[trigger] raw[i])
}

/// A byte of a value: a digit, a point or a sign.
pub open spec fn is_figure(byte: u8) -> bool {
    48 <= byte <= 57 || byte == 46 || byte == 45 || byte == 43
}

/// There is nothing but digits, points and signs.
pub open spec fn all_figures(raw: Seq<u8>) -> bool {
    forall|i: int| 0 <= i < raw.len() ==> is_figure(#[trigger] raw[i])
}

/// A stream gives up its lines one by one: a line ends at a line feed, and the
/// carriage return before that goes with it, but no other.
pub proof fn a_line_ends_at_its_line_feed(line: Seq<u8>, rest: Seq<u8>)
    requires
        !line.contains(10),
    ensures
        line.len() > 0 && line.last() == 13 ==> gcode::line_of(line + seq![10u8] + rest) == (
            line.drop_last(),
            rest,
        ) && gcode::stripped(line + seq![10u8]) == line.drop_last(),
        line.len() == 0 || line.last() != 13 ==> gcode::line_of(line + seq![10u8] + rest) == (
            line,
            rest,
        ) && gcode::stripped(line + seq![10u8]) == line,
        gcode::line_of(line) == (line, Seq::<u8>::empty()),
        gcode::stripped(line) == line,
{
    let raw = line + seq![10u8] + rest;
    text::lemma_find(raw, 0x0a, 0, raw.len() as int);
    text::lemma_find(line, 0x0a, 0, line.len() as int);
    let end = text::find(raw, 0x0a, 0, raw.len() as int);
    assert(raw[line.len() as int] == 10);
    if end < line.len() {
        assert(raw[end] == line[end]);
        assert(line.contains(line[end]));
    }
    assert(raw.take(end) =~= line);
    assert(raw.skip(end + 1) =~= rest);
    let whole = line + seq![10u8];
    assert(whole.take(whole.len() - 1) =~= line);
    if line.len() > 0 {
        assert(raw[end - 1] == line.last());
        assert(raw.take(end - 1) =~= line.drop_last());
        assert(whole.take(whole.len() - 2) =~= line.drop_last());
        assert(whole[whole.len() - 2] == line.last());
        assert(line.contains(line.last()));
        if line.len() >= 1 {
            assert(line[line.len() - 1] != 10);
        }
    }
}

/// How some digits count, behind what has been counted.
proof fn lemma_digits(before: Seq<u8>, digits: Seq<u8>)
    requires
        wording::are_digits(digits),
    ensures
        ({
            let was = gcode::figures(before);
            let now = gcode::figures(before + digits);
            &&& now.digits == was.digits + digits.len()
            &&& now.points == was.points
            &&& now.others == was.others
            &&& now.decimals == if was.points > 0 {
                was.decimals + digits.len()
            } else {
                if digits.len() > 0 {
                    0
                } else {
                    was.decimals
                }
            }
        }),
    decreases digits.len(),
{
    if digits.len() == 0 {
        assert(before + digits =~= before);
    } else {
        let less = digits.drop_last();
        assert(wording::are_digits(less)) by {
            assert forall|i: int| 0 <= i < less.len() implies 48 <= #[trigger] less[i] <= 57 by {
                assert(less[i] == digits[i]);
            }
        }
        lemma_digits(before, less);
        assert((before + digits).drop_last() =~= before + less);
        assert((before + digits).last() == digits.last());
        assert(48 <= digits[digits.len() - 1] <= 57);
    }
}

/// Putting the point in does not change what digits are worth.
proof fn lemma_pointed(whole: Seq<u8>, decimals: Seq<u8>)
    requires
        wording::are_digits(whole),
        wording::are_digits(decimals),
    ensures
        ({
            let raw = whole + seq![46u8] + decimals;
            let counted = gcode::figures(raw);
            &&& counted.mantissa == slicer::spelled(whole + decimals)
            &&& counted.digits == whole.len() + decimals.len()
            &&& counted.points == 1
            &&& counted.others == 0
            &&& counted.decimals == decimals.len()
        }),
    decreases decimals.len(),
{
    let raw = whole + seq![46u8] + decimals;
    let head = whole + seq![46u8];
    lemma_plain(whole);
    assert(head.drop_last() =~= whole);
    lemma_digits(head, decimals);
    if decimals.len() == 0 {
        assert(raw =~= head);
        assert(whole + decimals =~= whole);
    } else {
        let less = decimals.drop_last();
        assert(wording::are_digits(less)) by {
            assert forall|i: int| 0 <= i < less.len() implies 48 <= #[trigger] less[i] <= 57 by {
                assert(less[i] == decimals[i]);
            }
        }
        lemma_pointed(whole, less);
        assert(raw.drop_last() =~= whole + seq![46u8] + less);
        assert((whole + decimals).drop_last() =~= whole + less);
        assert(48 <= decimals[decimals.len() - 1] <= 57);
    }
}

proof fn lemma_plain(whole: Seq<u8>)
    requires
        wording::are_digits(whole),
    ensures
        ({
            let counted = gcode::figures(whole);
            &&& counted.mantissa == slicer::spelled(whole)
            &&& counted.digits == whole.len()
            &&& counted.points == 0
            &&& counted.others == 0
            &&& counted.decimals == 0
        }),
    decreases whole.len(),
{
    if whole.len() > 0 {
        let less = whole.drop_last();
        assert(wording::are_digits(less)) by {
            assert forall|i: int| 0 <= i < less.len() implies 48 <= #[trigger] less[i] <= 57 by {
                assert(less[i] == whole[i]);
            }
        }
        lemma_plain(less);
        assert(48 <= whole[whole.len() - 1] <= 57);
    }
}

/// A sign before a number, or none.
pub open spec fn is_sign(sign: Seq<u8>) -> bool {
    sign.len() == 0 || sign == seq![45u8] || sign == seq![43u8]
}

/// A decimal is what its digits are worth, as many of them behind the point as
/// there are, and below zero where a minus stands before it. One of more than
/// fifteen digits is left to others.
pub proof fn a_decimal_is_what_its_digits_are_worth(
    sign: Seq<u8>,
    whole: Seq<u8>,
    decimals: Seq<u8>,
)
    requires
        is_sign(sign),
        wording::are_digits(whole),
        wording::are_digits(decimals),
        whole.len() + decimals.len() > 0,
    ensures
        ({
            let found = gcode::number_of(sign + whole + seq![46u8] + decimals);
            if whole.len() + decimals.len() <= 15 {
                &&& found is Some && found->0 is Exact
                &&& found->0->mantissa == wording::digits_worth(whole + decimals)
                &&& found->0->decimals == decimals.len()
                &&& found->0->negative == (sign == seq![45u8])
            } else {
                found == Some(Number::Handed)
            }
        }),
        decimals.len() == 0 ==> {
            let found = gcode::number_of(sign + whole);
            if whole.len() <= 15 {
                &&& found is Some && found->0 is Exact
                &&& found->0->mantissa == wording::digits_worth(whole)
                &&& found->0->decimals == 0
                &&& found->0->negative == (sign == seq![45u8])
            } else {
                found == Some(Number::Handed)
            }
        },
{
    let body = whole + seq![46u8] + decimals;
    let raw = sign + whole + seq![46u8] + decimals;
    let all = whole + decimals;
    assert(wording::are_digits(all)) by {
        assert forall|i: int| 0 <= i < all.len() implies 48 <= #[trigger] all[i] <= 57 by {
            if i < whole.len() {
                assert(all[i] == whole[i]);
            } else {
                assert(all[i] == decimals[i - whole.len()]);
            }
        }
    }
    lemma_pointed(whole, decimals);
    wording::digits_are_worth_what_they_spell(all);
    lemma_unsigned(sign, body);
    assert(raw =~= sign + body);
    if all.len() <= 15 {
        lemma_small(all);
    }
    if decimals.len() == 0 {
        lemma_plain(whole);
        assert(all =~= whole);
        assert(48 <= whole[0] <= 57);
        lemma_unsigned(sign, whole);
    }
}

proof fn lemma_unsigned(sign: Seq<u8>, body: Seq<u8>)
    requires
        is_sign(sign),
        body.len() > 0,
        48 <= body[0] <= 57 || body[0] == 46,
    ensures
        gcode::unsigned(sign + body) == body,
        ((sign + body)[0] == 45) == (sign == seq![45u8]),
{
    if sign.len() == 0 {
        assert(sign + body =~= body);
    } else {
        assert((sign + body)[0] == sign[0]);
        assert((sign + body).skip(1) =~= body);
        assert(seq![45u8][0] == 45 && seq![43u8][0] == 43);
    }
}

/// Fifteen digits fit.
proof fn lemma_small(digits: Seq<u8>)
    requires
        wording::are_digits(digits),
        digits.len() <= 15,
    ensures
        slicer::spelled(digits) < 1_000_000_000_000_000,
{
    lemma_bound(digits);
    reveal_with_fuel(gcode::tens, 16);
    lemma_tens_grow(digits.len(), 15);
}

proof fn lemma_tens_grow(a: nat, b: nat)
    requires
        a <= b,
    ensures
        gcode::tens(a) <= gcode::tens(b),
    decreases b,
{
    if a < b {
        lemma_tens_grow(a, (b - 1) as nat);
    }
}

proof fn lemma_bound(digits: Seq<u8>)
    requires
        wording::are_digits(digits),
    ensures
        slicer::spelled(digits) < gcode::tens(digits.len()),
    decreases digits.len(),
{
    if digits.len() > 0 {
        let less = digits.drop_last();
        assert(wording::are_digits(less)) by {
            assert forall|i: int| 0 <= i < less.len() implies 48 <= #[trigger] less[i] <= 57 by {
                assert(less[i] == digits[i]);
            }
        }
        lemma_bound(less);
        assert(48 <= digits[digits.len() - 1] <= 57);
    }
}

/// Where a run of bytes of one kind ends.
proof fn lemma_run(raw: Seq<u8>, at: int, end: int, kind: spec_fn(u8) -> bool)
    requires
        0 <= at <= end <= raw.len(),
        forall|i: int| at <= i < end ==> kind(#[trigger] raw[i]),
        end < raw.len() ==> !kind(raw[end]),
    ensures
        gcode::run_end(raw, at, kind) == end,
    decreases end - at,
{
    if at < end {
        assert(kind(raw[at]));
        lemma_run(raw, at + 1, end, kind);
    }
}

proof fn lemma_blanks(raw: Seq<u8>, at: int, end: int)
    requires
        0 <= at <= end <= raw.len(),
        forall|i: int| at <= i < end ==> is_blank(#[trigger] raw[i]),
        end < raw.len() ==> !is_blank(raw[end]),
    ensures
        gcode::blank_end(raw, at) == end,
{
    lemma_run(raw, at, end, |byte: u8| text::blank(byte));
}

proof fn lemma_digits_end(raw: Seq<u8>, at: int, end: int)
    requires
        0 <= at <= end <= raw.len(),
        forall|i: int| at <= i < end ==> 48 <= #[trigger] raw[i] <= 57,
        end < raw.len() ==> !(48 <= raw[end] <= 57),
    ensures
        gcode::digits_end(raw, at) == end,
{
    lemma_run(raw, at, end, |byte: u8| text::digit(byte));
}

proof fn lemma_figures_end(raw: Seq<u8>, at: int, end: int)
    requires
        0 <= at <= end <= raw.len(),
        forall|i: int| at <= i < end ==> is_figure(#[trigger] raw[i]),
        end < raw.len() ==> !is_figure(raw[end]),
    ensures
        gcode::figures_end(raw, at) == end,
{
    lemma_run(raw, at, end, |byte: u8| gcode::figure(byte));
}

/// The command that a letter, in either case, and a number name, and whether it
/// turns clockwise.
pub open spec fn names(letter: u8, digits: Seq<u8>) -> (Code, bool) {
    let g = letter as int == 'G' as int || letter as int == 'g' as int;
    let m = letter as int == 'M' as int || letter as int == 'm' as int;
    if g && digits.len() == 1 && digits[0] as int == '0' as int {
        (Code::Move, false)
    } else if g && digits.len() == 1 && digits[0] as int == '1' as int {
        (Code::Move, false)
    } else if g && digits.len() == 1 && digits[0] as int == '2' as int {
        (Code::Arc, true)
    } else if g && digits.len() == 1 && digits[0] as int == '3' as int {
        (Code::Arc, false)
    } else if g && digits.len() == 2 && digits[0] as int == '9' as int && digits[1] as int
        == '2' as int {
        (Code::SetPosition, false)
    } else if m && digits.len() == 2 && digits[0] as int == '8' as int && digits[1] as int
        == '2' as int {
        (Code::AbsoluteE, false)
    } else if m && digits.len() == 2 && digits[0] as int == '8' as int && digits[1] as int
        == '3' as int {
        (Code::RelativeE, false)
    } else {
        (Code::Other, false)
    }
}

proof fn lemma_command(body: Seq<u8>, at: int, digits: Seq<u8>)
    requires
        gcode::command_at(body) == at,
        0 <= at < body.len(),
        gcode::digits_end(body, at + 1) == at + 1 + digits.len(),
        at + 1 + digits.len() <= body.len(),
        digits == body.subrange(at + 1, at + 1 + digits.len()),
    ensures
        gcode::command(body) == names(body[at], digits),
{
    assert(seq![0x30u8][0] == 0x30 && seq![0x31u8][0] == 0x31 && seq![0x32u8][0] == 0x32
        && seq![0x33u8][0] == 0x33);
    assert(seq![0x39u8, 0x32][0] == 0x39 && seq![0x39u8, 0x32][1] == 0x32);
    assert(seq![0x38u8, 0x32][0] == 0x38 && seq![0x38u8, 0x32][1] == 0x32);
    assert(seq![0x38u8, 0x33][0] == 0x38 && seq![0x38u8, 0x33][1] == 0x33);
    if digits.len() == 1 {
        assert(digits =~= seq![digits[0]]);
    } else if digits.len() == 2 {
        assert(digits =~= seq![digits[0], digits[1]]);
    }
}

/// A line's command is the letter it starts with, blanks aside, and the number
/// right behind that.
pub proof fn a_command_is_a_letter_and_its_number(
    blanks: Seq<u8>,
    letter: u8,
    digits: Seq<u8>,
    rest: Seq<u8>,
)
    requires
        all_blank(blanks),
        !is_blank(letter),
        letter as int != 'N' as int && letter as int != 'n' as int || digits.len() == 0,
        wording::are_digits(digits),
        rest.len() == 0 || !(48 <= rest[0] <= 57),
    ensures
        gcode::command(blanks + seq![letter] + digits + rest) == names(letter, digits),
{
    let body = blanks + seq![letter] + digits + rest;
    let at = blanks.len() as int;
    let end = at + 1 + digits.len();
    assert(body[at] == letter);
    assert forall|i: int| 0 <= i < at implies is_blank(#[trigger] body[i]) by {
        assert(body[i] == blanks[i]);
    }
    lemma_blanks(body, 0, at);
    assert forall|i: int| at + 1 <= i < end implies 48 <= #[trigger] body[i] <= 57 by {
        assert(body[i] == digits[i - at - 1]);
    }
    if end < body.len() {
        assert(body[end] == rest[0]);
    }
    lemma_digits_end(body, at + 1, end);
    assert(body.subrange(at + 1, end) =~= digits);
    lemma_command(body, at, digits);
}

/// A line number before a command changes nothing about it.
pub proof fn a_line_number_is_passed_over(
    blanks: Seq<u8>,
    capital: bool,
    number: Seq<u8>,
    between: Seq<u8>,
    letter: u8,
    digits: Seq<u8>,
    rest: Seq<u8>,
)
    requires
        all_blank(blanks),
        all_blank(between),
        number.len() > 0,
        wording::are_digits(number),
        !is_blank(letter),
        !(48 <= letter <= 57),
        wording::are_digits(digits),
        rest.len() == 0 || !(48 <= rest[0] <= 57),
    ensures
        gcode::command(
            blanks + seq![
                if capital {
                    78u8
                } else {
                    110u8
                },
            ] + number + between + seq![letter] + digits + rest,
        ) == names(letter, digits),
{
    let n = if capital {
        78u8
    } else {
        110u8
    };
    let body = blanks + seq![n] + number + between + seq![letter] + digits + rest;
    let a = blanks.len() as int;
    let b = a + 1 + number.len();
    let at = b + between.len();
    let end = at + 1 + digits.len();
    assert(body[a] == n);
    assert forall|i: int| 0 <= i < a implies is_blank(#[trigger] body[i]) by {
        assert(body[i] == blanks[i]);
    }
    lemma_blanks(body, 0, a);
    assert forall|i: int| a + 1 <= i < b implies 48 <= #[trigger] body[i] <= 57 by {
        assert(body[i] == number[i - a - 1]);
    }
    assert(body[at] == letter);
    if between.len() > 0 {
        assert(body[b] == between[0]);
    }
    lemma_digits_end(body, a + 1, b);
    assert forall|i: int| b <= i < at implies is_blank(#[trigger] body[i]) by {
        assert(body[i] == between[i - b]);
    }
    lemma_blanks(body, b, at);
    assert(gcode::command_at(body) == at);
    assert forall|i: int| at + 1 <= i < end implies 48 <= #[trigger] body[i] <= 57 by {
        assert(body[i] == digits[i - at - 1]);
    }
    if end < body.len() {
        assert(body[end] == rest[0]);
    }
    lemma_digits_end(body, at + 1, end);
    assert(body.subrange(at + 1, end) =~= digits);
    lemma_command(body, at, digits);
}

/// A letter stands for a word in either case.
pub open spec fn opens(byte: u8, letter: u8) -> bool {
    byte == letter || byte + 32 == letter
}

proof fn lemma_no_word(body: Seq<u8>, letter: u8, from: int, upto: int)
    requires
        97 <= letter <= 122,
        0 <= from <= upto <= body.len(),
        forall|i: int| from <= i < upto ==> !opens(#[trigger] body[i], letter),
    ensures
        gcode::last_word(body, letter, upto) == gcode::last_word(body, letter, from),
    decreases upto - from,
{
    if from < upto {
        assert(!opens(body[upto - 1], letter));
        assert(gcode::word_at(body, upto - 1, letter) is None);
        lemma_no_word(body, letter, from, upto - 1);
    }
}

/// A word is a letter, in either case, with a number right behind it; the number
/// ends where its figures do, and the last such word of a line counts.
pub proof fn a_word_is_a_letter_and_its_number(
    before: Seq<u8>,
    mark: u8,
    letter: u8,
    figures: Seq<u8>,
    behind: Seq<u8>,
)
    requires
        97 <= letter <= 122,
        opens(mark, letter),
        all_figures(figures),
        behind.len() == 0 || !is_figure(behind[0]),
        forall|i: int| 0 <= i < behind.len() ==> !opens(#[trigger] behind[i], letter),
        before.len() + 1 + figures.len() <= usize::MAX,
        gcode::number_of(figures) is Some,
    ensures
        gcode::word(before + seq![mark] + figures + behind, letter) == Some(
            Word {
                start: (before.len() + 1) as usize,
                end: (before.len() + 1 + figures.len()) as usize,
                value: gcode::number_of(figures)->0,
            },
        ),
{
    let body = before + seq![mark] + figures + behind;
    let at = before.len() as int;
    let end = at + 1 + figures.len();
    assert(body[at] == mark);
    assert forall|i: int| at + 1 <= i < end implies is_figure(#[trigger] body[i]) by {
        assert(body[i] == figures[i - at - 1]);
    }
    if end < body.len() {
        assert(body[end] == behind[0]);
    }
    lemma_figures_end(body, at + 1, end);
    assert(body.subrange(at + 1, end) =~= figures);
    assert forall|i: int| at + 1 <= i < body.len() implies !opens(#[trigger] body[i], letter) by {
        if i < end {
            assert(is_figure(body[i]));
        } else {
            assert(body[i] == behind[i - end]);
        }
    }
    lemma_no_word(body, letter, at + 1, body.len() as int);
    assert(gcode::word_at(body, at, letter) is Some);
}

/// A line without a letter has no such word.
pub proof fn a_line_without_a_letter_has_no_such_word(body: Seq<u8>, letter: u8)
    requires
        97 <= letter <= 122,
        forall|i: int| 0 <= i < body.len() ==> !opens(#[trigger] body[i], letter),
    ensures
        gcode::word(body, letter) is None,
{
    lemma_no_word(body, letter, 0, body.len() as int);
}

/// Figures with a sign among them or more than one point are no number, and
/// neither is a point or a sign alone.
pub proof fn figures_out_of_order_are_no_number(figures: Seq<u8>, i: int, j: int)
    requires
        all_figures(figures),
        figures.len() == 0 || 0 < i < figures.len() && (figures[i] == 45 || figures[i] == 43) || 0
            <= i < j < figures.len() && figures[i] == 46 && figures[j] == 46,
    ensures
        gcode::number_of(figures) is None,
{
    let body = gcode::unsigned(figures);
    assert forall|k: int| 0 <= k < figures.len() implies gcode::figure(#[trigger] figures[k]) by {
        assert(is_figure(figures[k]));
    }
    if figures.len() > 0 {
        let from: int = if figures[0] == 45 || figures[0] == 43 {
            1
        } else {
            0
        };
        assert(forall|k: int| from <= k < figures.len() ==> body[k - from] == figures[k]);
        if 0 < i < figures.len() && (figures[i] == 45 || figures[i] == 43) {
            lemma_others(body, i - from);
        } else {
            lemma_points(body, i - from, j - from);
        }
    }
}

proof fn lemma_others(body: Seq<u8>, at: int)
    requires
        0 <= at < body.len(),
        body[at] == 45 || body[at] == 43,
    ensures
        gcode::figures(body).others > 0,
    decreases body.len(),
{
    if at < body.len() - 1 {
        lemma_others(body.drop_last(), at);
    }
}

proof fn lemma_point(body: Seq<u8>, at: int)
    requires
        0 <= at < body.len(),
        body[at] == 46,
    ensures
        gcode::figures(body).points > 0,
    decreases body.len(),
{
    if at < body.len() - 1 {
        lemma_point(body.drop_last(), at);
    }
}

proof fn lemma_points(body: Seq<u8>, i: int, j: int)
    requires
        0 <= i < j < body.len(),
        body[i] == 46,
        body[j] == 46,
    ensures
        gcode::figures(body).points > 1,
    decreases body.len(),
{
    if j < body.len() - 1 {
        lemma_points(body.drop_last(), i, j);
    } else {
        lemma_point(body.drop_last(), i);
    }
}

/// An X or a Y, in either case, has a figure right behind it.
pub open spec fn goes_at(body: Seq<u8>, i: int) -> bool {
    &&& 0 <= i < body.len() - 1
    &&& opens(body[i], 120) || opens(body[i], 121)
    &&& is_figure(body[i + 1])
}

/// A line goes somewhere in the plane where an X or a Y has a figure right behind
/// it, and nowhere else.
pub proof fn the_plane_is_x_and_y(body: Seq<u8>)
    ensures
        gcode::in_plane(body) == exists|i: int| #[trigger] goes_at(body, i),
{
    if gcode::in_plane(body) {
        let i = choose|i: int| 0 <= i < body.len() && #[trigger] gcode::plane_at(body, i);
        gcode::lemma_run_end(body, i + 1, |byte: u8| gcode::figure(byte));
        assert(gcode::figure(body[i + 1]));
        assert(goes_at(body, i));
    }
    if exists|i: int| #[trigger] goes_at(body, i) {
        let i = choose|i: int| #[trigger] goes_at(body, i);
        gcode::lemma_run_end(body, i + 2, |byte: u8| gcode::figure(byte));
        assert(gcode::figure(body[i + 1]));
        gcode::lemma_run_end(body, i + 1, |byte: u8| gcode::figure(byte));
        assert(gcode::figures_end(body, i + 1) > i + 1);
        assert(gcode::plane_at(body, i));
    }
}

/// What a line says stands before its first `;`, and what follows that is
/// comment. It is a marker where there is nothing but blanks before it.
pub proof fn a_comment_starts_at_the_first_semicolon(body: Seq<u8>, comment: Seq<u8>)
    requires
        !body.contains(59),
    ensures
        gcode::body_of(body + seq![59u8] + comment) == body,
        gcode::body_of(body) == body,
        gcode::marker_of(body) is None,
        gcode::marker_of(body + seq![59u8] + comment) is Some == all_blank(body),
        all_blank(body) ==> gcode::marker_of(body + seq![59u8] + comment)->0 == comment,
{
    let raw = body + seq![59u8] + comment;
    text::lemma_find(raw, 0x3b, 0, raw.len() as int);
    text::lemma_find(body, 0x3b, 0, body.len() as int);
    let end = text::find(raw, 0x3b, 0, raw.len() as int);
    assert(raw[body.len() as int] == 59);
    if end < body.len() {
        assert(raw[end] == body[end]);
        assert(body.contains(body[end]));
    }
    assert(raw.take(end) =~= body);
    let own = text::find(body, 0x3b, 0, body.len() as int);
    if own < body.len() {
        assert(body.contains(body[own]));
    }
    assert(body.take(body.len() as int) =~= body);
    assert(raw.skip(end + 1) =~= comment);
    if all_blank(body) {
        assert forall|i: int| 0 <= i < body.len() implies text::blank(#[trigger] body[i]) by {
            assert(is_blank(body[i]));
        }
    }
    if gcode::marker_of(raw) is Some {
        assert forall|i: int| 0 <= i < body.len() implies is_blank(#[trigger] body[i]) by {
            assert(text::blank(body[i]));
        }
    }
}

/// A line's words are read under their own letters, from the part before its
/// comment: X and Y where they are asked for, E of what feeds or sets it, I and J
/// of an arc, Z and F of any command.
pub proof fn words_go_by_their_letters(raw: &str, body: Seq<u8>, comment: Seq<u8>)
    requires
        !body.contains(59),
        text::bytes(raw@) == body + seq![59u8] + comment,
        body.len() <= usize::MAX,
    ensures
        ({
            let line = gcode::reading(raw, true);
            let code = line.code;
            &&& (code, line.clockwise) == gcode::command(body)
            &&& line.x == gcode::word(body, 120)
            &&& line.y == gcode::word(body, 121)
            &&& line.z == gcode::word(body, 122)
            &&& line.f == gcode::word(body, 102)
            &&& code is Move || code is Arc || code is SetPosition ==> line.e == gcode::word(
                body,
                101,
            )
            &&& code is AbsoluteE || code is RelativeE || code is Other ==> line.e is None
            &&& code is Arc ==> line.i == gcode::word(body, 105) && line.j == gcode::word(body, 106)
            &&& !(code is Arc) ==> line.i is None && line.j is None
            &&& line.comment_at == Some(body.len() as usize)
            &&& line.has_xy == gcode::in_plane(body)
        }),
        gcode::reading(raw, false) == (Line { x: None, y: None, ..gcode::reading(raw, true) }),
{
    a_comment_starts_at_the_first_semicolon(body, comment);
}

proof fn lemma_numerals(number: nat)
    ensures
        ({
            let digits = gcode::numerals(number);
            &&& digits.len() > 0
            &&& wording::are_digits(digits)
            &&& slicer::spelled(digits) == number
            &&& digits.len() > 1 ==> digits[0] != 48
        }),
    decreases number,
{
    let digits = gcode::numerals(number);
    if number >= 10 {
        lemma_numerals(number / 10);
        let less = gcode::numerals(number / 10);
        assert(digits.drop_last() =~= less);
        assert(digits.last() == 48 + number % 10);
        assert forall|i: int| 0 <= i < digits.len() implies 48 <= #[trigger] digits[i] <= 57 by {
            if i < less.len() {
                assert(digits[i] == less[i]);
            }
        }
        assert(digits[0] == less[0]);
        if less.len() == 1 && less[0] == 48 {
            assert(less.drop_last() =~= seq![]);
            assert(slicer::spelled(seq![]) == 0);
        }
    } else {
        assert(digits.drop_last() =~= seq![]);
        assert(slicer::spelled(seq![]) == 0);
    }
}

/// Digits behind a number push it up by their places.
proof fn lemma_last_digits(front: Seq<u8>, number: nat, count: nat)
    requires
        slicer::spelled(front) == number / gcode::tens(count),
    ensures
        ({
            let digits = gcode::last_digits(number, count);
            &&& digits.len() == count
            &&& wording::are_digits(digits)
            &&& slicer::spelled(front + digits) == number
        }),
    decreases count,
{
    let digits = gcode::last_digits(number, count);
    if count == 0 {
        assert(number / 1 == number);
        assert(front + digits =~= front);
    } else {
        let fewer = (count - 1) as nat;
        let less = gcode::last_digits(number / 10, fewer);
        lemma_tens_grow(0, fewer);
        vstd::arithmetic::div_mod::lemma_div_denominator(
            number as int,
            10,
            gcode::tens(fewer) as int,
        );
        lemma_last_digits(front, number / 10, fewer);
        assert((front + digits).drop_last() =~= front + less);
        assert((front + digits).last() == 48 + number % 10);
        assert forall|i: int| 0 <= i < digits.len() implies 48 <= #[trigger] digits[i] <= 57 by {
            if i < less.len() {
                assert(digits[i] == less[i]);
            }
        }
    }
}

/// A number is laid down as a minus where it is negative, its digits, and behind
/// a point as many of them as were asked for; there is no point without any, and
/// no nought before the others.
pub proof fn a_number_is_laid_with_its_decimals(negative: bool, scaled: nat, decimals: nat) -> (parts: (
    Seq<u8>,
    Seq<u8>,
))
    ensures
        ({
            let (whole, behind) = parts;
            let sign = if negative {
                seq![45u8]
            } else {
                seq![]
            };
            &&& gcode::laid(negative, scaled, decimals) == if decimals == 0 {
                sign + whole
            } else {
                sign + whole + seq![46u8] + behind
            }
            &&& whole.len() > 0
            &&& whole.len() > 1 ==> whole[0] != 48
            &&& wording::are_digits(whole)
            &&& wording::are_digits(behind)
            &&& behind.len() == decimals
            &&& wording::digits_worth(whole + behind) == scaled
        }),
{
    let whole = gcode::numerals(scaled / gcode::tens(decimals));
    let behind = gcode::last_digits(scaled, decimals);
    lemma_tens_grow(0, decimals);
    lemma_numerals(scaled / gcode::tens(decimals));
    lemma_last_digits(whole, scaled, decimals);
    let all = whole + behind;
    assert(wording::are_digits(all)) by {
        assert forall|i: int| 0 <= i < all.len() implies 48 <= #[trigger] all[i] <= 57 by {
            if i < whole.len() {
                assert(all[i] == whole[i]);
            } else {
                assert(all[i] == behind[i - whole.len()]);
            }
        }
    }
    wording::digits_are_worth_what_they_spell(all);
    (whole, behind)
}

} // verus!
