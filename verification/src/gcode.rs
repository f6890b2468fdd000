//! Line-level G-code parsing.
//!
//! A [`Line`] borrows the text it was parsed from and carries the byte spans of
//! its words, so extrusion can be rewritten without disturbing the rest of the
//! line. [`Lines`] supplies that text one line at a time.
//!
//! A word's value is kept as the decimal it was written as; see [`Number`].

use crate::double::Double;
use crate::text;
use vstd::prelude::*;
use vstd::slice::*;
use vstd::string::*;

verus! {

/// The first line of `rest` without its terminator, and what follows it. A line
/// feed ends a line, with the carriage return before it if there is one; a
/// carriage return that nothing follows belongs to its line.
pub open spec fn line_of(rest: Seq<u8>) -> (Seq<u8>, Seq<u8>) {
    let end = text::find(rest, 0x0a, 0, rest.len() as int);
    if end < rest.len() {
        let line = if end > 0 && rest[end - 1] == 0x0d {
            rest.take(end - 1)
        } else {
            rest.take(end)
        };
        (line, rest.skip(end + 1))
    } else {
        (rest, seq![])
    }
}

/// One line as it was read, up to and with the line feed that ends it, without
/// its terminator.
pub open spec fn stripped(raw: Seq<u8>) -> Seq<u8> {
    if raw.len() >= 2 && raw[raw.len() - 1] == 0x0a && raw[raw.len() - 2] == 0x0d {
        raw.take(raw.len() - 2)
    } else if raw.len() >= 1 && raw[raw.len() - 1] == 0x0a {
        raw.take(raw.len() - 1)
    } else {
        raw
    }
}

/// Strips a line's terminator.
pub fn strip(raw: &[u8]) -> (line: &[u8])
    ensures
        line@ == stripped(raw@),
{
    let length = raw.len();
    let end = if length >= 2 && raw[length - 1] == 0x0a && raw[length - 2] == 0x0d {
        length - 2
    } else if length >= 1 && raw[length - 1] == 0x0a {
        length - 1
    } else {
        length
    };
    let line = slice_subrange(raw, 0, end);
    assert(line@ =~= stripped(raw@));
    line
}

/// The text of one line as it was read, its terminator stripped and whatever is
/// not UTF-8 repaired.
pub fn line_text(raw: &[u8]) -> (line: String)
    ensures
        line@ == text::repaired(stripped(raw@)),
        vstd::utf8::valid_utf8(stripped(raw@)) ==> line@ == vstd::utf8::decode_utf8(stripped(raw@)),
{
    text::repair(strip(raw))
}

/// Reads a stream one line at a time.
///
/// Terminators are stripped exactly as [`str::lines`] strips them, both `\n`
/// and `\r\n`, so what a transform sees never depends on whether the G-code
/// arrived as a string or as a file.
///
/// Slicers copy model and filament names into comments in whatever encoding the
/// host uses, so a file that is otherwise plain ASCII G-code can still carry a
/// few bytes that are not UTF-8. Those lines are repaired rather than rejected:
/// commands are ASCII, so the damage stays inside a comment that was already
/// unreadable.
pub struct Lines<'a> {
    source: &'a [u8],
    at: usize,
}

impl<'a> Lines<'a> {
    pub closed spec fn valid(self) -> bool {
        self.at <= self.source@.len()
    }

    /// What has not been read yet.
    pub closed spec fn rest(self) -> Seq<u8> {
        self.source@.skip(self.at as int)
    }

    pub fn new(source: &'a [u8]) -> (lines: Self)
        ensures
            lines.valid(),
            lines.rest() == source@,
    {
        let lines = Lines { source, at: 0 };
        assert(source@.skip(0) =~= source@);
        lines
    }

    /// The next line, or `None` at the end of the stream.
    pub fn next_line(&mut self) -> (line: Option<String>)
        requires
            old(self).valid(),
        ensures
            final(self).valid(),
            line is None == (old(self).rest().len() == 0),
            line is None ==> final(self).rest() == old(self).rest(),
            line is Some ==> {
                let (raw, rest) = line_of(old(self).rest());
                &&& final(self).rest() == rest
                &&& line->0@ == text::repaired(raw)
                &&& vstd::utf8::valid_utf8(raw) ==> line->0@ == vstd::utf8::decode_utf8(raw)
            },
    {
        if self.at == self.source.len() {
            return None;
        }
        let rest = slice_subrange(self.source, self.at, self.source.len());
        assert(rest@ =~= self.source@.skip(self.at as int));
        let end = text::position(rest, 0x0a, 0, rest.len());
        let stop = if end < rest.len() {
            end + 1
        } else {
            end
        };
        let raw = slice_subrange(rest, 0, stop);
        assert(stripped(raw@) =~= line_of(rest@).0);
        self.at = self.at + stop;
        assert(self.source@.skip(self.at as int) =~= line_of(rest@).1);
        Some(line_text(raw))
    }
}

/// Reading a line takes it off the stream with its terminator and nothing else:
/// the line, its terminator and what is left make up the stream, and the line
/// holds no line feed.
pub proof fn a_line_takes_only_its_terminator(rest: Seq<u8>)
    ensures
        ({
            let (line, after) = line_of(rest);
            &&& rest == line + seq![0x0du8, 0x0a] + after || rest == line + seq![0x0au8] + after
                || (after.len() == 0 && rest == line)
            &&& forall|i: int| 0 <= i < line.len() ==> line[i] != 0x0a
        }),
{
    text::lemma_find(rest, 0x0a, 0, rest.len() as int);
    let (line, after) = line_of(rest);
    let end = text::find(rest, 0x0a, 0, rest.len() as int);
    if end < rest.len() {
        if end > 0 && rest[end - 1] == 0x0d {
            assert(rest =~= line + seq![0x0du8, 0x0a] + after);
        } else {
            assert(rest =~= line + seq![0x0au8] + after);
        }
    }
}

/// The commands this post-processor has to understand. Everything else is
/// passed through untouched.
#[derive(Clone, Copy, Debug, Default, PartialEq, Eq, Structural)]
pub enum Code {
    /// `G0` or `G1` — linear move.
    Move,
    /// `G2` or `G3` — arc move, which neither transform can reshape.
    Arc,
    /// `G92` — set position, which redefines the extruder origin.
    SetPosition,
    /// `M82` — absolute extrusion distances.
    AbsoluteE,
    /// `M83` — relative extrusion distances.
    RelativeE,
    #[default]
    Other,
}

/// The longest mantissa [`number`] reads itself. Fifteen digits stay below
/// 2^53, where a double still names every integer.
pub const MAX_EXACT_DIGITS: u8 = 15;

/// A number as it was written.
#[derive(Clone, Copy, Debug, PartialEq, Eq, Structural)]
pub enum Number {
    /// `mantissa` over ten to the power of `decimals`, with a sign. Both are
    /// exact as doubles, so one correctly rounded division is the value.
    Exact { negative: bool, mantissa: u64, decimals: u8 },
    /// More digits than that, or not a plain decimal: the standard parser has
    /// the word.
    Handed,
}

/// How far a run of digits and points has been read.
pub struct Figures {
    /// All the digits as one number.
    pub mantissa: nat,
    /// How many digits there are.
    pub digits: nat,
    /// How many points there are.
    pub points: nat,
    /// How many digits come after the first point.
    pub decimals: nat,
    /// Bytes that are neither a digit nor a point.
    pub others: nat,
}

/// The digits and points of some text, counted.
pub open spec fn figures(text: Seq<u8>) -> Figures
    decreases text.len(),
{
    if text.len() == 0 {
        Figures { mantissa: 0, digits: 0, points: 0, decimals: 0, others: 0 }
    } else {
        let before = figures(text.drop_last());
        let byte = text.last();
        if text::digit(byte) {
            Figures {
                mantissa: (10 * before.mantissa + (byte - 0x30)) as nat,
                digits: before.digits + 1,
                decimals: if before.points > 0 {
                    before.decimals + 1
                } else {
                    0
                },
                ..before
            }
        } else if byte == 0x2e {
            Figures { points: before.points + 1, ..before }
        } else {
            Figures { others: before.others + 1, ..before }
        }
    }
}

/// A byte that can be part of a word's value.
pub open spec fn figure(byte: u8) -> bool {
    text::digit(byte) || byte == 0x2e || byte == 0x2d || byte == 0x2b
}

/// Text without the sign it may start with.
pub open spec fn unsigned(text: Seq<u8>) -> Seq<u8> {
    if text.len() > 0 && (text[0] == 0x2d || text[0] == 0x2b) {
        text.skip(1)
    } else {
        text
    }
}

/// A plain decimal: a sign or none, then digits with at most one point among
/// them.
pub open spec fn plain(text: Seq<u8>) -> bool {
    let counted = figures(unsigned(text));
    counted.others == 0 && counted.points <= 1 && counted.digits >= 1
}

/// The number some text holds. A plain decimal is one; text made of figures
/// alone that is no plain decimal is none; any other text is for the standard
/// parser to decide.
pub open spec fn number_of(text: Seq<u8>) -> Option<Number> {
    let counted = figures(unsigned(text));
    if plain(text) {
        if counted.digits <= MAX_EXACT_DIGITS {
            Some(
                Number::Exact {
                    negative: text[0] == 0x2d,
                    mantissa: counted.mantissa as u64,
                    decimals: counted.decimals as u8,
                },
            )
        } else {
            Some(Number::Handed)
        }
    } else if forall|i: int| 0 <= i < text.len() ==> figure(#[trigger] text[i]) {
        None
    } else {
        Some(Number::Handed)
    }
}

/// Ten to the power of `digits`.
pub open spec fn tens(digits: nat) -> nat
    decreases digits,
{
    if digits == 0 {
        1
    } else {
        10 * tens((digits - 1) as nat)
    }
}

proof fn lemma_figures(text: Seq<u8>)
    ensures
        figures(text).mantissa < tens(figures(text).digits),
        figures(text).decimals <= figures(text).digits <= text.len(),
        figures(text).points == 0 ==> figures(text).decimals == 0,
        figures(text).others <= text.len(),
        figures(text).points <= text.len(),
    decreases text.len(),
{
    if text.len() > 0 {
        lemma_figures(text.drop_last());
    }
}

proof fn lemma_tens(a: nat, b: nat)
    requires
        a <= b,
    ensures
        tens(a) <= tens(b),
    decreases b,
{
    if a < b {
        lemma_tens(a, (b - 1) as nat);
    }
}

/// Reads a fixed-point decimal, which is every number a slicer writes.
pub fn number(text: &[u8]) -> (value: Option<Number>)
    ensures
        value == number_of(text@),
{
    let signed = text.len() > 0 && (text[0] == 0x2d || text[0] == 0x2b);
    let start: usize = if signed {
        1
    } else {
        0
    };
    let ghost body = unsigned(text@);
    let mut mantissa: u64 = 0;
    let mut digits: usize = 0;
    let mut points: usize = 0;
    let mut decimals: usize = 0;
    let mut others: usize = 0;
    let mut foreign = false;
    let mut at = start;
    assert(body.take(0) =~= seq![]);
    while at < text.len()
        invariant
            start <= at <= text.len(),
            start == if signed { 1int } else { 0 },
            signed == (text@.len() > 0 && (text@[0] == 0x2d || text@[0] == 0x2b)),
            body == text@.skip(start as int),
            ({
                let counted = figures(body.take(at - start));
                &&& digits <= MAX_EXACT_DIGITS ==> mantissa == counted.mantissa
                &&& digits == counted.digits
                &&& points == counted.points
                &&& decimals == counted.decimals
                &&& others == counted.others
            }),
            foreign == exists|i: int| start <= i < at && !figure(#[trigger] text@[i]),
        decreases text.len() - at,
    {
        let byte = text[at];
        let ghost after = body.take(at + 1 - start);
        proof {
            assert(after.drop_last() =~= body.take(at - start));
            assert(after.last() == byte);
            lemma_figures(body.take(at - start));
            if digits < MAX_EXACT_DIGITS {
                lemma_tens(digits as nat, 14);
                reveal_with_fuel(tens, 15);
            }
        }
        if 0x30 <= byte && byte <= 0x39 {
            if digits < MAX_EXACT_DIGITS as usize {
                mantissa = 10 * mantissa + (byte - 0x30) as u64;
            }
            digits = digits + 1;
            if points > 0 {
                decimals = decimals + 1;
            }
        } else if byte == 0x2e {
            points = points + 1;
        } else {
            others = others + 1;
            if byte != 0x2d && byte != 0x2b {
                foreign = true;
            }
        }
        at = at + 1;
    }
    proof {
        assert(body.take(body.len() as int) =~= body);
        lemma_figures(body);
        assert(unsigned(text@) == body) by {
            assert(text@.skip(0) =~= text@);
        }
        if foreign {
            let i = choose|i: int| start <= i < text@.len() && !figure(#[trigger] text@[i]);
            assert(!figure(text@[i]));
        }
    }
    if others == 0 && points <= 1 && digits >= 1 {
        if digits <= MAX_EXACT_DIGITS as usize {
            Some(
                Number::Exact {
                    negative: signed && text[0] == 0x2d,
                    mantissa,
                    decimals: decimals as u8,
                },
            )
        } else {
            Some(Number::Handed)
        }
    } else if foreign {
        Some(Number::Handed)
    } else {
        assert forall|i: int| 0 <= i < text@.len() implies figure(#[trigger] text@[i]) by {
            if i >= start {
            }
        }
        None
    }
}

/// The most digits [`fixed`] lays after the point.
pub const MAX_FIXED_DECIMALS: u8 = 9;

/// A number in decimal, without leading zeros.
pub open spec fn numerals(number: nat) -> Seq<u8>
    decreases number,
{
    if number < 10 {
        seq![(0x30 + number) as u8]
    } else {
        numerals(number / 10).push((0x30 + number % 10) as u8)
    }
}

/// The last `count` digits of a number, leading zeros and all.
pub open spec fn last_digits(number: nat, count: nat) -> Seq<u8>
    decreases count,
{
    if count == 0 {
        seq![]
    } else {
        last_digits(number / 10, (count - 1) as nat).push((0x30 + number % 10) as u8)
    }
}

/// A number of units of ten to the power of minus `decimals`, written with
/// exactly that many digits after the point. A negative that rounds to zero
/// still has its sign.
pub open spec fn laid(negative: bool, scaled: nat, decimals: nat) -> Seq<u8> {
    let sign = if negative {
        seq![0x2du8]
    } else {
        seq![]
    };
    let whole = sign + numerals(scaled / tens(decimals));
    if decimals == 0 {
        whole
    } else {
        whole + seq![0x2eu8] + last_digits(scaled, decimals)
    }
}

fn push_numerals(out: &mut Vec<u8>, number: u64)
    ensures
        final(out)@ == old(out)@ + numerals(number as nat),
    decreases number,
{
    let ghost before = out@;
    if number >= 10 {
        push_numerals(out, number / 10);
    }
    out.push(0x30 + (number % 10) as u8);
    assert(out@ =~= before + numerals(number as nat));
}

fn push_last_digits(out: &mut Vec<u8>, number: u64, count: u8)
    ensures
        final(out)@ == old(out)@ + last_digits(number as nat, count as nat),
    decreases count,
{
    let ghost before = out@;
    if count > 0 {
        push_last_digits(out, number / 10, count - 1);
        out.push(0x30 + (number % 10) as u8);
    }
    assert(out@ =~= before + last_digits(number as nat, count as nat));
}

proof fn lemma_tens_positive(digits: nat)
    ensures
        tens(digits) >= 1,
    decreases digits,
{
    if digits > 0 {
        lemma_tens_positive((digits - 1) as nat);
    }
}

/// Dropping the last digit and then the others drops them all.
proof fn lemma_shorten(number: nat, digits: nat)
    requires
        digits > 0,
    ensures
        number / tens(digits) == (number / 10) / tens((digits - 1) as nat),
{
    let rest = tens((digits - 1) as nat);
    lemma_tens_positive((digits - 1) as nat);
    vstd::arithmetic::div_mod::lemma_div_denominator(number as int, 10, rest as int);
}

/// Lays down a number of units of ten to the power of minus `decimals`.
pub fn fixed(negative: bool, scaled: u64, decimals: u8) -> (digits: Vec<u8>)
    ensures
        digits@ == laid(negative, scaled as nat, decimals as nat),
{
    let mut whole = scaled;
    let mut dropped: u8 = 0;
    while dropped < decimals
        invariant
            dropped <= decimals,
            whole as nat / tens((decimals - dropped) as nat) == scaled as nat / tens(
                decimals as nat,
            ),
        decreases decimals - dropped,
    {
        proof {
            lemma_shorten(whole as nat, (decimals - dropped) as nat);
        }
        whole = whole / 10;
        dropped = dropped + 1;
    }
    assert(whole == scaled as nat / tens(decimals as nat)) by {
        assert(whole as nat / 1 == whole);
    }
    let mut digits: Vec<u8> = Vec::new();
    if negative {
        digits.push(0x2d);
    }
    push_numerals(&mut digits, whole);
    if decimals > 0 {
        digits.push(0x2e);
        push_last_digits(&mut digits, scaled, decimals);
    }
    assert(digits@ =~= laid(negative, scaled as nat, decimals as nat));
    digits
}

proof fn lemma_numerals_figures(number: nat)
    ensures
        ({
            let counted = figures(numerals(number));
            &&& counted.mantissa == number
            &&& counted.digits == numerals(number).len()
            &&& counted.points == 0
            &&& counted.decimals == 0
            &&& counted.others == 0
        }),
        numerals(number).len() >= 1,
        text::digit(numerals(number)[0]),
    decreases number,
{
    let text = numerals(number);
    if number >= 10 {
        lemma_numerals_figures(number / 10);
        assert(text.drop_last() =~= numerals(number / 10));
        assert(text.last() == (0x30 + number % 10) as u8);
    } else {
        reveal_with_fuel(figures, 2);
        assert(text.drop_last() =~= seq![]);
        assert(text.last() == (0x30 + number) as u8);
    }
}

proof fn lemma_numerals_length(number: nat, digits: nat)
    requires
        digits >= 1,
        number < tens(digits),
    ensures
        numerals(number).len() <= digits,
    decreases number,
{
    if number >= 10 {
        assert(digits >= 2) by {
            if digits == 1 {
                reveal_with_fuel(tens, 2);
            }
        }
        lemma_numerals_length(number / 10, (digits - 1) as nat);
    }
}

proof fn lemma_last_digits_figures(before: Seq<u8>, number: nat, count: nat)
    requires
        figures(before).points >= 1,
        figures(before).mantissa == number / tens(count),
    ensures
        ({
            let counted = figures(before + last_digits(number, count));
            &&& counted.mantissa == number
            &&& counted.digits == figures(before).digits + count
            &&& counted.points == figures(before).points
            &&& counted.decimals == figures(before).decimals + count
            &&& counted.others == figures(before).others
        }),
    decreases count,
{
    let text = before + last_digits(number, count);
    if count > 0 {
        lemma_shorten(number, count);
        lemma_last_digits_figures(before, number / 10, (count - 1) as nat);
        assert(text.drop_last() =~= before + last_digits(number / 10, (count - 1) as nat));
        assert(text.last() == (0x30 + number % 10) as u8);
    } else {
        assert(text =~= before);
        assert(number / 1 == number);
    }
}

proof fn lemma_tens_product(a: nat, b: nat)
    ensures
        tens(a + b) == tens(a) * tens(b),
    decreases b,
{
    if b > 0 {
        lemma_tens_product(a, (b - 1) as nat);
        let less = tens((b - 1) as nat);
        assert(tens(a) * (10 * less) == 10 * (tens(a) * less)) by (nonlinear_arith);
        assert((a + b - 1) as nat == a + (b - 1) as nat);
    } else {
        assert(tens(a) * 1 == tens(a));
    }
}

/// Every number that is laid down reads back as itself.
pub proof fn what_is_laid_down_reads_back(negative: bool, scaled: nat, decimals: nat)
    requires
        scaled < tens(MAX_EXACT_DIGITS as nat),
        decimals <= MAX_FIXED_DECIMALS,
    ensures
        number_of(laid(negative, scaled, decimals)) == Some(
            Number::Exact { negative, mantissa: scaled as u64, decimals: decimals as u8 },
        ),
{
    let whole = scaled / tens(decimals);
    let text = laid(negative, scaled, decimals);
    let front = numerals(whole);
    lemma_numerals_figures(whole);
    let room = (MAX_EXACT_DIGITS - decimals) as nat;
    lemma_tens_product(decimals, room);
    lemma_tens_positive(decimals);
    vstd::arithmetic::div_mod::lemma_multiply_divide_lt(
        scaled as int,
        tens(decimals) as int,
        tens(room) as int,
    );
    lemma_numerals_length(whole, room);
    if decimals == 0 {
        assert(scaled / 1 == scaled);
        assert(unsigned(text) =~= front);
    } else {
        let pointed = front.push(0x2e);
        assert(pointed.drop_last() =~= front);
        lemma_last_digits_figures(pointed, scaled, decimals);
        assert(unsigned(text) =~= pointed + last_digits(scaled, decimals));
    }
    assert(text[0] == if negative {
        0x2du8
    } else {
        front[0]
    });
}

/// Where a run of bytes of one kind that starts at `at` ends.
pub open spec fn run_end(bytes: Seq<u8>, at: int, kind: spec_fn(u8) -> bool) -> int
    decreases bytes.len() - at,
{
    if 0 <= at < bytes.len() && kind(bytes[at]) {
        run_end(bytes, at + 1, kind)
    } else {
        at
    }
}

pub open spec fn blank_end(bytes: Seq<u8>, at: int) -> int {
    run_end(bytes, at, |byte: u8| text::blank(byte))
}

pub open spec fn digits_end(bytes: Seq<u8>, at: int) -> int {
    run_end(bytes, at, |byte: u8| text::digit(byte))
}

pub open spec fn figures_end(bytes: Seq<u8>, at: int) -> int {
    run_end(bytes, at, |byte: u8| figure(byte))
}

pub proof fn lemma_run_end(bytes: Seq<u8>, at: int, kind: spec_fn(u8) -> bool)
    requires
        0 <= at <= bytes.len(),
    ensures
        at <= run_end(bytes, at, kind) <= bytes.len(),
        forall|i: int| at <= i < run_end(bytes, at, kind) ==> kind(#[trigger] bytes[i]),
        run_end(bytes, at, kind) < bytes.len() ==> !kind(bytes[run_end(bytes, at, kind)]),
    decreases bytes.len() - at,
{
    if at < bytes.len() && kind(bytes[at]) {
        lemma_run_end(bytes, at + 1, kind);
    }
}

fn skip_blank(bytes: &[u8], from: usize) -> (at: usize)
    requires
        from <= bytes.len(),
    ensures
        at == blank_end(bytes@, from as int),
        from <= at <= bytes.len(),
{
    let mut at = from;
    while at < bytes.len() && (bytes[at] == 0x20 || bytes[at] == 0x09 || bytes[at] == 0x0a
        || bytes[at] == 0x0c || bytes[at] == 0x0d)
        invariant
            from <= at <= bytes.len(),
            blank_end(bytes@, from as int) == blank_end(bytes@, at as int),
        decreases bytes.len() - at,
    {
        at = at + 1;
    }
    at
}

fn skip_digits(bytes: &[u8], from: usize) -> (at: usize)
    requires
        from <= bytes.len(),
    ensures
        at == digits_end(bytes@, from as int),
        from <= at <= bytes.len(),
{
    let mut at = from;
    while at < bytes.len() && 0x30 <= bytes[at] && bytes[at] <= 0x39
        invariant
            from <= at <= bytes.len(),
            digits_end(bytes@, from as int) == digits_end(bytes@, at as int),
        decreases bytes.len() - at,
    {
        at = at + 1;
    }
    at
}

fn skip_figures(bytes: &[u8], from: usize) -> (at: usize)
    requires
        from <= bytes.len(),
    ensures
        at == figures_end(bytes@, from as int),
        from <= at <= bytes.len(),
{
    let mut at = from;
    while at < bytes.len() && ((0x30 <= bytes[at] && bytes[at] <= 0x39) || bytes[at] == 0x2e
        || bytes[at] == 0x2d || bytes[at] == 0x2b)
        invariant
            from <= at <= bytes.len(),
            figures_end(bytes@, from as int) == figures_end(bytes@, at as int),
        decreases bytes.len() - at,
    {
        at = at + 1;
    }
    at
}

/// Where a line's command starts, past white space and the line number that
/// Marlin's serial dialect puts in front.
pub open spec fn command_at(body: Seq<u8>) -> int {
    let at = blank_end(body, 0);
    let after = digits_end(body, at + 1);
    if at < body.len() && text::lower(body[at]) == 0x6e && after > at + 1 {
        blank_end(body, after)
    } else {
        at
    }
}

/// The command a line carries, and whether an arc turns clockwise.
pub open spec fn command(body: Seq<u8>) -> (Code, bool) {
    let at = command_at(body);
    if at >= body.len() {
        (Code::Other, false)
    } else {
        let letter = text::lower(body[at]);
        let digits = body.subrange(at + 1, digits_end(body, at + 1));
        if letter == 0x67 && (digits == seq![0x30u8] || digits == seq![0x31u8]) {
            (Code::Move, false)
        } else if letter == 0x67 && digits == seq![0x32u8] {
            (Code::Arc, true)
        } else if letter == 0x67 && digits == seq![0x33u8] {
            (Code::Arc, false)
        } else if letter == 0x67 && digits == seq![0x39u8, 0x32] {
            (Code::SetPosition, false)
        } else if letter == 0x6d && digits == seq![0x38u8, 0x32] {
            (Code::AbsoluteE, false)
        } else if letter == 0x6d && digits == seq![0x38u8, 0x33] {
            (Code::RelativeE, false)
        } else {
            (Code::Other, false)
        }
    }
}

/// The command a line carries, and whether an arc turns clockwise.
fn command_of(body: &[u8]) -> (found: (Code, bool))
    ensures
        found == command(body@),
{
    let mut at = skip_blank(body, 0);
    if at < body.len() && text::to_lower(body[at]) == 0x6e {
        let after = skip_digits(body, at + 1);
        if after > at + 1 {
            at = skip_blank(body, after);
        }
    }
    if at >= body.len() {
        return (Code::Other, false);
    }
    let letter = text::to_lower(body[at]);
    let start = at + 1;
    let end = skip_digits(body, start);
    let ghost digits = body@.subrange(start as int, end as int);
    if end - start == 1 {
        let digit = body[start];
        assert(digits =~= seq![digit] && digits[0] == digit);
        assert(forall|other: u8| #[trigger] seq![other][0] == other);
        if letter == 0x67 {
            if digit == 0x30 || digit == 0x31 {
                return (Code::Move, false);
            }
            if digit == 0x32 {
                return (Code::Arc, true);
            }
            if digit == 0x33 {
                return (Code::Arc, false);
            }
        }
    } else if end - start == 2 {
        let tens = body[start];
        let units = body[start + 1];
        assert(digits =~= seq![tens, units]);
        if letter == 0x67 && tens == 0x39 && units == 0x32 {
            return (Code::SetPosition, false);
        }
        if letter == 0x6d && tens == 0x38 && units == 0x32 {
            return (Code::AbsoluteE, false);
        }
        if letter == 0x6d && tens == 0x38 && units == 0x33 {
            return (Code::RelativeE, false);
        }
    }
    proof {
        if digits.len() == 1 {
            assert(digits[0] == body@[start as int]);
        }
        if digits.len() == 2 {
            assert(digits[0] == body@[start as int] && digits[1] == body@[start + 1]);
        }
    }
    (Code::Other, false)
}

/// A word of a line: where its value stands, and what it is.
#[derive(Clone, Copy, Debug, PartialEq, Eq, Structural)]
pub struct Word {
    pub start: usize,
    pub end: usize,
    pub value: Number,
}

/// The part of a line before its comment.
pub open spec fn body_of(raw: Seq<u8>) -> Seq<u8> {
    raw.take(text::find(raw, 0x3b, 0, raw.len() as int))
}

/// The word that the byte at `at` opens, where that byte is `letter`, whatever
/// its case, and a number follows it.
pub open spec fn word_at(body: Seq<u8>, at: int, letter: u8) -> Option<Word> {
    let end = figures_end(body, at + 1);
    if text::lower(body[at]) != letter {
        None
    } else {
        match number_of(body.subrange(at + 1, end)) {
            Some(value) => Some(Word { start: (at + 1) as usize, end: end as usize, value }),
            None => None,
        }
    }
}

/// The last word before `upto` that `letter` opens.
pub open spec fn last_word(body: Seq<u8>, letter: u8, upto: int) -> Option<Word>
    decreases upto,
{
    if upto <= 0 {
        None
    } else {
        match word_at(body, upto - 1, letter) {
            Some(word) => Some(word),
            None => last_word(body, letter, upto - 1),
        }
    }
}

/// The word of a whole line that `letter` opens; the last of them counts.
pub open spec fn word(body: Seq<u8>, letter: u8) -> Option<Word> {
    last_word(body, letter, body.len() as int)
}

/// An `X` or `Y` stands at `at` with some figures behind it.
pub open spec fn plane_at(body: Seq<u8>, at: int) -> bool {
    &&& text::lower(body[at]) == 0x78 || text::lower(body[at]) == 0x79
    &&& figures_end(body, at + 1) > at + 1
}

/// An `X` or `Y` word is there, whether or not its value can be read.
pub open spec fn in_plane(body: Seq<u8>) -> bool {
    exists|at: int| 0 <= at < body.len() && #[trigger] plane_at(body, at)
}

/// A command whose `E` word is a distance of filament. `M201`, `M203` and
/// `M205` carry a per-axis limit under the same letter, and a start G-code that
/// sets `E5000` would otherwise book five metres of filament and move the
/// tracked extruder position with it.
pub open spec fn feeds(code: Code) -> bool {
    code == Code::Move || code == Code::Arc || code == Code::SetPosition
}

/// One parsed line, borrowed from the source buffer.
#[derive(Clone, Copy, Debug)]
pub struct Line<'a> {
    pub raw: &'a str,
    pub code: Code,
    pub x: Option<Word>,
    pub y: Option<Word>,
    pub z: Option<Word>,
    pub e: Option<Word>,
    pub f: Option<Word>,
    /// Offsets from the start of an arc to its centre, `I` and `J`.
    pub i: Option<Word>,
    pub j: Option<Word>,
    /// True for a `G2`. Which way an arc turns decides which side of the
    /// circle it draws, so a tracer that guesses gets the complement.
    pub clockwise: bool,
    pub comment_at: Option<usize>,
    /// An `X` or `Y` word was present, whether or not its value was read.
    pub has_xy: bool,
}

/// What a line says. `X` and `Y` are read only where the plane is wanted, `E`
/// only where it is filament, and `I` and `J` only where they are a centre.
pub open spec fn reading<'a>(raw: &'a str, plane: bool) -> Line<'a> {
    let bytes = text::bytes(raw@);
    let body = body_of(bytes);
    let (code, clockwise) = command(body);
    Line {
        raw,
        code,
        x: if plane {
            word(body, 0x78)
        } else {
            None
        },
        y: if plane {
            word(body, 0x79)
        } else {
            None
        },
        z: word(body, 0x7a),
        e: if feeds(code) {
            word(body, 0x65)
        } else {
            None
        },
        f: word(body, 0x66),
        i: if code == Code::Arc {
            word(body, 0x69)
        } else {
            None
        },
        j: if code == Code::Arc {
            word(body, 0x6a)
        } else {
            None
        },
        clockwise,
        comment_at: if body.len() < bytes.len() {
            Some(body.len() as usize)
        } else {
            None
        },
        has_xy: in_plane(body),
    }
}

proof fn lemma_last_word(body: Seq<u8>, letter: u8, upto: int)
    requires
        0 <= upto <= body.len(),
        body.len() <= usize::MAX,
    ensures
        last_word(body, letter, upto) is Some ==> {
            let word = last_word(body, letter, upto)->0;
            1 <= word.start <= word.end <= body.len()
        },
    decreases upto,
{
    if upto > 0 {
        lemma_run_end(body, upto, |byte: u8| figure(byte));
        lemma_last_word(body, letter, upto - 1);
    }
}

impl<'a> Line<'a> {
    /// The line was read from its text.
    pub open spec fn valid(self) -> bool {
        self == reading(self.raw, true) || self == reading(self.raw, false)
    }

    /// Reads every word.
    pub fn parse(raw: &'a str) -> (line: Self)
        ensures
            line == reading(raw, true),
            line.valid(),
    {
        Self::read(raw, true)
    }

    /// Reads every word but `X` and `Y`, whose presence is still recorded.
    /// They are the two commonest words in a file, so a pass that only needs
    /// to know that a move went somewhere in the plane, not where, saves most
    /// of its per-line work here.
    pub fn scan(raw: &'a str) -> (line: Self)
        ensures
            line == reading(raw, false),
            line.valid(),
    {
        Self::read(raw, false)
    }

    fn read(raw: &'a str, plane: bool) -> (line: Self)
        ensures
            line == reading(raw, plane),
    {
        let bytes = raw.as_bytes();
        let length = text::position(bytes, 0x3b, 0, bytes.len());
        let body = slice_subrange(bytes, 0, length);
        assert(body@ =~= body_of(bytes@));
        let (code, clockwise) = command_of(body);
        let mut line = Line {
            raw,
            code,
            x: None,
            y: None,
            z: None,
            e: None,
            f: None,
            i: None,
            j: None,
            clockwise,
            comment_at: if length < bytes.len() {
                Some(length)
            } else {
                None
            },
            has_xy: false,
        };
        let feeds = matches!(code, Code::Move | Code::Arc | Code::SetPosition);
        let arc = matches!(code, Code::Arc);
        let mut at: usize = 0;
        while at < body.len()
            invariant
                at <= body.len(),
                feeds == self::feeds(code),
                arc == (code == Code::Arc),
                line == (Line {
                    x: if plane {
                        last_word(body@, 0x78, at as int)
                    } else {
                        None
                    },
                    y: if plane {
                        last_word(body@, 0x79, at as int)
                    } else {
                        None
                    },
                    z: last_word(body@, 0x7a, at as int),
                    e: if feeds {
                        last_word(body@, 0x65, at as int)
                    } else {
                        None
                    },
                    f: last_word(body@, 0x66, at as int),
                    i: if arc {
                        last_word(body@, 0x69, at as int)
                    } else {
                        None
                    },
                    j: if arc {
                        last_word(body@, 0x6a, at as int)
                    } else {
                        None
                    },
                    has_xy: line.has_xy,
                    raw,
                    code,
                    clockwise,
                    comment_at: if length < bytes.len() {
                        Some(length)
                    } else {
                        None
                    },
                }),
                line.has_xy == exists|k: int| 0 <= k < at && #[trigger] plane_at(body@, k),
            decreases body.len() - at,
        {
            let letter = text::to_lower(body[at]);
            let start = at + 1;
            let end = skip_figures(body, start);
            let ghost before = line.has_xy;
            if letter == 0x78 || letter == 0x79 {
                line.has_xy = line.has_xy || end > start;
            }
            proof {
                assert(plane_at(body@, at as int) == ((letter == 0x78 || letter == 0x79) && end
                    > start));
                if before {
                    let k = choose|k: int| 0 <= k < at && #[trigger] plane_at(body@, k);
                    assert(plane_at(body@, k));
                }
            }
            let wanted = match letter {
                0x78 | 0x79 => plane,
                0x69 | 0x6a => arc,
                0x65 => feeds,
                0x7a | 0x66 => true,
                _ => false,
            };
            if wanted {
                match number(slice_subrange(body, start, end)) {
                    Some(value) => {
                        let word = Some(Word { start, end, value });
                        match letter {
                            0x78 => {
                                line.x = word;
                            },
                            0x79 => {
                                line.y = word;
                            },
                            0x7a => {
                                line.z = word;
                            },
                            0x66 => {
                                line.f = word;
                            },
                            0x69 => {
                                line.i = word;
                            },
                            0x6a => {
                                line.j = word;
                            },
                            _ => {
                                line.e = word;
                            },
                        }
                    },
                    None => {},
                }
            }
            at = at + 1;
        }
        line
    }

    pub fn is_move(&self) -> (moves: bool)
        ensures
            moves == (self.code == Code::Move),
    {
        self.code == Code::Move
    }

    /// True for any move that can lay down material, arcs included.
    pub fn draws(&self) -> (draws: bool)
        ensures
            draws == (self.code == Code::Move || self.code == Code::Arc),
    {
        matches!(self.code, Code::Move | Code::Arc)
    }

    /// True for a move that goes somewhere in the XY plane.
    pub fn is_xy_move(&self) -> (moves: bool)
        ensures
            moves == (self.code == Code::Move && self.has_xy),
    {
        self.is_move() && self.has_xy
    }

    pub fn xy(&self) -> (place: Option<(Word, Word)>)
        ensures
            place == match (self.x, self.y) {
                (Some(x), Some(y)) => Some((x, y)),
                _ => None,
            },
    {
        match (self.x, self.y) {
            (Some(x), Some(y)) => Some((x, y)),
            _ => None,
        }
    }

    /// The centre offsets of the arc this line draws and whether it turns
    /// clockwise, or `None` for anything else. `R`-form arcs are not one: no
    /// slicer measured here emits them.
    pub fn arc(&self) -> (arc: Option<(Word, Word, bool)>)
        ensures
            arc == match (self.i, self.j) {
                (Some(i), Some(j)) => if self.code == Code::Arc {
                    Some((i, j, self.clockwise))
                } else {
                    None
                },
                _ => None,
            },
    {
        if self.code != Code::Arc {
            return None;
        }
        match (self.i, self.j) {
            (Some(i), Some(j)) => Some((i, j, self.clockwise)),
            _ => None,
        }
    }

    /// The comment text, without the leading `;`.
    pub fn comment(&self) -> (comment: Option<&'a str>)
        requires
            self.valid(),
        ensures
            comment is Some == self.comment_at is Some,
            comment is Some ==> text::bytes(comment->0@) == text::bytes(self.raw@).skip(
                self.comment_at->0 + 1,
            ),
    {
        let bytes = self.raw.as_bytes();
        assert(bytes@.len() == bytes.len());
        proof {
            text::lemma_find(bytes@, 0x3b, 0, bytes@.len() as int);
        }
        match self.comment_at {
            Some(at) => Some(after_comment(self.raw, at)),
            None => None,
        }
    }

    /// The comment text of a line that carries nothing else, which is the only
    /// shape a region or layer-change marker takes. A trailing comment on a
    /// move is not one, or the stamps this tool leaves on the Z moves it
    /// inserts would read as markers on the next pass.
    pub fn marker(&self) -> (marker: Option<&'a str>)
        requires
            self.valid(),
        ensures
            marker is Some == marker_of(text::bytes(self.raw@)) is Some,
            marker is Some ==> text::bytes(marker->0@) == marker_of(text::bytes(self.raw@))->0,
    {
        let bytes = self.raw.as_bytes();
        assert(bytes@.len() == bytes.len());
        proof {
            text::lemma_find(bytes@, 0x3b, 0, bytes@.len() as int);
        }
        match self.comment_at {
            Some(at) => {
                let mut i: usize = 0;
                while i < at
                    invariant
                        i <= at < bytes.len(),
                        bytes@ == text::bytes(self.raw@),
                        at == body_of(bytes@).len(),
                        at == text::find(bytes@, 0x3b, 0, bytes@.len() as int),
                        forall|j: int| 0 <= j < i ==> text::blank(#[trigger] bytes@[j]),
                    decreases at - i,
                {
                    let byte = bytes[i];
                    if byte != 0x20 && byte != 0x09 && byte != 0x0a && byte != 0x0c && byte
                        != 0x0d {
                        assert(!text::blank(body_of(bytes@)[i as int]));
                        return None;
                    }
                    i = i + 1;
                }
                Some(after_comment(self.raw, at))
            },
            None => None,
        }
    }

    /// Byte range of the `E` word's digits within [`Line::raw`], for a caller
    /// that keeps the text and rewrites the value later.
    pub fn e_span(&self) -> (span: Option<(usize, usize)>)
        ensures
            span == match self.e {
                Some(word) => Some((word.start, word.end)),
                None => None,
            },
    {
        match self.e {
            Some(word) => Some((word.start, word.end)),
            None => None,
        }
    }

    /// Writes the line with the digits of its `E` word replaced. The rest of
    /// it, including any comment, is copied byte for byte.
    pub fn write_e(&self, out: &mut Vec<u8>, digits: &[u8])
        requires
            self.valid(),
        ensures
            final(out)@ == old(out)@ + match self.e {
                Some(word) => replaced(
                    text::bytes(self.raw@),
                    word.start as int,
                    word.end as int,
                    digits@,
                ),
                None => text::bytes(self.raw@),
            },
    {
        let bytes = self.raw.as_bytes();
        assert(bytes@.len() == bytes.len());
        proof {
            self.lemma_words_lie_in_the_line();
        }
        write_e(out, self.raw, self.e_span(), digits)
    }

    /// Writes the line with the digits of its `Z` word replaced, putting one in
    /// where the line has none, and without a trailing newline so the caller
    /// can stamp it. Everything else is copied byte for byte.
    ///
    /// A move the slicer was already making can carry a height change this
    /// way, where a `G1 Z` of its own would stop the toolhead to make it.
    pub fn write_z(&self, out: &mut Vec<u8>, digits: &[u8])
        requires
            self.valid(),
        ensures
            final(out)@ == old(out)@ + match self.z {
                Some(word) => replaced(
                    text::bytes(self.raw@),
                    word.start as int,
                    word.end as int,
                    digits@,
                ),
                None => with_z(text::bytes(self.raw@), digits@),
            },
    {
        let bytes = self.raw.as_bytes();
        assert(bytes@.len() == bytes.len());
        proof {
            self.lemma_words_lie_in_the_line();
        }
        match self.z {
            Some(word) => write_e(out, self.raw, Some((word.start, word.end)), digits),
            None => {
                let at = match self.comment_at {
                    Some(at) => at,
                    None => bytes.len(),
                };
                let ghost before = out@;
                let end = text::drop_space(bytes, 0, at);
                out.extend_from_slice(slice_subrange(bytes, 0, end));
                out.push(0x20);
                out.push(0x5a);
                out.extend_from_slice(digits);
                out.extend_from_slice(slice_subrange(bytes, end, bytes.len()));
                proof {
                    text::lemma_find(bytes@, 0x3b, 0, bytes@.len() as int);
                    assert(out@ =~= before + with_z(bytes@, digits@));
                }
            },
        }
    }

    /// Every word's value lies within the line.
    pub proof fn lemma_words_lie_in_the_line(&self)
        requires
            self.valid(),
            text::bytes(self.raw@).len() <= usize::MAX,
        ensures
            self.e is Some ==> self.e->0.start <= self.e->0.end <= text::bytes(self.raw@).len(),
            self.z is Some ==> self.z->0.start <= self.z->0.end <= text::bytes(self.raw@).len(),
            self.comment_at is Some ==> self.comment_at->0 < text::bytes(self.raw@).len(),
    {
        let raw = text::bytes(self.raw@);
        text::lemma_find(raw, 0x3b, 0, raw.len() as int);
        let body = body_of(raw);
        lemma_last_word(body, 0x65, body.len() as int);
        lemma_last_word(body, 0x7a, body.len() as int);
    }
}

/// The comment of a line that carries nothing else.
pub open spec fn marker_of(raw: Seq<u8>) -> Option<Seq<u8>> {
    let body = body_of(raw);
    if body.len() < raw.len() && forall|i: int|
        0 <= i < body.len() ==> text::blank(#[trigger] body[i]) {
        Some(raw.skip(body.len() as int + 1))
    } else {
        None
    }
}

/// Text with `start..end` replaced.
pub open spec fn replaced(raw: Seq<u8>, start: int, end: int, digits: Seq<u8>) -> Seq<u8> {
    raw.take(start) + digits + raw.skip(end)
}

/// Where a word that a line does not have is put: behind everything its body
/// says, and before the white space that ends it.
pub open spec fn body_end(raw: Seq<u8>) -> int {
    text::before_space(raw, 0, body_of(raw).len() as int)
}

/// A line with a `Z` word put in at the end of its body.
pub open spec fn with_z(raw: Seq<u8>, digits: Seq<u8>) -> Seq<u8> {
    raw.take(body_end(raw)) + seq![0x20u8, 0x5a] + digits + raw.skip(body_end(raw))
}

/// What follows the `;` at `at`.
fn after_comment<'a>(raw: &'a str, at: usize) -> (comment: &'a str)
    requires
        at < text::bytes(raw@).len(),
        text::bytes(raw@)[at as int] == 0x3b,
    ensures
        text::bytes(comment@) == text::bytes(raw@).skip(at + 1),
{
    proof {
        vstd::utf8::encode_utf8_valid_utf8(raw@);
        vstd::utf8::is_char_boundary_iff_not_is_continuation_byte(raw.spec_bytes(), at as int);
    }
    let (_, tail) = raw.split_at(at);
    proof {
        let rest = tail.spec_bytes();
        vstd::utf8::encode_utf8_valid_utf8(tail@);
        assert(rest[0] == 0x3b);
        assert(vstd::utf8::length_of_first_scalar(rest) == 1);
        reveal_with_fuel(vstd::utf8::is_char_boundary, 2);
        assert(vstd::utf8::is_char_boundary(rest, 1));
    }
    let (_, comment) = tail.split_at(1);
    assert(comment.spec_bytes() =~= raw.spec_bytes().skip(at + 1));
    comment
}

/// Digits that go in place of a word's own.
pub struct Edit {
    pub start: usize,
    pub end: usize,
    pub digits: Vec<u8>,
}

/// Which of some edits starts at `at`; the first of them counts.
pub open spec fn edit_at(edits: Seq<Edit>, at: int, from: int) -> int
    decreases edits.len() - from,
{
    if from >= edits.len() || (edits[from].start == at && edits[from].end > at) {
        from
    } else {
        edit_at(edits, at, from + 1)
    }
}

/// A text from `at` on, with every edit that starts in it made.
pub open spec fn edited(raw: Seq<u8>, edits: Seq<Edit>, at: int) -> Seq<u8>
    decreases
            if at < raw.len() {
                raw.len() - at
            } else {
                0
            },
{
    if !(0 <= at < raw.len()) {
        seq![]
    } else {
        let k = edit_at(edits, at, 0);
        if k < edits.len() {
            proof {
                lemma_edit_at(edits, at, 0);
            }
            edits[k].digits@ + edited(raw, edits, edits[k].end as int)
        } else {
            seq![raw[at]] + edited(raw, edits, at + 1)
        }
    }
}

pub proof fn lemma_edit_at(edits: Seq<Edit>, at: int, from: int)
    requires
        0 <= from <= edits.len(),
    ensures
        from <= edit_at(edits, at, from) <= edits.len(),
        edit_at(edits, at, from) < edits.len() ==> edits[edit_at(edits, at, from)].start == at
            && edits[edit_at(edits, at, from)].end > at,
    decreases edits.len() - from,
{
    if from < edits.len() && !(edits[from].start == at && edits[from].end > at) {
        lemma_edit_at(edits, at, from + 1);
    }
}

/// Writes a text with every edit made.
fn write_edited(out: &mut Vec<u8>, raw: &[u8], edits: &Vec<Edit>)
    ensures
        final(out)@ == old(out)@ + edited(raw@, edits@, 0),
{
    let ghost before = out@;
    let mut at: usize = 0;
    while at < raw.len()
        invariant
            out@ + edited(raw@, edits@, at as int) == before + edited(raw@, edits@, 0),
        decreases
                if at < raw.len() {
                    raw.len() - at
                } else {
                    0
                },
    {
        let mut k: usize = 0;
        while k < edits.len() && !(edits[k].start == at && edits[k].end > at)
            invariant
                k <= edits.len(),
                edit_at(edits@, at as int, 0) == edit_at(edits@, at as int, k as int),
            decreases edits.len() - k,
        {
            k = k + 1;
        }
        let ghost so_far = out@;
        if k < edits.len() {
            out.extend_from_slice(edits[k].digits.as_slice());
            assert(out@ =~= so_far + edits@[k as int].digits@);
            let next = edits[k].end;
            assert(so_far + (edits@[k as int].digits@ + edited(raw@, edits@, next as int))
                =~= out@ + edited(raw@, edits@, next as int));
            at = next;
        } else {
            out.push(raw[at]);
            assert(so_far + (seq![raw@[at as int]] + edited(raw@, edits@, at + 1)) =~= out@
                + edited(raw@, edits@, at + 1));
            at = at + 1;
        }
    }
    assert(out@ + Seq::<u8>::empty() =~= out@);
}

/// Where a line is taken to instead, digit for digit. What is not given stays as
/// it was written.
pub struct Relocation<'a> {
    pub x: &'a [u8],
    pub y: &'a [u8],
    /// The new offsets to the centre of an arc.
    pub centre: Option<(&'a [u8], &'a [u8])>,
    pub e: Option<&'a [u8]>,
    pub z: Option<&'a [u8]>,
}

/// The edit that puts some digits in place of a word's.
pub open spec fn edits_word(edit: Edit, word: Word, digits: Seq<u8>) -> bool {
    edit.start == word.start && edit.end == word.end && edit.digits@ == digits
}

/// The line names every axis it would have to be taken along.
pub open spec fn relocatable(line: Line, to: Relocation) -> bool {
    line.x is Some && line.y is Some && (to.centre is Some ==> line.i is Some && line.j is Some)
}

/// The edits that take a line elsewhere: its `X` and `Y`, and its `I` and `J`,
/// `E` and `Z` where they are given and there.
pub open spec fn relocates(edits: Seq<Edit>, line: Line, to: Relocation) -> bool {
    let centred: int = if to.centre is Some {
        2
    } else {
        0
    };
    let fed: int = if to.e is Some && line.e is Some {
        1
    } else {
        0
    };
    let lifted: int = if to.z is Some && line.z is Some {
        1
    } else {
        0
    };
    &&& edits.len() == 2 + centred + fed + lifted
    &&& edits_word(edits[0], line.x->0, to.x@)
    &&& edits_word(edits[1], line.y->0, to.y@)
    &&& to.centre matches Some((i, j)) ==> {
        &&& edits_word(edits[2], line.i->0, i@)
        &&& edits_word(edits[3], line.j->0, j@)
    }
    &&& to.e is Some && line.e is Some ==> edits_word(edits[2 + centred], line.e->0, to.e->0@)
    &&& to.z is Some && line.z is Some ==> edits_word(
        edits[2 + centred + fed],
        line.z->0,
        to.z->0@,
    )
}

/// A line taken elsewhere. A `Z` word that the line does not have is put in at
/// the end of its body.
pub open spec fn relocated(line: Line, edits: Seq<Edit>, to: Relocation) -> Seq<u8> {
    let raw = text::bytes(line.raw@);
    if to.z is Some && line.z is None {
        let end = body_end(raw);
        edited(raw.take(end), edits, 0) + seq![0x20u8, 0x5a] + to.z->0@ + raw.skip(end)
    } else {
        edited(raw, edits, 0)
    }
}

fn word_edit(word: &Option<Word>, digits: &[u8]) -> (edit: Edit)
    requires
        word is Some,
    ensures
        edits_word(edit, word->0, digits@),
{
    match word {
        Some(word) => {
            let edit = Edit { start: word.start, end: word.end, digits: slice_to_vec(digits) };
            assert(edit.digits@ =~= digits@);
            edit
        },
        None => Edit { start: 0, end: 0, digits: Vec::new() },
    }
}

impl<'a> Line<'a> {
    /// Writes the line taken elsewhere, without a trailing newline, and says
    /// whether it could: a line that does not name the axes it would have to be
    /// taken along is left to the caller, and nothing is written of it.
    pub fn write_moved(&self, out: &mut Vec<u8>, to: &Relocation) -> (written: bool)
        requires
            self.valid(),
        ensures
            written == relocatable(*self, *to),
            !written ==> final(out)@ == old(out)@,
            written ==> exists|edits: Seq<Edit>|
                relocates(edits, *self, *to) && final(out)@ == old(out)@ + #[trigger] relocated(
                    *self,
                    edits,
                    *to,
                ),
    {
        if self.x.is_none() || self.y.is_none() {
            return false;
        }
        let mut edits: Vec<Edit> = Vec::new();
        edits.push(word_edit(&self.x, to.x));
        edits.push(word_edit(&self.y, to.y));
        match to.centre {
            Some((i, j)) => {
                if self.i.is_none() || self.j.is_none() {
                    return false;
                }
                edits.push(word_edit(&self.i, i));
                edits.push(word_edit(&self.j, j));
            },
            None => {},
        }
        match to.e {
            Some(e) => {
                if self.e.is_some() {
                    edits.push(word_edit(&self.e, e));
                }
            },
            None => {},
        }
        let bytes = self.raw.as_bytes();
        assert(bytes@.len() == bytes.len());
        proof {
            self.lemma_words_lie_in_the_line();
            text::lemma_find(bytes@, 0x3b, 0, bytes@.len() as int);
        }
        let ghost before = out@;
        match to.z {
            Some(z) => {
                if self.z.is_some() {
                    edits.push(word_edit(&self.z, z));
                } else {
                    let at = match self.comment_at {
                        Some(at) => at,
                        None => bytes.len(),
                    };
                    let end = text::drop_space(bytes, 0, at);
                    let head = slice_subrange(bytes, 0, end);
                    assert(head@ =~= bytes@.take(end as int));
                    write_edited(out, head, &edits);
                    out.push(0x20);
                    out.push(0x5a);
                    out.extend_from_slice(z);
                    out.extend_from_slice(slice_subrange(bytes, end, bytes.len()));
                    assert(relocates(edits@, *self, *to));
                    assert(out@ =~= before + relocated(*self, edits@, *to));
                    return true;
                }
            },
            None => {},
        }
        write_edited(out, bytes, &edits);
        assert(relocates(edits@, *self, *to));
        assert(out@ =~= before + relocated(*self, edits@, *to));
        true
    }
}

/// Writes `raw` with the digits at `span` replaced.
pub fn write_e(out: &mut Vec<u8>, raw: &str, span: Option<(usize, usize)>, digits: &[u8])
    requires
        span matches Some((start, end)) ==> start <= end <= text::bytes(raw@).len(),
    ensures
        final(out)@ == old(out)@ + match span {
            Some((start, end)) => replaced(
                text::bytes(raw@),
                start as int,
                end as int,
                digits@,
            ),
            None => text::bytes(raw@),
        },
{
    let bytes = raw.as_bytes();
    let ghost before = out@;
    match span {
        Some((start, end)) => {
            out.extend_from_slice(slice_subrange(bytes, 0, start));
            out.extend_from_slice(digits);
            out.extend_from_slice(slice_subrange(bytes, end, bytes.len()));
            assert(out@ =~= before + replaced(bytes@, start as int, end as int, digits@));
        },
        None => {
            out.extend_from_slice(bytes);
            assert(out@ =~= before + bytes@);
        },
    }
}

/// The two ways of reading a line agree about everything but the plane.
pub proof fn scanning_agrees_with_parsing_apart_from_the_plane(raw: &str)
    ensures
        reading(raw, false) == (Line { x: None, y: None, ..reading(raw, true) }),
{
}

/// A comment never changes what a line says: lines with the same body have the
/// same command and the same words.
pub proof fn a_comment_says_nothing(a: &str, b: &str, plane: bool)
    requires
        body_of(text::bytes(a@)) == body_of(text::bytes(b@)),
    ensures
        ({
            let one = reading(a, plane);
            reading(b, plane) == (Line {
                raw: b,
                comment_at: reading(b, plane).comment_at,
                ..one
            })
        }),
{
}

/// Keeps an extrusion stream consistent while individual moves are rescaled or
/// split.
///
/// In relative mode (`M83`) an `E` word is already a delta and passes straight
/// through. In absolute mode (`M82`) rescaling one move shifts every later
/// value, so input and output positions are tracked separately.
///
/// Whether a line has to be written again is decided by comparing what
/// [`Extruder::advance`] hands back against the value the line already
/// carries. There is deliberately no "is it drifting" flag: a caller that
/// buffers a region reads the whole of it before emitting any of it, so the
/// input position runs ahead of the output and the two say nothing about each
/// other until the region is replayed.
#[derive(Clone, Copy, Debug)]
pub struct Extruder {
    pub absolute: bool,
    /// Where the input stream stands.
    pub input: Double,
    /// Where the output stream stands.
    pub output: Double,
}

impl Extruder {
    /// Marlin powers up in absolute mode; slicers override it in their start
    /// G-code.
    pub fn new() -> (extruder: Self)
        ensures
            extruder.absolute,
            extruder.input.bits == 0,
            extruder.output.bits == 0,
    {
        Extruder { absolute: true, input: Double::zero(), output: Double::zero() }
    }

    pub fn is_absolute(&self) -> (absolute: bool)
        ensures
            absolute == self.absolute,
    {
        self.absolute
    }

    /// Applies `M82` / `M83`.
    pub fn set_mode(&mut self, code: Code)
        ensures
            *final(self) == (Extruder {
                absolute: if code == Code::AbsoluteE {
                    true
                } else if code == Code::RelativeE {
                    false
                } else {
                    old(self).absolute
                },
                ..*old(self)
            }),
    {
        match code {
            Code::AbsoluteE => {
                self.absolute = true;
            },
            Code::RelativeE => {
                self.absolute = false;
            },
            _ => {},
        }
    }

    /// Applies `G92 E<value>`, which redefines the origin of both streams.
    pub fn set_position(&mut self, value: Double)
        ensures
            *final(self) == (Extruder { input: value, output: value, ..*old(self) }),
    {
        self.input = value;
        self.output = value;
    }

    /// Applies the reset to the input stream only, at the point the `G92` is
    /// read.
    ///
    /// A pass that buffers a region has not written that region out when it
    /// parses the line, so the output stream is still behind and must not be
    /// moved with it. See [`Extruder::advance_origin`].
    pub fn observe_origin(&mut self, value: Double)
        ensures
            *final(self) == (Extruder { input: value, ..*old(self) }),
    {
        self.input = value;
    }

    /// Applies the reset to the output stream, at the point the `G92` is
    /// written.
    pub fn advance_origin(&mut self, value: Double)
        ensures
            *final(self) == (Extruder { output: value, ..*old(self) }),
    {
        self.output = value;
    }

    /// Reads an `E` word from the input and returns the filament delta it asks
    /// for. `difference` is how far `value` is past the input position.
    pub fn observe(&mut self, value: Double, difference: Double) -> (delta: Double)
        ensures
            delta == if old(self).absolute {
                difference
            } else {
                value
            },
            *final(self) == (Extruder {
                input: if old(self).absolute {
                    value
                } else {
                    old(self).input
                },
                ..*old(self)
            }),
    {
        if self.absolute {
            self.input = value;
            difference
        } else {
            value
        }
    }

    /// Reserves `delta` mm of filament and returns the `E` word to emit. `sum`
    /// is the output position with `delta` on top.
    pub fn advance(&mut self, delta: Double, sum: Double) -> (value: Double)
        ensures
            value == if old(self).absolute {
                sum
            } else {
                delta
            },
            *final(self) == (Extruder {
                output: if old(self).absolute {
                    sum
                } else {
                    old(self).output
                },
                ..*old(self)
            }),
    {
        if self.absolute {
            self.output = sum;
            sum
        } else {
            delta
        }
    }
}

impl Default for Extruder {
    fn default() -> (extruder: Self)
        ensures
            extruder.absolute,
            extruder.input.bits == 0,
            extruder.output.bits == 0,
    {
        Self::new()
    }
}

} // verus!
