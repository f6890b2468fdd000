//! The layout of a Heatshrink stream, and what it copies.
//!
//! Nothing here is run. A stream is written down as the literals and references
//! it is made of, with the widths the container's two formats have, and reading
//! it gives what they stand for.

use super::fault::Fault;
use super::heatshrink;
use super::heatshrink::Params;
use super::packing;
use super::packing::Compression;
use vstd::arithmetic::div_mod::*;
use vstd::arithmetic::power2::*;
use vstd::prelude::*;

verus! {

/// One piece of a stream.
pub enum Token {
    /// A byte that stands for itself.
    Literal(u8),
    /// A run of bytes, each as the one so far before it.
    Run { distance: nat, count: nat },
}

/// A number in `width` bits, the high one first.
pub open spec fn spelled(value: nat, width: nat) -> Seq<bool> {
    Seq::new(width, |i: int| value / pow2((width - 1 - i) as nat) % 2 == 1)
}

/// The bits of one piece: a set bit and the eight of a byte, or a clear bit, the
/// distance less one in the bits of the window and the length less one in four.
pub open spec fn token_bits(token: Token, window: nat) -> Seq<bool> {
    match token {
        Token::Literal(byte) => seq![true] + spelled(byte as nat, 8),
        Token::Run { distance, count } => seq![false] + spelled((distance - 1) as nat, window)
            + spelled((count - 1) as nat, 4),
    }
}

/// The bits of some pieces, one after the other.
pub open spec fn laid_out(tokens: Seq<Token>, window: nat) -> Seq<bool>
    decreases tokens.len(),
{
    if tokens.len() == 0 {
        seq![]
    } else {
        token_bits(tokens[0], window) + laid_out(tokens.skip(1), window)
    }
}

/// No reference reaches further than `reach`, and each copies one to sixteen
/// bytes.
pub open spec fn within(tokens: Seq<Token>, reach: nat) -> bool {
    forall|i: int|
        0 <= i < tokens.len() ==> ((#[trigger] tokens[i]) matches Token::Run { distance, count }
            ==> 1 <= distance <= reach && 1 <= count <= 16)
}

/// Bytes a piece stands for.
pub open spec fn span(token: Token) -> nat {
    match token {
        Token::Literal(_) => 1,
        Token::Run { count, .. } => count,
    }
}

/// Bytes some pieces stand for.
pub open spec fn length(tokens: Seq<Token>) -> nat
    decreases tokens.len(),
{
    if tokens.len() == 0 {
        0
    } else {
        span(tokens[0]) + length(tokens.skip(1))
    }
}

/// A piece stands at `from` in a text: a literal is its byte, and every byte of a
/// run is the one `distance` before it, or zero where the text does not reach
/// back that far.
pub open spec fn stands(token: Token, text: Seq<u8>, from: int) -> bool {
    match token {
        Token::Literal(byte) => text[from] == byte,
        Token::Run { distance, count } => forall|i: int|
            from <= i < from + count ==> #[trigger] text[i] == if i >= distance {
                text[i - distance]
            } else {
                0
            },
    }
}

/// Some pieces stand for the bytes of a text from `from` on.
pub open spec fn stand_for(tokens: Seq<Token>, text: Seq<u8>, from: int) -> bool
    decreases tokens.len(),
{
    tokens.len() > 0 ==> {
        &&& stands(tokens[0], text, from)
        &&& stand_for(tokens.skip(1), text, from + span(tokens[0]))
    }
}

/// What a bit of a byte is worth, the high one first.
pub open spec fn weight(at: int) -> nat {
    if at == 0 {
        128
    } else if at == 1 {
        64
    } else if at == 2 {
        32
    } else if at == 3 {
        16
    } else if at == 4 {
        8
    } else if at == 5 {
        4
    } else if at == 6 {
        2
    } else {
        1
    }
}

/// Some bytes hold a stream, the high bit of each byte first, and perhaps more
/// behind it.
pub open spec fn stored_as(stream: Seq<bool>, data: Seq<u8>) -> bool {
    &&& stream.len() <= 8 * data.len()
    &&& forall|i: int|
        0 <= i < stream.len() ==> #[trigger] stream[i] == (data[i / 8] as nat / weight(i % 8) % 2
            == 1)
}

proof fn lemma_bits_of_a_byte(byte: u8)
    by (bit_vector)
    ensures
        ((byte >> 7u8) & 1 == 1) == (byte / 128 % 2 == 1),
        ((byte >> 6u8) & 1 == 1) == (byte / 64 % 2 == 1),
        ((byte >> 5u8) & 1 == 1) == (byte / 32 % 2 == 1),
        ((byte >> 4u8) & 1 == 1) == (byte / 16 % 2 == 1),
        ((byte >> 3u8) & 1 == 1) == (byte / 8 % 2 == 1),
        ((byte >> 2u8) & 1 == 1) == (byte / 4 % 2 == 1),
        ((byte >> 1u8) & 1 == 1) == (byte / 2 % 2 == 1),
        ((byte >> 0u8) & 1 == 1) == (byte / 1 % 2 == 1),
{
}

proof fn lemma_bit(data: Seq<u8>, i: int)
    requires
        0 <= i < 8 * data.len(),
    ensures
        heatshrink::bits(data)[i] == (data[i / 8] as nat / weight(i % 8) % 2 == 1),
{
    let byte = data[i / 8];
    lemma_bits_of_a_byte(byte);
    assert(0 <= i % 8 < 8);
    let at = (i % 8) as u8;
    assert(heatshrink::bits(data)[i] == heatshrink::bit_of(byte, at));
    if at == 0 {
        assert((7 - at) as u8 == 7u8);
    } else if at == 1 {
        assert((7 - at) as u8 == 6u8);
    } else if at == 2 {
        assert((7 - at) as u8 == 5u8);
    } else if at == 3 {
        assert((7 - at) as u8 == 4u8);
    } else if at == 4 {
        assert((7 - at) as u8 == 3u8);
    } else if at == 5 {
        assert((7 - at) as u8 == 2u8);
    } else if at == 6 {
        assert((7 - at) as u8 == 1u8);
    } else {
        assert((7 - at) as u8 == 0u8);
    }
}

/// Some bits stand at `at` in a stream.
spec fn found(stream: Seq<bool>, at: int, part: Seq<bool>) -> bool {
    &&& 0 <= at
    &&& at + part.len() <= stream.len()
    &&& forall|i: int| 0 <= i < part.len() ==> #[trigger] part[i] == stream[at + i]
}

proof fn lemma_found(stream: Seq<bool>, at: int, a: Seq<bool>, b: Seq<bool>)
    requires
        found(stream, at, a + b),
    ensures
        found(stream, at, a),
        found(stream, at + a.len(), b),
{
    assert forall|i: int| 0 <= i < a.len() implies #[trigger] a[i] == stream[at + i] by {
        assert((a + b)[i] == a[i]);
    }
    assert forall|i: int| 0 <= i < b.len() implies #[trigger] b[i] == stream[at + a.len() + i] by {
        assert((a + b)[a.len() + i] == b[i]);
    }
}

/// A number that is spelled out is read as itself.
proof fn lemma_spelled(stream: Seq<bool>, at: int, value: nat, width: nat)
    requires
        value < pow2(width),
        found(stream, at, spelled(value, width)),
    ensures
        heatshrink::number(stream, at, width) == value,
    decreases width,
{
    let bits = spelled(value, width);
    if width == 0 {
        lemma2_to64();
    } else {
        let less = (width - 1) as nat;
        lemma_pow2_unfold(width);
        let half = spelled(value / 2, less);
        assert forall|i: int| 0 <= i < half.len() implies #[trigger] half[i] == stream[at + i] by {
            let p = (less - 1 - i) as nat;
            lemma_pow2_unfold((p + 1) as nat);
            lemma_pow2_pos(p);
            lemma_div_denominator(value as int, 2, pow2(p) as int);
            assert(value / 2 / pow2(p) == value / pow2((p + 1) as nat));
            assert(bits[i] == stream[at + i]);
            assert((width - 1 - i) as nat == p + 1);
        }
        lemma_spelled(stream, at, value / 2, less);
        assert(bits[less as int] == stream[at + less]);
        lemma2_to64();
        assert(pow2(0) == 1);
        assert(value / 1 == value);
    }
}

proof fn lemma_copied(text: Seq<u8>, distance: nat, count: nat, i: int)
    requires
        1 <= distance,
        text.len() <= i < text.len() + count,
    ensures
        heatshrink::copied(text, distance, count).len() == text.len() + count,
        heatshrink::copied(text, distance, count)[i] == if i >= distance {
            heatshrink::copied(text, distance, count)[i - distance]
        } else {
            0
        },
    decreases count,
{
    let less = (count - 1) as nat;
    let before = heatshrink::copied(text, distance, less);
    heatshrink::lemma_copied(text, distance, less);
    heatshrink::lemma_copied(text, distance, count);
    if i < text.len() + less {
        lemma_copied(text, distance, less, i);
    }
}

/// The pieces that stand in a stream at `at` are read as what they stand for.
proof fn lemma_reads(
    stream: Seq<bool>,
    at: int,
    params: Params,
    window: nat,
    reach: nat,
    tokens: Seq<Token>,
    text: Seq<u8>,
    expected: nat,
)
    requires
        params.window() == window,
        reach == pow2(window),
        found(stream, at, laid_out(tokens, window)),
        within(tokens, reach),
        text.len() + length(tokens) <= expected,
    ensures
        ({
            let made = written(tokens, text);
            &&& made.len() == text.len() + length(tokens)
            &&& made.take(text.len() as int) == text
            &&& stand_for(tokens, made, text.len() as int)
            &&& heatshrink::unpacked_from(stream, at, params, text, expected)
                == heatshrink::unpacked_from(
                stream,
                at + laid_out(tokens, window).len(),
                params,
                made,
                expected,
            )
        }),
    decreases tokens.len(),
{
    if tokens.len() == 0 {
        assert(text.take(text.len() as int) =~= text);
    } else {
        let token = tokens[0];
        let rest = tokens.skip(1);
        let bits = token_bits(token, window);
        lemma_found(stream, at, bits, laid_out(rest, window));
        assert(within(rest, reach)) by {
            assert forall|i: int| 0 <= i < rest.len() implies ((#[trigger] rest[i]) matches Token::Run {
                distance,
                count,
            } ==> 1 <= distance <= reach && 1 <= count <= 16) by {
                assert(rest[i] == tokens[i + 1]);
            }
        }
        let next = one_written(token, text);
        let from = text.len() as int;
        match token {
            Token::Literal(byte) => {
                lemma_found(stream, at, seq![true], spelled(byte as nat, 8));
                assert(seq![true][0] == stream[at + 0]);
                lemma2_to64();
                lemma_spelled(stream, at + 1, byte as nat, 8);
                assert(bits.len() == 9);
            },
            Token::Run { distance, count } => {
                assert(1 <= distance <= reach && 1 <= count <= 16);
                let aim = spelled((distance - 1) as nat, window);
                let size = spelled((count - 1) as nat, 4);
                lemma_found(stream, at, seq![false] + aim, size);
                lemma_found(stream, at, seq![false], aim);
                assert(seq![false][0] == stream[at + 0]);
                lemma2_to64();
                lemma_spelled(stream, at + 1, (distance - 1) as nat, window);
                lemma_spelled(stream, at + 1 + window, (count - 1) as nat, 4);
                heatshrink::lemma_copied(text, distance, count);
                assert(bits.len() == 1 + window + 4);
            },
        }
        lemma_reads(stream, at + bits.len(), params, window, reach, rest, next, expected);
        let made = written(tokens, text);
        assert(next.len() == from + span(token));
        assert(next.take(from) =~= text) by {
            if let Token::Run { distance, count } = token {
                heatshrink::lemma_copied(text, distance, count);
            }
        }
        assert(made.take(from) =~= made.take(next.len() as int).take(from));
        assert(forall|i: int| 0 <= i < next.len() ==> made.take(next.len() as int)[i] == made[i]);
        assert(stands(token, made, from)) by {
            match token {
                Token::Literal(byte) => {
                    assert(next[from] == byte);
                },
                Token::Run { distance, count } => {
                    assert forall|i: int| from <= i < from + count implies #[trigger] made[i]
                        == if i >= distance {
                        made[i - distance]
                    } else {
                        0
                    } by {
                        lemma_copied(text, distance, count, i);
                        assert(made[i] == next[i]);
                    }
                },
            }
        }
        assert(at + laid_out(tokens, window).len() == at + bits.len() + laid_out(
            rest,
            window,
        ).len());
    }
}

/// A text with what one piece stands for behind it.
spec fn one_written(token: Token, text: Seq<u8>) -> Seq<u8> {
    match token {
        Token::Literal(byte) => text.push(byte),
        Token::Run { distance, count } => heatshrink::copied(text, distance, count),
    }
}

spec fn written(tokens: Seq<Token>, text: Seq<u8>) -> Seq<u8>
    decreases tokens.len(),
{
    if tokens.len() == 0 {
        text
    } else {
        written(tokens.skip(1), one_written(tokens[0], text))
    }
}

proof fn lemma_whole(data: Seq<u8>, params: Params, window: nat, reach: nat, tokens: Seq<Token>)
    requires
        params.window() == window,
        reach == pow2(window),
        stored_as(laid_out(tokens, window), data),
        within(tokens, reach),
    ensures
        heatshrink::unpacked(data, params, length(tokens)) == Some(written(tokens, seq![])),
        written(tokens, seq![]).len() == length(tokens),
        stand_for(tokens, written(tokens, seq![]), 0),
        forall|expected: nat|
            length(tokens) < expected && 8 * data.len() < laid_out(tokens, window).len() + 9
                ==> #[trigger] heatshrink::unpacked(data, params, expected) is None,
{
    let stream = heatshrink::bits(data);
    let bits = laid_out(tokens, window);
    assert forall|i: int| 0 <= i < bits.len() implies #[trigger] bits[i] == stream[0 + i] by {
        lemma_bit(data, i);
    }
    assert(found(stream, 0, bits));
    lemma_reads(stream, 0, params, window, reach, tokens, seq![], length(tokens));
    let made = written(tokens, seq![]);
    assert(made.take(length(tokens) as int) =~= made);
    assert forall|expected: nat|
        length(tokens) < expected && 8 * data.len() < bits.len() + 9 implies #[trigger]
        heatshrink::unpacked(data, params, expected) is None by {
        lemma_reads(stream, 0, params, window, reach, tokens, seq![], expected);
        assert(made.len() < expected);
        assert(stream.len() == 8 * data.len());
        assert(window >= 11);
    }
}

/// Payload of compression 3 is read with twelve bits of distance and four of
/// length: whatever literals and runs its bits spell out, it unpacks to the bytes
/// they stand for.
pub proof fn compression_three_reads_twelve_bits_back(data: Seq<u8>, tokens: Seq<Token>)
    requires
        stored_as(laid_out(tokens, 12), data),
        within(tokens, 4096),
    ensures
        Compression::numbered(3) is Some,
        ({
            let text = packing::unpacked(data, Compression::numbered(3)->0, length(tokens));
            &&& text is Ok
            &&& text->Ok_0.len() == length(tokens)
            &&& stand_for(tokens, text->Ok_0, 0)
        }),
{
    lemma2_to64();
    lemma_whole(data, Params::W12, 12, 4096, tokens);
}

/// Payload of compression 2 is read with eleven bits of distance and four of
/// length.
pub proof fn compression_two_reads_eleven_bits_back(data: Seq<u8>, tokens: Seq<Token>)
    requires
        stored_as(laid_out(tokens, 11), data),
        within(tokens, 2048),
    ensures
        Compression::numbered(2) is Some,
        ({
            let text = packing::unpacked(data, Compression::numbered(2)->0, length(tokens));
            &&& text is Ok
            &&& text->Ok_0.len() == length(tokens)
            &&& stand_for(tokens, text->Ok_0, 0)
        }),
{
    lemma2_to64();
    lemma_whole(data, Params::W11, 11, 2048, tokens);
}

/// A payload that ends before it has given as many bytes as were promised is
/// refused: what is left of its last byte holds no further piece.
pub proof fn a_payload_that_ends_early_is_refused(
    data: Seq<u8>,
    tokens: Seq<Token>,
    expected: nat,
    code: u16,
)
    requires
        code == 2 || code == 3,
        code == 2 ==> stored_as(laid_out(tokens, 11), data) && within(tokens, 2048) && 8
            * data.len() < laid_out(tokens, 11).len() + 9,
        code == 3 ==> stored_as(laid_out(tokens, 12), data) && within(tokens, 4096) && 8
            * data.len() < laid_out(tokens, 12).len() + 9,
        length(tokens) < expected,
    ensures
        packing::unpacked(data, Compression::numbered(code)->0, expected) == Err::<Seq<u8>, Fault>(
            Fault::Heatshrink,
        ),
{
    lemma2_to64();
    if code == 3 {
        lemma_whole(data, Params::W12, 12, 4096, tokens);
        assert(heatshrink::unpacked(data, Params::W12, expected) is None);
    } else {
        lemma_whole(data, Params::W11, 11, 2048, tokens);
        assert(heatshrink::unpacked(data, Params::W11, expected) is None);
    }
}

/// Payload of compression 0 is the bytes themselves, and of compression 1 what
/// they inflate to; either is refused where it has another length than was
/// promised. There is no other compression.
pub proof fn the_other_compressions_are_none_and_deflate(data: Seq<u8>, expected: nat, code: u16)
    ensures
        Compression::numbered(0) is Some,
        Compression::numbered(1) is Some,
        code > 3 ==> Compression::numbered(code) is None,
        packing::unpacked(data, Compression::numbered(0)->0, data.len()) == Ok::<Seq<u8>, Fault>(
            data,
        ),
        data.len() != expected ==> packing::unpacked(data, Compression::numbered(0)->0, expected)
            == Err::<Seq<u8>, Fault>(Fault::Length(data.len(), expected)),
        packing::unpacked(data, Compression::numbered(1)->0, expected) == match packing::inflated(
            data,
        ) {
            Ok(text) if text.len() == expected => Ok::<Seq<u8>, Fault>(text),
            Ok(text) => Err(Fault::Length(text.len(), expected)),
            Err(reason) => Err(Fault::Deflate(reason)),
        },
{
}

proof fn lemma_digits_length(value: nat, count: nat)
    ensures
        heatshrink::digits(value, count).len() == count,
    decreases count,
{
    if count > 0 {
        lemma_digits_length(value / 2, (count - 1) as nat);
    }
}

proof fn lemma_run(data: Seq<u8>, at: int, distance: int, count: int)
    requires
        1 <= distance <= at <= data.len(),
        0 <= count <= 16,
        at + count <= data.len(),
    ensures
        count <= heatshrink::run_of(data, at, distance, count) <= 16,
        at + heatshrink::run_of(data, at, distance, count) <= data.len(),
    decreases 16 - count,
{
    if count < 16 && at + count < data.len() && data[at + count] == data[at + count - distance] {
        lemma_run(data, at, distance, count + 1);
    }
}

proof fn lemma_size(data: Seq<u8>, at: int, seen: Seq<usize>, params: Params)
    requires
        0 <= at <= data.len(),
        seen.len() == heatshrink::SLOTS,
    ensures
        heatshrink::packed_from(data, at, seen, params).len() <= 9 * (data.len() - at),
    decreases data.len() - at,
{
    if at < data.len() {
        let (distance, count) = heatshrink::reference(data, at, seen, params);
        let after = heatshrink::filed(data, at, seen);
        if data.len() - at >= 2 {
            let last = seen[heatshrink::slot_of(data[at], data[at + 1])];
            if 1 <= last <= at {
                lemma_run(data, at, at - last + 1, 0);
            }
        }
        if count >= 2 {
            lemma_digits_length((distance - 1) as nat, params.window());
            lemma_digits_length((count - 1) as nat, 4);
            lemma_size(data, at + count, after, params);
        } else {
            lemma_digits_length(data[at] as nat, 8);
            lemma_size(data, at + 1, after, params);
        }
    }
}

/// Packing never takes more than nine bits a byte.
pub proof fn packing_takes_nine_bits_a_byte_at_most(data: Seq<u8>, params: Params)
    ensures
        8 * heatshrink::packed(data, params).len() <= 9 * data.len() + 7,
{
    lemma_size(data, 0, Seq::new(heatshrink::SLOTS as nat, |i: int| 0usize), params);
}

/// One byte stands all through a text.
pub open spec fn all_one(data: Seq<u8>) -> bool {
    forall|i: int, j: int| 0 <= i < data.len() && 0 <= j < data.len() ==> data[i] == data[j]
}

proof fn lemma_long_run(data: Seq<u8>, at: int, distance: int, count: int)
    requires
        all_one(data),
        1 <= distance <= at <= data.len(),
        0 <= count <= 16,
        at + count <= data.len(),
    ensures
        heatshrink::run_of(data, at, distance, count) == if data.len() - at < 16 {
            data.len() - at
        } else {
            16
        },
    decreases 16 - count,
{
    if count < 16 && at + count < data.len() {
        assert(data[at + count] == data[at + count - distance]);
        lemma_long_run(data, at, distance, count + 1);
    }
}

proof fn lemma_repeats(data: Seq<u8>, at: int, seen: Seq<usize>, params: Params)
    requires
        all_one(data),
        1 <= at <= data.len() < usize::MAX,
        seen.len() == heatshrink::SLOTS,
        ({
            let last = seen[heatshrink::slot_of(data[0], data[0])];
            1 <= last <= at && at - last < 16
        }),
    ensures
        heatshrink::packed_from(data, at, seen, params).len() <= 17 * ((data.len() - at + 15) / 16),
    decreases data.len() - at,
{
    if at < data.len() {
        let (distance, count) = heatshrink::reference(data, at, seen, params);
        let after = heatshrink::filed(data, at, seen);
        let slot = heatshrink::slot_of(data[0], data[0]);
        if data.len() - at >= 2 {
            assert(data[at] == data[0] && data[at + 1] == data[0]);
            reveal_with_fuel(heatshrink::power, 13);
            let last = seen[slot];
            lemma_long_run(data, at, at - last + 1, 0);
            lemma_digits_length((distance - 1) as nat, params.window());
            lemma_digits_length((count - 1) as nat, 4);
            assert(after[slot] == at + 1);
            lemma_repeats(data, at + count, after, params);
        } else {
            lemma_digits_length(data[at] as nat, 8);
            assert(heatshrink::packed_from(data, at + 1, after, params).len() == 0);
        }
    }
}

/// A text of one byte over and over packs to seventeen bits for every sixteen
/// bytes, and what its first takes.
pub proof fn what_repeats_is_packed_small(data: Seq<u8>, params: Params)
    requires
        all_one(data),
        0 < data.len() < usize::MAX,
    ensures
        8 * heatshrink::packed(data, params).len() <= 9 + 17 * ((data.len() + 14) / 16) + 7,
{
    let seen = Seq::new(heatshrink::SLOTS as nat, |i: int| 0usize);
    let slot = heatshrink::slot_of(data[0], data[0]);
    let after = heatshrink::filed(data, 0, seen);
    let (distance, count) = heatshrink::reference(data, 0, seen, params);
    assert(count == 0);
    lemma_digits_length(data[0] as nat, 8);
    if data.len() >= 2 {
        assert(data[1] == data[0]);
        assert(after[slot] == 1);
        lemma_repeats(data, 1, after, params);
    } else {
        assert(heatshrink::packed_from(data, 1, after, params).len() == 0);
    }
}

} // verus!
