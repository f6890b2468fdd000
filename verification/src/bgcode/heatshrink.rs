//! Heatshrink, the small-window LZSS the container's blocks are packed with.
//!
//! A stream is a run of bits, the high bit of each byte first. A set bit opens
//! a literal of eight bits; a clear one opens a reference, which names how far
//! back to copy from and how many bytes to copy. References may overlap what
//! they produce, and one that reaches before the start of the text reads zeros,
//! as a decoder's cleared window would give it. The stream states no length of
//! its own: a reader has to know how many bytes it is owed.

use vstd::prelude::*;

verus! {

/// The window sizes the container format allows, with a lookahead of sixteen
/// bytes in either case.
#[derive(Clone, Copy, Debug, PartialEq, Eq, Structural)]
pub enum Params {
    W11,
    W12,
}

/// Bits a reference counts its bytes with.
pub const LOOKAHEAD: u8 = 4;

/// The longest run one reference can copy.
pub const LONGEST: usize = 16;

/// The shortest run a reference is worth writing for: two literals take a bit
/// more than the widest reference.
pub const SHORTEST: usize = 2;

/// Slots in the encoder's table of where a pair of bytes was last seen.
pub const SLOTS: usize = 4096;

impl Params {
    /// Bits a reference states its distance with.
    pub open spec fn window(self) -> nat {
        match self {
            Params::W11 => 11,
            Params::W12 => 12,
        }
    }

    fn window_bits(self) -> (bits: u8)
        ensures
            bits == self.window(),
    {
        match self {
            Params::W11 => 11,
            Params::W12 => 12,
        }
    }

    /// The furthest a reference can reach.
    fn reach(self) -> (distance: usize)
        ensures
            distance == power(self.window()),
            distance <= SLOTS,
    {
        proof {
            reveal_with_fuel(power, 13);
        }
        match self {
            Params::W11 => 2048,
            Params::W12 => 4096,
        }
    }
}

/// Two to the power of `bits`.
pub open spec fn power(bits: nat) -> nat
    decreases bits,
{
    if bits == 0 {
        1
    } else {
        2 * power((bits - 1) as nat)
    }
}

/// One bit of a byte, counted from its high end.
pub open spec fn bit_of(byte: u8, at: u8) -> bool {
    (byte >> ((7 - at) as u8)) & 1 == 1
}

/// The bits of some bytes, in the order a stream reads them.
pub open spec fn bits(data: Seq<u8>) -> Seq<bool> {
    Seq::new(8 * data.len(), |i: int| bit_of(data[i / 8], (i % 8) as u8))
}

/// The number that `count` bits from `at` spell, the high bit first.
pub open spec fn number(stream: Seq<bool>, at: int, count: nat) -> nat
    decreases count,
{
    if count == 0 {
        0
    } else {
        2 * number(stream, at, (count - 1) as nat) + if stream[at + count - 1] {
            1nat
        } else {
            0nat
        }
    }
}

/// The byte that stands `distance` before the end of `text`, which is zero
/// where the text does not reach back that far.
pub open spec fn back(text: Seq<u8>, distance: nat) -> u8 {
    if 1 <= distance <= text.len() {
        text[text.len() - distance]
    } else {
        0
    }
}

/// `text` with `count` bytes copied onto its end, each from `distance` before
/// where it goes.
pub open spec fn copied(text: Seq<u8>, distance: nat, count: nat) -> Seq<u8>
    decreases count,
{
    if count == 0 {
        text
    } else {
        let before = copied(text, distance, (count - 1) as nat);
        before.push(back(before, distance))
    }
}

/// What a stream unpacks to from bit `at` on, given what came out of it before:
/// the first `expected` bytes, or nothing when the stream runs out of them.
pub open spec fn unpacked_from(
    stream: Seq<bool>,
    at: int,
    params: Params,
    text: Seq<u8>,
    expected: nat,
) -> Option<Seq<u8>>
    decreases
            if text.len() < expected {
                expected - text.len()
            } else {
                0
            },
{
    let window = params.window();
    if text.len() >= expected {
        Some(text.take(expected as int))
    } else if at + 1 > stream.len() {
        None
    } else if stream[at] {
        if at + 9 > stream.len() {
            None
        } else {
            let literal = number(stream, at + 1, 8) as u8;
            unpacked_from(stream, at + 9, params, text.push(literal), expected)
        }
    } else if at + 1 + window + LOOKAHEAD > stream.len() {
        None
    } else {
        let distance = number(stream, at + 1, window) + 1;
        let count = number(stream, at + 1 + window, LOOKAHEAD as nat) + 1;
        proof {
            lemma_copied(text, distance, count);
        }
        unpacked_from(
            stream,
            at + 1 + window + LOOKAHEAD,
            params,
            copied(text, distance, count),
            expected,
        )
    }
}

/// What packed bytes unpack to.
pub open spec fn unpacked(data: Seq<u8>, params: Params, expected: nat) -> Option<Seq<u8>> {
    unpacked_from(bits(data), 0, params, seq![], expected)
}

pub proof fn lemma_copied(text: Seq<u8>, distance: nat, count: nat)
    ensures
        copied(text, distance, count).len() == text.len() + count,
        copied(text, distance, count).take(text.len() as int) == text,
    decreases count,
{
    if count > 0 {
        lemma_copied(text, distance, (count - 1) as nat);
        let before = copied(text, distance, (count - 1) as nat);
        assert(copied(text, distance, count).take(text.len() as int) =~= before.take(
            text.len() as int,
        ));
    } else {
        assert(text.take(text.len() as int) =~= text);
    }
}

proof fn lemma_number(stream: Seq<bool>, at: int, count: nat)
    ensures
        number(stream, at, count) < power(count),
    decreases count,
{
    if count > 0 {
        lemma_number(stream, at, (count - 1) as nat);
    }
}

/// A number depends on no bit but its own.
proof fn lemma_same_number(a: Seq<bool>, b: Seq<bool>, at: int, count: nat)
    requires
        forall|i: int| at <= i < at + count ==> a[i] == b[i],
    ensures
        number(a, at, count) == number(b, at, count),
    decreases count,
{
    if count > 0 {
        lemma_same_number(a, b, at, (count - 1) as nat);
    }
}

/// Reads a stream a bit at a time.
struct BitReader<'a> {
    data: &'a [u8],
    index: usize,
    bit: u8,
}

impl<'a> BitReader<'a> {
    spec fn valid(self) -> bool {
        &&& self.bit < 8
        &&& self.index <= self.data@.len()
        &&& self.index == self.data@.len() ==> self.bit == 0
    }

    spec fn at(self) -> int {
        8 * self.index + self.bit
    }

    /// The number the next `count` bits spell, unless the stream ends first.
    fn take(&mut self, count: u8) -> (value: Option<u16>)
        requires
            old(self).valid(),
            count <= 16,
        ensures
            final(self).valid(),
            final(self).data == old(self).data,
            value is Some == (old(self).at() + count <= bits(old(self).data@).len()),
            value is Some ==> {
                &&& value->0 == number(bits(old(self).data@), old(self).at(), count as nat)
                &&& final(self).at() == old(self).at() + count
            },
    {
        let ghost stream = bits(self.data@);
        let ghost start = self.at();
        let mut value: u16 = 0;
        let mut taken: u8 = 0;
        while taken < count
            invariant
                self.valid(),
                self.data == old(self).data,
                stream == bits(self.data@),
                start == old(self).at(),
                taken <= count <= 16,
                self.at() == start + taken,
                self.at() <= stream.len(),
                value == number(stream, start, taken as nat),
            decreases count - taken,
        {
            if self.index == self.data.len() {
                return None;
            }
            let byte = self.data[self.index];
            let bit = self.bit;
            let shift: u8 = 7 - bit;
            let set = (byte >> shift) & 1 == 1;
            proof {
                reveal_with_fuel(power, 17);
                lemma_number(stream, start, taken as nat);
                lemma_power_grows(taken as nat, 15);
                let at = start + taken;
                assert(at / 8 == self.index && at % 8 == bit);
                assert(stream[at] == set);
            }
            value = 2 * value + if set {
                1
            } else {
                0
            };
            taken = taken + 1;
            if bit == 7 {
                self.bit = 0;
                self.index = self.index + 1;
            } else {
                self.bit = bit + 1;
            }
        }
        Some(value)
    }
}

proof fn lemma_power_grows(a: nat, b: nat)
    requires
        a <= b,
    ensures
        power(a) <= power(b),
    decreases b,
{
    if a < b {
        lemma_power_grows(a, (b - 1) as nat);
    }
}

/// Unpacks exactly `expected` bytes, or nothing when the stream ends early.
pub fn decode(data: &[u8], params: Params, expected: usize) -> (text: Option<Vec<u8>>)
    ensures
        text is Some == unpacked(data@, params, expected as nat) is Some,
        text is Some ==> text->0@ == unpacked(data@, params, expected as nat)->0,
{
    let mut reader = BitReader { data, index: 0, bit: 0 };
    let mut out: Vec<u8> = Vec::new();
    let window = params.window_bits();
    let ghost stream = bits(data@);
    while out.len() < expected
        invariant
            reader.valid(),
            reader.data == data,
            stream == bits(data@),
            reader.at() <= stream.len(),
            window == params.window(),
            unpacked(data@, params, expected as nat) == unpacked_from(
                stream,
                reader.at(),
                params,
                out@,
                expected as nat,
            ),
        decreases
                if out.len() < expected {
                    expected - out.len()
                } else {
                    0
                },
    {
        let ghost before = out@;
        let ghost at = reader.at();
        let tag = reader.take(1);
        proof {
            reveal_with_fuel(number, 2);
        }
        match tag {
            None => {
                return None;
            },
            Some(1) => {
                match reader.take(8) {
                    None => {
                        return None;
                    },
                    Some(literal) => {
                        proof {
                            reveal_with_fuel(power, 9);
                            lemma_number(stream, at + 1, 8);
                        }
                        out.push(literal as u8);
                    },
                }
            },
            Some(_) => {
                let reference = reader.take(window);
                let distance = match reference {
                    None => {
                        return None;
                    },
                    Some(distance) => distance as usize + 1,
                };
                let run = reader.take(LOOKAHEAD);
                let count = match run {
                    None => {
                        return None;
                    },
                    Some(count) => count as usize + 1,
                };
                let mut copied_so_far: usize = 0;
                assert(copied(before, distance as nat, 0) == before);
                while copied_so_far < count
                    invariant
                        copied_so_far <= count,
                        distance >= 1,
                        out@ == copied(before, distance as nat, copied_so_far as nat),
                    decreases count - copied_so_far,
                {
                    let length = out.len();
                    let byte = if distance <= length {
                        out[length - distance]
                    } else {
                        0
                    };
                    out.push(byte);
                    copied_so_far = copied_so_far + 1;
                }
                proof {
                    lemma_copied(before, distance as nat, count as nat);
                }
            },
        }
    }
    out.truncate(expected);
    Some(out)
}

proof fn lemma_fresh_byte(k: u8)
    by (bit_vector)
    requires
        k < 8,
    ensures
        bit_of(0x80, k) == (k == 0),
        !bit_of(0, k),
{
}

proof fn lemma_marked_byte(byte: u8, used: u8, k: u8)
    by (bit_vector)
    requires
        used < 8,
        k < 8,
    ensures
        bit_of(byte | (1u8 << ((7 - used) as u8)), k) == (bit_of(byte, k) || k == used),
{
}

/// Lays a stream down a bit at a time.
struct BitWriter {
    bytes: Vec<u8>,
    /// Bits of the last byte that are in use, eight when it is full.
    used: u8,
}

impl BitWriter {
    spec fn valid(self) -> bool {
        &&& self.used <= 8
        &&& self.bytes@.len() == 0 ==> self.used == 8
        &&& self.bytes@.len() > 0 ==> self.used >= 1
        &&& forall|k: u8|
            self.bytes@.len() > 0 && self.used <= k < 8 ==> !#[trigger] bit_of(
                self.bytes@.last(),
                k,
            )
    }

    spec fn length(self) -> int {
        8 * self.bytes@.len() - (8 - self.used)
    }

    spec fn written(self) -> Seq<bool> {
        bits(self.bytes@).take(self.length())
    }

    fn new() -> (writer: Self)
        ensures
            writer.valid(),
            writer.written() == Seq::<bool>::empty(),
    {
        let writer = BitWriter { bytes: Vec::new(), used: 8 };
        assert(writer.written() =~= Seq::<bool>::empty());
        writer
    }

    fn push(&mut self, set: bool)
        requires
            old(self).valid(),
        ensures
            final(self).valid(),
            final(self).written() == old(self).written().push(set),
    {
        let ghost before = self.written();
        if self.used == 8 {
            let byte: u8 = if set {
                0x80
            } else {
                0
            };
            self.bytes.push(byte);
            self.used = 1;
            assert forall|k: u8| k < 8 implies #[trigger] bit_of(byte, k) == (set && k == 0) by {
                lemma_fresh_byte(k);
            }
            assert(bit_of(byte, 0) == set);
        } else {
            let last = self.bytes.len() - 1;
            let byte = self.bytes[last];
            let used = self.used;
            let shift: u8 = 7 - used;
            assert(byte == self.bytes@.last());
            assert(!bit_of(byte, used));
            let marked = if set {
                byte | (1u8 << shift)
            } else {
                byte
            };
            assert forall|k: u8| k < 8 implies #[trigger] bit_of(marked, k) == (bit_of(byte, k) || (
            set && k == used)) by {
                lemma_marked_byte(byte, used, k);
            }
            assert(bit_of(marked, used) == set);
            self.bytes.set(last, marked);
            self.used = used + 1;
        }
        proof {
            assert(forall|k: u8| self.used <= k < 8 ==> !#[trigger] bit_of(self.bytes@.last(), k));
            let after = self.written();
            assert(after.len() == before.len() + 1);
            assert forall|i: int| 0 <= i < before.len() implies after[i] == before[i] by {
                assert(i / 8 < self.bytes@.len());
            }
            let i = before.len() as int;
            assert(after[i] == set);
            assert(after =~= before.push(set));
        }
    }

    /// Lays down `value` in `count` bits.
    fn push_number(&mut self, value: u16, count: u8)
        requires
            old(self).valid(),
        ensures
            final(self).valid(),
            final(self).written() == old(self).written() + digits(value as nat, count as nat),
        decreases count,
    {
        let ghost before = self.written();
        if count > 0 {
            self.push_number(value / 2, count - 1);
            self.push(value % 2 == 1);
            assert(self.written() =~= before + digits(value as nat, count as nat));
        } else {
            assert(before + digits(value as nat, 0) =~= before);
        }
    }

    /// The stream as bytes, the last of them filled up with clear bits.
    fn finish(self) -> (bytes: Vec<u8>)
        requires
            self.valid(),
        ensures
            bytes@ == bytes_of(self.written()),
    {
        proof {
            let written = self.written();
            let made = bytes_of(written);
            assert(made.len() == self.bytes@.len());
            assert forall|i: int| 0 <= i < made.len() implies made[i] == self.bytes@[i] by {
                let stream = bits(self.bytes@);
                assert forall|j: int| 8 * i <= j < 8 * i + 8 implies padded(written)[j]
                    == stream[j] by {
                    if j >= written.len() {
                        assert(j / 8 == self.bytes@.len() - 1);
                        let k = (j % 8) as u8;
                        assert(self.used <= k < 8);
                        assert(!bit_of(self.bytes@.last(), k));
                    }
                }
                lemma_same_number(padded(written), stream, 8 * i, 8);
                lemma_byte_number(self.bytes@, i);
            }
            assert(made =~= self.bytes@);
        }
        self.bytes
    }
}

/// The bits `value` is laid down in, the high bit first.
pub open spec fn digits(value: nat, count: nat) -> Seq<bool>
    decreases count,
{
    if count == 0 {
        seq![]
    } else {
        digits(value / 2, (count - 1) as nat).push(value % 2 == 1)
    }
}

/// A stream filled up with clear bits to a whole number of bytes.
pub open spec fn padded(stream: Seq<bool>) -> Seq<bool> {
    Seq::new(
        (8 * ((stream.len() + 7) / 8)) as nat,
        |i: int| i < stream.len() && stream[i],
    )
}

/// The bytes a stream is stored as.
pub open spec fn bytes_of(stream: Seq<bool>) -> Seq<u8> {
    Seq::new(
        ((stream.len() + 7) / 8) as nat,
        |i: int| number(padded(stream), 8 * i, 8) as u8,
    )
}

/// The slot a pair of bytes is filed under.
pub open spec fn slot_of(first: u8, second: u8) -> int {
    (first * 16 + second) % (SLOTS as int)
}

/// How many bytes from `at` repeat what stands `distance` before them, counted
/// on from `count` and up to the longest run one reference can copy.
pub open spec fn run_of(data: Seq<u8>, at: int, distance: int, count: int) -> int
    decreases LONGEST - count,
{
    if count < LONGEST && at + count < data.len() && data[at + count] == data[at + count
        - distance] {
        run_of(data, at, distance, count + 1)
    } else {
        count
    }
}

/// The reference the encoder would open at `at`: how far back the pair of bytes
/// there was last seen, and how far the text repeats from there.
pub open spec fn reference(
    data: Seq<u8>,
    at: int,
    seen: Seq<usize>,
    params: Params,
) -> (int, int) {
    if data.len() - at >= SHORTEST {
        let last = seen[slot_of(data[at], data[at + 1])];
        let distance = at - last + 1;
        if 1 <= last <= at && distance <= power(params.window()) {
            (distance, run_of(data, at, distance, 0))
        } else {
            (0, 0)
        }
    } else {
        (0, 0)
    }
}

/// The table once the encoder has looked at `at`.
pub open spec fn filed(data: Seq<u8>, at: int, seen: Seq<usize>) -> Seq<usize> {
    if data.len() - at >= SHORTEST {
        seen.update(slot_of(data[at], data[at + 1]), (at + 1) as usize)
    } else {
        seen
    }
}

/// The bits the encoder lays down from `at` on.
pub open spec fn packed_from(
    data: Seq<u8>,
    at: int,
    seen: Seq<usize>,
    params: Params,
) -> Seq<bool>
    decreases
            if at < data.len() {
                data.len() - at
            } else {
                0
            },
{
    if at >= data.len() {
        seq![]
    } else {
        let (distance, count) = reference(data, at, seen, params);
        let after = filed(data, at, seen);
        if count >= SHORTEST {
            seq![false] + digits((distance - 1) as nat, params.window()) + digits(
                (count - 1) as nat,
                LOOKAHEAD as nat,
            ) + packed_from(data, at + count, after, params)
        } else {
            seq![true] + digits(data[at] as nat, 8) + packed_from(data, at + 1, after, params)
        }
    }
}

/// Bytes packed by the encoder.
pub open spec fn packed(data: Seq<u8>, params: Params) -> Seq<u8> {
    bytes_of(packed_from(data, 0, Seq::new(SLOTS as nat, |i: int| 0usize), params))
}

proof fn lemma_byte_bits(byte: u8)
    by (bit_vector)
    ensures
        byte == (if bit_of(byte, 0) { 128u8 } else { 0 }) + (if bit_of(byte, 1) { 64u8 } else { 0 })
            + (if bit_of(byte, 2) { 32u8 } else { 0 }) + (if bit_of(byte, 3) { 16u8 } else { 0 })
            + (if bit_of(byte, 4) { 8u8 } else { 0 }) + (if bit_of(byte, 5) { 4u8 } else { 0 })
            + (if bit_of(byte, 6) { 2u8 } else { 0 }) + (if bit_of(byte, 7) { 1u8 } else { 0 }),
{
}

/// The eight bits of a byte spell that byte.
proof fn lemma_byte_number(data: Seq<u8>, i: int)
    requires
        0 <= i < data.len(),
    ensures
        number(bits(data), 8 * i, 8) == data[i],
{
    let stream = bits(data);
    lemma_byte_bits(data[i]);
    assert forall|k: int| 0 <= k < 8 implies #[trigger] stream[8 * i + k] == bit_of(
        data[i],
        k as u8,
    ) by {
        assert((8 * i + k) / 8 == i && (8 * i + k) % 8 == k);
    }
    assert(stream[8 * i + 0] == bit_of(data[i], 0));
    assert(stream[8 * i + 1] == bit_of(data[i], 1));
    assert(stream[8 * i + 2] == bit_of(data[i], 2));
    assert(stream[8 * i + 3] == bit_of(data[i], 3));
    assert(stream[8 * i + 4] == bit_of(data[i], 4));
    assert(stream[8 * i + 5] == bit_of(data[i], 5));
    assert(stream[8 * i + 6] == bit_of(data[i], 6));
    assert(stream[8 * i + 7] == bit_of(data[i], 7));
    reveal_with_fuel(number, 9);
}

/// The bits of the bytes a stream is stored as are the stream's own, filled up.
proof fn lemma_bytes_bits(stream: Seq<bool>)
    ensures
        bits(bytes_of(stream)) == padded(stream),
{
    let data = bytes_of(stream);
    let full = padded(stream);
    assert forall|j: int| 0 <= j < full.len() implies bits(data)[j] == full[j] by {
        let i = j / 8;
        lemma_number(full, 8 * i, 8);
        reveal_with_fuel(power, 9);
        lemma_byte_number(data, i);
        lemma_equal_numbers(full, bits(data), 8 * i, 8, j);
    }
    assert(bits(data) =~= full);
}

/// Equal numbers have equal bits.
proof fn lemma_equal_numbers(a: Seq<bool>, b: Seq<bool>, at: int, count: nat, i: int)
    requires
        number(a, at, count) == number(b, at, count),
        at <= i < at + count,
    ensures
        a[i] == b[i],
    decreases count,
{
    if i < at + count - 1 {
        lemma_equal_numbers(a, b, at, (count - 1) as nat, i);
    }
}

/// Some bits stand at `at` in a stream.
spec fn holds(stream: Seq<bool>, at: int, part: Seq<bool>) -> bool {
    &&& 0 <= at
    &&& at + part.len() <= stream.len()
    &&& forall|i: int| 0 <= i < part.len() ==> #[trigger] part[i] == stream[at + i]
}

proof fn lemma_holds(stream: Seq<bool>, at: int, a: Seq<bool>, b: Seq<bool>)
    requires
        holds(stream, at, a + b),
    ensures
        holds(stream, at, a),
        holds(stream, at + a.len(), b),
{
    assert forall|i: int| 0 <= i < a.len() implies #[trigger] a[i] == stream[at + i] by {
        assert((a + b)[i] == a[i]);
    }
    assert forall|i: int| 0 <= i < b.len() implies #[trigger] b[i] == stream[at + a.len() + i] by {
        assert((a + b)[a.len() + i] == b[i]);
    }
}

/// The bits a number is laid down in spell it.
proof fn lemma_digits(stream: Seq<bool>, at: int, value: nat, count: nat)
    requires
        value < power(count),
        holds(stream, at, digits(value, count)),
    ensures
        digits(value, count).len() == count,
        number(stream, at, count) == value,
    decreases count,
{
    if count > 0 {
        let less = (count - 1) as nat;
        let part = digits(value / 2, less);
        assert(digits(value, count) =~= part + seq![value % 2 == 1]);
        lemma_holds(stream, at, part, seq![value % 2 == 1]);
        lemma_digits(stream, at, value / 2, less);
        assert(seq![value % 2 == 1][0] == stream[at + less]);
    }
}

proof fn lemma_run(data: Seq<u8>, at: int, distance: int, count: int)
    requires
        0 <= count <= LONGEST,
        1 <= distance <= at,
        at + count <= data.len(),
        forall|k: int|
            0 <= k < count ==> #[trigger] data[at + k] == data[at + k - distance],
    ensures
        count <= run_of(data, at, distance, count) <= LONGEST,
        at + run_of(data, at, distance, count) <= data.len(),
        forall|k: int|
            0 <= k < run_of(data, at, distance, count) ==> #[trigger] data[at + k] == data[at + k
                - distance],
    decreases LONGEST - count,
{
    if count < LONGEST && at + count < data.len() && data[at + count] == data[at + count
        - distance] {
        lemma_run(data, at, distance, count + 1);
    }
}

proof fn lemma_copies_itself(data: Seq<u8>, done: int, distance: nat, count: nat)
    requires
        0 <= done,
        done + count <= data.len(),
        1 <= distance <= done,
        forall|k: int|
            0 <= k < count ==> #[trigger] data[done + k] == data[done + k - distance],
    ensures
        copied(data.take(done), distance, count) == data.take(done + count),
    decreases count,
{
    if count > 0 {
        let less = (count - 1) as nat;
        lemma_copies_itself(data, done, distance, less);
        assert(data[done + less] == data[done + less - distance]);
        assert(data.take(done + less).push(data[done + less]) =~= data.take(done + count));
    }
}

/// Wherever the encoder's bits from `at` on stand in a stream, they unpack the
/// rest of the data.
proof fn lemma_unpacks(
    stream: Seq<bool>,
    from: int,
    data: Seq<u8>,
    at: int,
    seen: Seq<usize>,
    params: Params,
)
    requires
        0 <= at <= data.len(),
        holds(stream, from, packed_from(data, at, seen, params)),
    ensures
        unpacked_from(stream, from, params, data.take(at), data.len()) == Some(data),
    decreases data.len() - at,
{
    if at >= data.len() {
        assert(data.take(at).take(data.len() as int) =~= data);
    } else {
        let (distance, count) = reference(data, at, seen, params);
        let rest = filed(data, at, seen);
        if count >= SHORTEST {
            let window = params.window();
            let lookahead = LOOKAHEAD as nat;
            lemma_run(data, at, distance, 0);
            let aim = (distance - 1) as nat;
            let size = (count - 1) as nat;
            assert(size < power(lookahead)) by {
                reveal_with_fuel(power, 5);
            }
            let tail = packed_from(data, at + count, rest, params);
            let tag = seq![false];
            lemma_holds(stream, from, tag + digits(aim, window) + digits(size, lookahead), tail);
            lemma_holds(stream, from, tag + digits(aim, window), digits(size, lookahead));
            lemma_holds(stream, from, tag, digits(aim, window));
            assert(tag[0] == stream[from + 0]);
            lemma_digits(stream, from + 1, aim, window);
            lemma_digits(stream, from + 1 + window, size, lookahead);
            lemma_copies_itself(data, at, distance as nat, count as nat);
            lemma_unpacks(stream, from + 1 + window + lookahead, data, at + count, rest, params);
        } else {
            let tail = packed_from(data, at + 1, rest, params);
            let literal = digits(data[at] as nat, 8);
            let tag = seq![true];
            assert(data[at] < power(8)) by {
                reveal_with_fuel(power, 9);
            }
            lemma_holds(stream, from, tag + literal, tail);
            lemma_holds(stream, from, tag, literal);
            assert(tag[0] == stream[from + 0]);
            lemma_digits(stream, from + 1, data[at] as nat, 8);
            assert(data.take(at).push(data[at]) =~= data.take(at + 1));
            lemma_unpacks(stream, from + 9, data, at + 1, rest, params);
        }
    }
}

/// Whatever is packed unpacks to itself.
pub proof fn packing_is_undone_by_unpacking(data: Seq<u8>, params: Params)
    ensures
        unpacked(packed(data, params), params, data.len()) == Some(data),
{
    let seen = Seq::new(SLOTS as nat, |i: int| 0usize);
    let stream = packed_from(data, 0, seen, params);
    let full = padded(stream);
    lemma_bytes_bits(stream);
    lemma_unpacks(full, 0, data, 0, seen, params);
    assert(data.take(0) =~= seq![]);
}

/// How many bytes from `at` repeat what stands `distance` before them, up to
/// the longest run one reference can copy.
fn run_length(data: &[u8], at: usize, distance: usize) -> (count: usize)
    requires
        1 <= distance <= at <= data.len(),
    ensures
        count == run_of(data@, at as int, distance as int, 0),
        count <= LONGEST,
        at + count <= data.len(),
{
    let mut count: usize = 0;
    while count < LONGEST && count < data.len() - at && data[at + count] == data[at + count
        - distance]
        invariant
            1 <= distance <= at <= data.len(),
            count <= LONGEST,
            at + count <= data.len(),
            run_of(data@, at as int, distance as int, 0) == run_of(
                data@,
                at as int,
                distance as int,
                count as int,
            ),
        decreases LONGEST - count,
    {
        count = count + 1;
    }
    count
}

/// Packs bytes so that they unpack to themselves.
pub fn encode(data: &[u8], params: Params) -> (stored: Vec<u8>)
    ensures
        stored@ == packed(data@, params),
        unpacked(stored@, params, data@.len()) == Some(data@),
{
    let mut writer = BitWriter::new();
    // One past where each pair of bytes was last seen, zero for nowhere.
    let mut seen: Vec<usize> = vec![0; SLOTS];
    let window = params.window_bits();
    let reach = params.reach();
    let mut at: usize = 0;
    let ghost stream = packed_from(data@, 0, seen@, params);
    assert(seen@ =~= Seq::new(SLOTS as nat, |i: int| 0usize));
    assert(Seq::<bool>::empty() + stream =~= stream);
    while at < data.len()
        invariant
            writer.valid(),
            at <= data.len(),
            stream == writer.written() + packed_from(data@, at as int, seen@, params),
            window == params.window(),
            reach == power(params.window()),
            reach <= SLOTS,
            seen.len() == SLOTS,
        decreases data.len() - at,
    {
        let ghost before = writer.written();
        let ghost table = seen@;
        let mut distance: usize = 0;
        let mut count: usize = 0;
        if data.len() - at >= SHORTEST {
            let slot = (data[at] as usize * 16 + data[at + 1] as usize) % SLOTS;
            let last = seen[slot];
            if 1 <= last && last <= at && at - last < reach {
                distance = at - last + 1;
                count = run_length(data, at, distance);
            }
            seen.set(slot, at + 1);
        }
        assert(seen@ == filed(data@, at as int, table));
        if count >= SHORTEST {
            writer.push(false);
            writer.push_number((distance - 1) as u16, window);
            writer.push_number((count - 1) as u16, LOOKAHEAD);
            at = at + count;
        } else {
            writer.push(true);
            writer.push_number(data[at] as u16, 8);
            at = at + 1;
        }
        assert(stream =~= writer.written() + packed_from(data@, at as int, seen@, params));
    }
    assert(stream =~= writer.written());
    proof {
        packing_is_undone_by_unpacking(data@, params);
    }
    writer.finish()
}

} // verus!
