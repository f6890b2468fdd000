//! Floating-point values by their bit pattern.
//!
//! The arithmetic on measurements happens outside this library; what a rule
//! here needs of a value is which of two comes first and whether it is a number
//! at all, and both can be read off the bits of an IEEE 754 double.

use vstd::arithmetic::power2::*;
use vstd::prelude::*;

verus! {

/// A double, by its bits.
#[derive(Clone, Copy, Debug, PartialEq, Eq, Structural)]
pub struct Double {
    pub bits: u64,
}

/// The bit that carries the sign.
pub const SIGN: u64 = 0x8000_0000_0000_0000;

/// The magnitude of an infinity; anything above it is not a number.
pub const INFINITE: u64 = 0x7ff0_0000_0000_0000;

impl Double {
    pub open spec fn negative(self) -> bool {
        self.bits >= SIGN
    }

    /// The bits without the sign, which order doubles of one sign.
    pub open spec fn magnitude(self) -> int {
        if self.negative() {
            self.bits - SIGN
        } else {
            self.bits as int
        }
    }

    pub open spec fn number(self) -> bool {
        self.magnitude() <= INFINITE
    }

    pub open spec fn finite(self) -> bool {
        self.magnitude() < INFINITE
    }

    /// Where the value stands among all numbers. The two zeros share a place.
    pub open spec fn place(self) -> int {
        if self.negative() {
            -self.magnitude()
        } else {
            self.magnitude()
        }
    }

    /// `self < other`, as doubles compare: nothing is below or above what is not
    /// a number.
    pub open spec fn below(self, other: Self) -> bool {
        self.number() && other.number() && self.place() < other.place()
    }

    /// `self == other`, as doubles compare.
    pub open spec fn same(self, other: Self) -> bool {
        self.number() && other.number() && self.place() == other.place()
    }

    /// The smaller of two values; where one is not a number, the other.
    pub open spec fn lesser(self, other: Self) -> Self {
        if !self.number() || other.below(self) {
            other
        } else {
            self
        }
    }

    /// The greater of two values; where one is not a number, the other.
    pub open spec fn greater(self, other: Self) -> Self {
        if !self.number() || self.below(other) {
            other
        } else {
            self
        }
    }

    /// Where the value stands among all doubles, those that are not numbers and
    /// the two zeros apart as well.
    pub open spec fn rank(self) -> int {
        if self.negative() {
            -self.magnitude() - 1
        } else {
            self.magnitude()
        }
    }

    /// Whether the value comes before another among all doubles, as
    /// the standard library's total order has it.
    pub fn precedes(self, other: Self) -> (before: bool)
        ensures
            before == (self.rank() < other.rank()),
    {
        match (self.is_negative(), other.is_negative()) {
            (false, false) => self.size() < other.size(),
            (true, true) => other.size() < self.size(),
            (true, false) => true,
            (false, true) => false,
        }
    }

    pub fn from_bits(bits: u64) -> (value: Self)
        ensures
            value.bits == bits,
    {
        Double { bits }
    }

    pub fn to_bits(self) -> (bits: u64)
        ensures
            bits == self.bits,
    {
        self.bits
    }

    /// Positive zero.
    pub fn zero() -> (value: Self)
        ensures
            value.bits == 0,
            value.place() == 0,
            value.finite(),
    {
        Double { bits: 0 }
    }

    pub fn is_negative(self) -> (negative: bool)
        ensures
            negative == self.negative(),
    {
        self.bits >= SIGN
    }

    fn size(self) -> (magnitude: u64)
        ensures
            magnitude == self.magnitude(),
            magnitude < SIGN,
    {
        if self.bits >= SIGN {
            self.bits - SIGN
        } else {
            self.bits
        }
    }

    pub fn is_number(self) -> (number: bool)
        ensures
            number == self.number(),
    {
        self.size() <= INFINITE
    }

    pub fn is_finite(self) -> (finite: bool)
        ensures
            finite == self.finite(),
    {
        self.size() < INFINITE
    }

    pub fn is_below(self, other: Self) -> (below: bool)
        ensures
            below == self.below(other),
    {
        if !self.is_number() || !other.is_number() {
            return false;
        }
        match (self.is_negative(), other.is_negative()) {
            (false, false) => self.size() < other.size(),
            (true, true) => other.size() < self.size(),
            (true, false) => self.size() > 0 || other.size() > 0,
            (false, true) => false,
        }
    }

    pub fn is_same(self, other: Self) -> (same: bool)
        ensures
            same == self.same(other),
    {
        self.is_number() && other.is_number() && self.size() == other.size() && (self.size() == 0
            || self.is_negative() == other.is_negative())
    }

    pub fn min(self, other: Self) -> (least: Self)
        ensures
            least == self.lesser(other),
    {
        if !self.is_number() || other.is_below(self) {
            other
        } else {
            self
        }
    }

    pub fn max(self, other: Self) -> (most: Self)
        ensures
            most == self.greater(other),
    {
        if !self.is_number() || self.is_below(other) {
            other
        } else {
            self
        }
    }

    /// Whether the value is a length the nozzle can be driven by: finite and
    /// above zero.
    pub fn is_a_height(self) -> (height: bool)
        ensures
            height == self.height(),
    {
        self.is_finite() && !self.is_negative() && self.size() > 0
    }

    /// A length the nozzle can be driven by: finite and above zero.
    pub open spec fn height(self) -> bool {
        self.finite() && self.place() > 0
    }
}

/// Of any two numbers one is below the other or they are the same.
pub proof fn numbers_are_ordered(a: Double, b: Double)
    requires
        a.number(),
        b.number(),
    ensures
        a.below(b) || a.same(b) || b.below(a),
        !(a.below(b) && b.below(a)),
        !(a.below(b) && a.same(b)),
{
}

/// What is below something that is below a third is below the third.
pub proof fn below_is_transitive(a: Double, b: Double, c: Double)
    requires
        a.below(b),
        b.below(c),
    ensures
        a.below(c),
{
}

/// The eleven bits of the exponent.
pub open spec fn exponent(bits: u64) -> nat {
    bits as nat / 0x10_0000_0000_0000 % 2048
}

/// The fifty-two bits of the fraction.
pub open spec fn fraction(bits: u64) -> nat {
    bits as nat % 0x10_0000_0000_0000
}

/// What a double is worth, in units of the smallest one above zero. An infinity
/// counts as the value its bits would have were there one more exponent.
pub open spec fn worth(bits: u64) -> int {
    let size = if exponent(bits) == 0 {
        fraction(bits)
    } else {
        (0x10_0000_0000_0000 + fraction(bits)) * pow2((exponent(bits) - 1) as nat)
    };
    if bits as nat / 0x8000_0000_0000_0000 == 1 {
        -size
    } else {
        size as int
    }
}

/// The bits stand for no number: all of the exponent is set, and some of the
/// fraction.
pub open spec fn no_number(bits: u64) -> bool {
    exponent(bits) == 2047 && fraction(bits) != 0
}

/// What some bits without a sign are worth.
spec fn size_of(bits: int) -> int {
    let e = bits / 0x10_0000_0000_0000;
    let f = bits % 0x10_0000_0000_0000;
    if e == 0 {
        f
    } else {
        (0x10_0000_0000_0000 + f) * pow2((e - 1) as nat)
    }
}

/// More is worth more.
proof fn lemma_size(a: int, b: int)
    requires
        0 <= a < b,
    ensures
        0 <= size_of(a) < size_of(b),
{
    let unit = 0x10_0000_0000_0000int;
    let (ea, fa) = (a / unit, a % unit);
    let (eb, fb) = (b / unit, b % unit);
    assert(a == ea * unit + fa && b == eb * unit + fb);
    assert(0 <= fa < unit && 0 <= fb < unit);
    assert(ea <= eb);
    if ea > 0 {
        lemma_pow2_pos((ea - 1) as nat);
        assert(0 <= (unit + fa) * pow2((ea - 1) as nat)) by (nonlinear_arith)
            requires
                unit > 0,
                fa >= 0,
                pow2((ea - 1) as nat) > 0,
        ;
    }
    if eb > 0 {
        let high = pow2((eb - 1) as nat) as int;
        lemma_pow2_pos((eb - 1) as nat);
        if ea == eb {
            assert((unit + fa) * high < (unit + fb) * high) by (nonlinear_arith)
                requires
                    fa < fb,
                    high > 0,
            ;
        } else if ea == 0 {
            assert(unit <= (unit + fb) * high) by (nonlinear_arith)
                requires
                    unit > 0,
                    fb >= 0,
                    high >= 1,
            ;
        } else {
            let low = pow2((ea - 1) as nat) as int;
            lemma_pow2_unfold(ea as nat);
            assert(pow2(ea as nat) == 2 * low);
            if ea < eb - 1 {
                lemma_pow2_strictly_increases(ea as nat, (eb - 1) as nat);
            }
            assert(2 * low <= high);
            assert((unit + fa) * low < (unit + fb) * high) by (nonlinear_arith)
                requires
                    unit > 0,
                    0 <= fa < unit,
                    0 <= fb,
                    0 < low,
                    2 * low <= high,
            ;
        }
    }
}

proof fn lemma_worth(a: Double)
    ensures
        0 <= a.magnitude() < 0x8000_0000_0000_0000,
        worth(a.bits) == if a.negative() {
            -size_of(a.magnitude())
        } else {
            size_of(a.magnitude())
        },
        a.number() == !no_number(a.bits),
        a.finite() == (exponent(a.bits) != 2047),
        size_of(0) == 0,
        a.magnitude() > 0 ==> size_of(a.magnitude()) > 0,
{
    let bits = a.bits as int;
    let m = a.magnitude();
    assert(m / 0x10_0000_0000_0000 == exponent(a.bits));
    assert(m % 0x10_0000_0000_0000 == fraction(a.bits));
    if m > 0 {
        lemma_size(0, m);
    }
}

/// Doubles compare as the numbers they stand for, and what stands for none
/// compares with nothing.
pub proof fn doubles_compare_as_what_they_are_worth(a: Double, b: Double)
    ensures
        a.number() == !no_number(a.bits),
        a.finite() == (exponent(a.bits) != 2047),
        a.height() == (exponent(a.bits) != 2047 && worth(a.bits) > 0),
        a.below(b) == (!no_number(a.bits) && !no_number(b.bits) && worth(a.bits) < worth(b.bits)),
        a.same(b) == (!no_number(a.bits) && !no_number(b.bits) && worth(a.bits) == worth(b.bits)),
{
    lemma_worth(a);
    lemma_worth(b);
    let (x, y) = (a.magnitude(), b.magnitude());
    if x < y {
        lemma_size(x, y);
    } else if y < x {
        lemma_size(y, x);
    }
}

/// The lesser and the greater of two are each one of them, with nothing of the
/// two beyond it; where one is no number it is the other, and of two alike it is
/// the first.
pub proof fn the_lesser_and_the_greater_are_of_the_two(a: Double, b: Double)
    ensures
        no_number(a.bits) ==> a.lesser(b) == b && a.greater(b) == b,
        no_number(b.bits) && !no_number(a.bits) ==> a.lesser(b) == a && a.greater(b) == a,
        !no_number(a.bits) && !no_number(b.bits) ==> {
            &&& worth(a.bits) <= worth(b.bits) ==> a.lesser(b) == a
            &&& worth(a.bits) > worth(b.bits) ==> a.lesser(b) == b
            &&& worth(a.bits) >= worth(b.bits) ==> a.greater(b) == a
            &&& worth(a.bits) < worth(b.bits) ==> a.greater(b) == b
        },
{
    doubles_compare_as_what_they_are_worth(a, b);
    doubles_compare_as_what_they_are_worth(b, a);
}

/// A finite number is below an infinity above zero.
pub proof fn a_finite_double_is_below_infinity(a: Double, b: Double)
    requires
        exponent(a.bits) != 2047,
        b.bits == 0x7ff0_0000_0000_0000,
    ensures
        worth(a.bits) < worth(b.bits),
        !no_number(b.bits),
{
    doubles_compare_as_what_they_are_worth(a, b);
    lemma_worth(a);
    lemma_worth(b);
}

/// Among all doubles the numbers stand in order of what they are worth, negative
/// zero just before zero, what is no number beyond every number on the side of
/// its sign, and no two in one place.
pub proof fn every_double_has_its_place(a: Double, b: Double)
    ensures
        !no_number(a.bits) && !no_number(b.bits) && worth(a.bits) < worth(b.bits) ==> a.rank()
            < b.rank(),
        (Double { bits: 0x8000_0000_0000_0000 }).rank() + 1 == (Double { bits: 0 }).rank(),
        no_number(a.bits) && !no_number(b.bits) ==> (a.rank() < b.rank()) == (a.bits
            >= 0x8000_0000_0000_0000),
        a.rank() == b.rank() ==> a == b,
{
    doubles_compare_as_what_they_are_worth(a, b);
    lemma_worth(a);
    lemma_worth(b);
}

} // verus!
