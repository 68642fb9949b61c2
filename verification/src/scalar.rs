//! Single-precision numbers, held by their bit patterns and compared exactly.
use vstd::arithmetic::power2::{
    lemma_pow2_pos, lemma_pow2_strictly_increases, lemma_pow2_unfold, pow2,
};
use vstd::prelude::*;

verus! {

/// An IEEE 754 binary32 number, held by its bit pattern: a sign bit, eight exponent bits
/// and 23 fraction bits, from the top down.
///
/// `==` compares bit patterns. Numeric comparison is `less_than` and `at_most`.
#[derive(Debug, Clone, Copy, PartialEq, Eq, Structural)]
pub struct Scalar {
    pub bits: u32,
}

/// The bit pattern of positive infinity.
pub const INFINITY_BITS: u32 = 0x7f80_0000;

/// The bit pattern of negative infinity.
pub const NEG_INFINITY_BITS: u32 = 0xff80_0000;

/// The number with exponent-and-fraction bits `m`, sign aside, counted in units of the
/// least positive number (two to the power -149). For the pattern of infinity this is
/// two to the power 277, which is more than any finite number has.
pub open spec fn magnitude_units(m: nat) -> nat {
    let exponent = m / 0x80_0000;
    let fraction = m % 0x80_0000;
    if exponent == 0 {
        fraction
    } else {
        (0x80_0000 + fraction) * pow2((exponent - 1) as nat)
    }
}

impl Scalar {
    /// The pattern without its sign bit.
    pub open spec fn magnitude(self) -> nat {
        (self.bits % 0x8000_0000) as nat
    }

    /// Whether the sign bit is set.
    pub open spec fn negative(self) -> bool {
        self.bits >= 0x8000_0000
    }

    /// Whether the pattern stands for no number.
    pub open spec fn nan(self) -> bool {
        self.magnitude() > INFINITY_BITS
    }

    /// The number that the pattern stands for, in units of two to the power -149.
    pub open spec fn units(self) -> int {
        if self.negative() {
            -magnitude_units(self.magnitude())
        } else {
            magnitude_units(self.magnitude()) as int
        }
    }

    /// Numeric `<`: false wherever one side is no number.
    pub open spec fn below(self, other: Scalar) -> bool {
        !self.nan() && !other.nan() && self.units() < other.units()
    }

    /// Numeric `<=`: false wherever one side is no number.
    pub open spec fn not_above(self, other: Scalar) -> bool {
        !self.nan() && !other.nan() && self.units() <= other.units()
    }

    /// The sign and magnitude as one integer, which orders as the numbers do.
    pub open spec fn key(self) -> int {
        if self.negative() {
            -self.magnitude()
        } else {
            self.magnitude() as int
        }
    }

    /// Positive infinity.
    pub fn infinity() -> (r: Scalar)
        ensures
            r.bits == INFINITY_BITS,
    {
        Scalar { bits: INFINITY_BITS }
    }

    /// Negative infinity.
    pub fn neg_infinity() -> (r: Scalar)
        ensures
            r.bits == NEG_INFINITY_BITS,
    {
        Scalar { bits: NEG_INFINITY_BITS }
    }

    /// Whether this is no number.
    pub fn is_nan(self) -> (r: bool)
        ensures
            r == self.nan(),
    {
        self.bits % 0x8000_0000 > INFINITY_BITS
    }

    fn order_key(self) -> (r: i64)
        ensures
            r == self.key(),
    {
        let magnitude: i64 = (self.bits % 0x8000_0000) as i64;
        if self.bits >= 0x8000_0000 {
            -magnitude
        } else {
            magnitude
        }
    }

    /// Numeric `<`.
    pub fn less_than(self, other: Scalar) -> (r: bool)
        ensures
            r == self.below(other),
    {
        proof {
            law_patterns_order_as_numbers(self, other);
        }
        !self.is_nan() && !other.is_nan() && self.order_key() < other.order_key()
    }

    /// Numeric `<=`.
    pub fn at_most(self, other: Scalar) -> (r: bool)
        ensures
            r == self.not_above(other),
    {
        proof {
            law_patterns_order_as_numbers(other, self);
        }
        !self.is_nan() && !other.is_nan() && self.order_key() <= other.order_key()
    }

    /// The lesser of two numbers. What is no number loses to what is one, and of two
    /// equal numbers `self` is kept.
    pub open spec fn lesser(self, other: Scalar) -> Scalar {
        if self.nan() || other.below(self) {
            other
        } else {
            self
        }
    }

    /// The greater of two numbers, with the same preferences as the lesser.
    pub open spec fn greater(self, other: Scalar) -> Scalar {
        if self.nan() || self.below(other) {
            other
        } else {
            self
        }
    }

    /// The lesser of two numbers; see `lesser`.
    pub fn min(self, other: Scalar) -> (r: Scalar)
        ensures
            r == self.lesser(other),
    {
        if self.is_nan() || other.less_than(self) {
            other
        } else {
            self
        }
    }

    /// The greater of two numbers; see `greater`.
    pub fn max(self, other: Scalar) -> (r: Scalar)
        ensures
            r == self.greater(other),
    {
        if self.is_nan() || self.less_than(other) {
            other
        } else {
            self
        }
    }
}

/// Among patterns without their signs, the greater pattern is the greater number.
pub(crate) proof fn lemma_magnitude_increases(a: nat, b: nat)
    requires
        a < b,
    ensures
        magnitude_units(a) < magnitude_units(b),
{
    let ea = a / 0x80_0000;
    let eb = b / 0x80_0000;
    let fa = a % 0x80_0000;
    let fb = b % 0x80_0000;
    assert(ea <= eb);
    if eb == 0 {
    } else if ea == 0 {
        lemma_pow2_pos((eb - 1) as nat);
        let p = pow2((eb - 1) as nat);
        assert((0x80_0000 + fb) * p >= 0x80_0000) by (nonlinear_arith)
            requires
                p >= 1,
                fb >= 0,
        ;
    } else if ea == eb {
        lemma_pow2_pos((ea - 1) as nat);
        let p = pow2((ea - 1) as nat);
        assert((0x80_0000 + fa) * p < (0x80_0000 + fb) * p) by (nonlinear_arith)
            requires
                p >= 1,
                fa < fb,
        ;
    } else {
        lemma_pow2_pos((ea - 1) as nat);
        lemma_pow2_unfold(ea);
        if ea < eb - 1 {
            lemma_pow2_strictly_increases(ea, (eb - 1) as nat);
        }
        let p = pow2((ea - 1) as nat);
        let q = pow2((eb - 1) as nat);
        assert(q >= 2 * p);
        assert((0x80_0000 + fa) * p < (0x80_0000 + fb) * q) by (nonlinear_arith)
            requires
                p >= 1,
                q >= 2 * p,
                0 <= fa < 0x80_0000,
                fb >= 0,
        ;
    }
}

/// The patterns order as the numbers do, once each is read as a sign and a magnitude.
pub proof fn law_patterns_order_as_numbers(a: Scalar, b: Scalar)
    ensures
        a.key() < b.key() <==> a.units() < b.units(),
{
    let ma = a.magnitude();
    let mb = b.magnitude();
    if ma < mb {
        lemma_magnitude_increases(ma, mb);
    } else if mb < ma {
        lemma_magnitude_increases(mb, ma);
    }
    if ma > 0 {
        lemma_magnitude_increases(0, ma);
    }
    if mb > 0 {
        lemma_magnitude_increases(0, mb);
    }
}

/// Each infinity has one pattern.
pub(crate) proof fn lemma_infinity_unique(a: Scalar)
    requires
        !a.nan(),
    ensures
        !a.below(Scalar { bits: INFINITY_BITS }) ==> a.bits == INFINITY_BITS,
        !(Scalar { bits: NEG_INFINITY_BITS }).below(a) ==> a.bits == NEG_INFINITY_BITS,
{
    law_patterns_order_as_numbers(a, Scalar { bits: INFINITY_BITS });
    law_patterns_order_as_numbers(Scalar { bits: NEG_INFINITY_BITS }, a);
}

/// Numeric comparison orders the numbers linearly: it is transitive, of two numbers
/// exactly one relation holds, and what is no number stands in no relation.
pub proof fn law_order(a: Scalar, b: Scalar, c: Scalar)
    ensures
        a.below(b) && b.below(c) ==> a.below(c),
        a.not_above(b) && b.not_above(c) ==> a.not_above(c),
        !a.nan() && !b.nan() ==> (a.not_above(b) <==> !b.below(a)),
        !a.nan() && !b.nan() && !a.below(b) && !b.below(a) ==> a.units() == b.units(),
        a.nan() ==> !a.below(b) && !b.below(a) && !a.not_above(b) && !b.not_above(a),
{
}

/// Every number lies between the two infinities.
pub proof fn law_infinities_bound(a: Scalar)
    requires
        !a.nan(),
    ensures
        a.not_above(Scalar { bits: INFINITY_BITS }),
        (Scalar { bits: NEG_INFINITY_BITS }).not_above(a),
{
    let inf = Scalar { bits: INFINITY_BITS };
    let neg = Scalar { bits: NEG_INFINITY_BITS };
    law_patterns_order_as_numbers(inf, a);
    law_patterns_order_as_numbers(a, neg);
}

/// A pattern is read as IEEE 754 has it: from the top a sign bit, eight exponent bits and 23
/// fraction bits. With an exponent of 0 the fraction counts the units; with a greater one
/// it has a leading 1 before it and counts twice as much for each step; and the greatest
/// exponent leaves the infinity and what is no number.
pub proof fn law_patterns_stand_for_numbers(a: Scalar)
    ensures
        ({
            let exponent = a.bits as int / 0x80_0000 % 256;
            let fraction = a.bits as int % 0x80_0000;
            let count = if exponent == 0 {
                fraction
            } else {
                (0x80_0000 + fraction) * pow2((exponent - 1) as nat)
            };
            &&& a.nan() <==> exponent == 255 && fraction != 0
            &&& a.bits < 0x8000_0000 ==> a.units() == count
            &&& a.bits >= 0x8000_0000 ==> a.units() == -count
        }),
{
    let bits = a.bits as int;
    let m = bits % 0x8000_0000;
    assert(m / 0x80_0000 == bits / 0x80_0000 % 256 && m % 0x80_0000 == bits % 0x80_0000);
}

/// Numbers compare by what they stand for, and what is no number compares with nothing.
pub proof fn law_numbers_compare_by_value(a: Scalar, b: Scalar)
    ensures
        !a.nan() && !b.nan() ==> (a.below(b) <==> a.units() < b.units()),
        !a.nan() && !b.nan() ==> (a.not_above(b) <==> a.units() <= b.units()),
        a.nan() || b.nan() ==> !a.below(b) && !a.not_above(b),
{
}

/// The lesser and the greater of two are one of the two each, and of two numbers they
/// bound both. What is no number gives way, and of equals the first is taken.
pub proof fn law_lesser_and_greater_bound_both(a: Scalar, b: Scalar)
    ensures
        a.lesser(b) == a || a.lesser(b) == b,
        a.greater(b) == a || a.greater(b) == b,
        !a.nan() && !b.nan() ==> {
            &&& a.lesser(b).units() <= a.units() <= a.greater(b).units()
            &&& a.lesser(b).units() <= b.units() <= a.greater(b).units()
        },
        a.nan() ==> a.lesser(b) == b && a.greater(b) == b,
        !a.nan() && b.nan() ==> a.lesser(b) == a && a.greater(b) == a,
        !a.nan() && !b.nan() && a.units() == b.units() ==> a.lesser(b) == a && a.greater(b) == a,
{
}

} // verus!
