//! Single-precision arithmetic: each result is the number nearest to the exact one.
//!
//! The work is done in integers, on the bit patterns, so that every place on a page is
//! what the contracts say it is, to the last bit.
use crate::rounding::{
    gap, is_cut, is_nearest, law_every_value_has_a_nearest, law_nearest_is_one,
    law_rounding_crosses_no_number, lemma_between, lemma_compose, nearest, power, round_value,
    SCALE,
};
use crate::scalar::{
    lemma_infinity_unique, lemma_magnitude_increases, magnitude_units, Scalar, INFINITY_BITS,
};
use vstd::arithmetic::power2::{
    lemma2_to64, lemma2_to64_rest, lemma_pow2_adds, lemma_pow2_pos, lemma_pow2_strictly_increases,
    lemma_pow2_unfold, pow2,
};
use vstd::math::abs;
use vstd::prelude::*;

verus! {

/// The bit pattern that stands for what is no number.
pub const NAN_BITS: u32 = 0x7fc0_0000;

/// The number of units in one: two to the power 149.
pub open spec fn units_in_one() -> nat {
    pow2(149)
}

/// An integer without its sign.
pub open spec fn size(n: int) -> nat {
    if n < 0 {
        (-n) as nat
    } else {
        n as nat
    }
}

/// The number with this pattern, sign aside, and this sign.
pub open spec fn signed(magnitude: nat, negative: bool) -> Scalar {
    Scalar {
        bits: if negative {
            (magnitude + 0x8000_0000) as u32
        } else {
            magnitude as u32
        },
    }
}

impl Scalar {
    /// Whether this is one of the infinities.
    pub open spec fn infinite(self) -> bool {
        self.magnitude() == INFINITY_BITS
    }

    /// Whether this is one of the zeros.
    pub open spec fn zero(self) -> bool {
        self.magnitude() == 0
    }

    /// The same number with the other sign.
    pub open spec fn negated(self) -> Scalar {
        signed(self.magnitude(), !self.negative())
    }

    /// The sum: `self + other`. Opposite infinities have none, and a sum of zero is
    /// negative only where both sides are.
    pub open spec fn plus(self, other: Scalar) -> Scalar {
        if self.nan() || other.nan() {
            Scalar { bits: NAN_BITS }
        } else if self.infinite() && other.infinite() && self.negative() != other.negative() {
            Scalar { bits: NAN_BITS }
        } else if self.infinite() {
            self
        } else if other.infinite() {
            other
        } else {
            let n = self.units() + other.units();
            signed(
                nearest(size(n), 1),
                if n == 0 {
                    self.negative() && other.negative()
                } else {
                    n < 0
                },
            )
        }
    }

    /// The difference: `self - other`.
    pub open spec fn minus(self, other: Scalar) -> Scalar {
        self.plus(other.negated())
    }

    /// The product: `self * other`. Zero times infinity has none.
    pub open spec fn times(self, other: Scalar) -> Scalar {
        let negative = self.negative() != other.negative();
        if self.nan() || other.nan() || self.infinite() && other.zero() || self.zero()
            && other.infinite() {
            Scalar { bits: NAN_BITS }
        } else if self.infinite() || other.infinite() {
            signed(INFINITY_BITS as nat, negative)
        } else {
            signed(nearest(size(self.units() * other.units()), units_in_one()), negative)
        }
    }

    /// The quotient: `self / other`. Zero by zero and infinity by infinity have none; what
    /// else is divided by zero is infinite.
    pub open spec fn over(self, other: Scalar) -> Scalar {
        let negative = self.negative() != other.negative();
        if self.nan() || other.nan() || self.infinite() && other.infinite() || self.zero()
            && other.zero() {
            Scalar { bits: NAN_BITS }
        } else if self.infinite() || other.zero() {
            signed(INFINITY_BITS as nat, negative)
        } else if other.infinite() {
            signed(0, negative)
        } else {
            signed(
                nearest(size(self.units()) * units_in_one(), size(other.units())),
                negative,
            )
        }
    }

    /// The nearest whole number; halves go away from zero.
    pub open spec fn whole(self) -> Scalar {
        if self.nan() {
            Scalar { bits: NAN_BITS }
        } else if self.infinite() {
            self
        } else {
            let ones = (2 * size(self.units()) + units_in_one()) / (2 * units_in_one());
            signed(nearest(ones * units_in_one(), 1), self.negative())
        }
    }
}

/// The number with this pattern, sign aside, and this sign.
fn assemble(magnitude: u32, negative: bool) -> (r: Scalar)
    requires
        magnitude <= INFINITY_BITS,
    ensures
        r == signed(magnitude as nat, negative),
        r.magnitude() == magnitude,
        r.negative() == negative,
{
    if negative {
        Scalar { bits: magnitude + 0x8000_0000 }
    } else {
        Scalar { bits: magnitude }
    }
}

/// The significant bits of a finite number and the power of two that they count.
fn split(magnitude: u32) -> (r: (u64, u64))
    requires
        magnitude < INFINITY_BITS,
    ensures
        magnitude_units(magnitude as nat) == r.0 * pow2(r.1 as nat),
        r.0 < 0x100_0000,
        r.1 <= 253,
        r.1 > 0 ==> r.0 >= 0x80_0000,
        magnitude == r.1 * 0x80_0000 + r.0,
        r.0 == 0 <==> magnitude == 0,
{
    let exponent = magnitude / 0x80_0000;
    let fraction = magnitude % 0x80_0000;
    proof {
        lemma2_to64();
    }
    if exponent == 0 {
        assert(fraction * pow2(0) == fraction) by (nonlinear_arith)
            requires
                pow2(0) == 1,
        ;
        (fraction as u64, 0)
    } else {
        ((fraction + 0x80_0000) as u64, (exponent - 1) as u64)
    }
}

/// Nothing rounds to zero.
proof fn lemma_nearest_zero(d: nat)
    requires
        d > 0,
    ensures
        nearest(0, d) == 0,
{
    assert forall|k: nat| k <= INFINITY_BITS && k != 0 implies gap(0, d, 0) < #[trigger] gap(
        0,
        d,
        k,
    ) by {
        lemma_magnitude_increases(0, k);
        assert(magnitude_units(k) * d > 0) by (nonlinear_arith)
            requires
                magnitude_units(k) > 0,
                d > 0,
        ;
        assert(magnitude_units(0) * d == 0) by (nonlinear_arith)
            requires
                magnitude_units(0) == 0,
        ;
    }
    assert(is_nearest(0, d, 0));
    law_nearest_is_one(0, d, 0);
}

/// A number rounds to itself.
proof fn lemma_nearest_exact(m: nat)
    requires
        m <= INFINITY_BITS,
    ensures
        nearest(magnitude_units(m), 1) == m,
{
    let n = magnitude_units(m);
    assert forall|k: nat| k <= INFINITY_BITS && k != m implies gap(n, 1, m) < #[trigger] gap(
        n,
        1,
        k,
    ) by {
        if k < m {
            lemma_magnitude_increases(k, m);
        } else {
            lemma_magnitude_increases(m, k);
        }
    }
    assert(is_nearest(n, 1, m));
    law_nearest_is_one(n, 1, m);
}

/// Where two numbers are too far apart, the sum is the greater one.
proof fn lemma_absorbed(m: nat, sig: nat, e: nat, small: nat, up: bool)
    requires
        m < INFINITY_BITS,
        m == e * 0x80_0000 + sig,
        0x80_0000 <= sig < 0x100_0000,
        e >= 1,
        magnitude_units(m) == sig * pow2(e),
        4 * small < pow2((e - 1) as nat),
    ensures
        small < magnitude_units(m),
        up ==> nearest(magnitude_units(m) + small, 1) == m,
        !up ==> nearest((magnitude_units(m) - small) as nat, 1) == m,
{
    let w = pow2(e);
    let h = pow2((e - 1) as nat);
    let u = magnitude_units(m);
    lemma_pow2_unfold(e);
    lemma_pow2_pos((e - 1) as nat);
    assert(u >= w) by (nonlinear_arith)
        requires
            u == sig * w,
            sig >= 1,
    ;
    if up {
        lemma_compose(sig + 1, e);
        assert((sig + 1) * w == sig * w + w) by (nonlinear_arith);
        lemma_between(u + small, 1, m);
        law_nearest_is_one(u + small, 1, m);
    } else {
        let below = (m - 1) as nat;
        let n = (u - small) as nat;
        if sig > 0x80_0000 {
            lemma_compose((sig - 1) as nat, e);
            assert((sig - 1) * w == sig * w - w) by (nonlinear_arith);
            assert(magnitude_units(below) == u - w);
        } else {
            lemma_compose(0xff_ffff, (e - 1) as nat);
            assert(below == (e - 1) * 0x80_0000 + 0xff_ffff);
            assert(u == 0x80_0000 * w);
            assert(magnitude_units(below) == u - h);
        }
        lemma_between(n, 1, below);
        law_nearest_is_one(n, 1, m);
    }
}

/// The value of a whole number of units is cut exactly.
proof fn lemma_cut_exact(n: nat, sig: nat, e: nat)
    requires
        n == sig * pow2(e),
    ensures
        is_cut(n, 1, sig, e + SCALE as nat, false),
{
    let c = pow2(SCALE as nat);
    let a = pow2(e + SCALE as nat);
    lemma_pow2_adds(e, SCALE as nat);
    lemma_pow2_pos(e + SCALE as nat);
    assert(sig * (a * 1) == n * c) by (nonlinear_arith)
        requires
            n == sig * pow2(e),
            a == pow2(e) * c,
    ;
    assert((sig + 1) * (a * 1) == sig * (a * 1) + a) by (nonlinear_arith);
}

impl Scalar {
    fn is_negative(self) -> (r: bool)
        ensures
            r == self.negative(),
    {
        self.bits >= 0x8000_0000
    }

    fn pattern(self) -> (r: u32)
        ensures
            r == self.magnitude(),
    {
        self.bits % 0x8000_0000
    }

    /// The same number with the other sign.
    pub fn negate(self) -> (r: Scalar)
        ensures
            r == self.negated(),
    {
        if self.bits >= 0x8000_0000 {
            Scalar { bits: self.bits - 0x8000_0000 }
        } else {
            Scalar { bits: self.bits + 0x8000_0000 }
        }
    }

    /// The sum of a finite number and one that is no greater in size, by the powers of
    /// two that their bits count.
    fn sum_aligned(self, other: Scalar) -> (r: Scalar)
        requires
            self.magnitude() < INFINITY_BITS,
            other.magnitude() < INFINITY_BITS,
            self.magnitude() >= other.magnitude(),
        ensures
            r == self.plus(other),
    {
        let (sa, ea) = split(self.pattern());
        let (sb, eb) = split(other.pattern());
        let na = self.is_negative();
        let nb = other.is_negative();
        let ghost n = self.units() + other.units();
        assert(ea >= eb) by {
            if ea < eb {
                assert(ea * 0x80_0000 + sa < eb * 0x80_0000 + sb);
            }
        }
        let far = ea - eb;
        if far > 28 {
            proof {
                let small = magnitude_units(other.magnitude());
                lemma2_to64();
                lemma_pow2_adds(26, (ea - 27) as nat);
                if eb < ea - 29 {
                    lemma_pow2_strictly_increases(eb as nat, (ea - 29) as nat);
                }
                lemma_pow2_pos(eb as nat);
                lemma_pow2_adds(2, (ea - 29) as nat);
                assert(4 * small < pow2((ea - 1) as nat)) by (nonlinear_arith)
                    requires
                        small == sb * pow2(eb as nat),
                        sb < 0x100_0000,
                        pow2(eb as nat) <= pow2((ea - 29) as nat),
                        pow2(eb as nat) > 0,
                        pow2((ea - 1) as nat) == 0x400_0000 * pow2((ea - 27) as nat),
                        pow2((ea - 27) as nat) == 4 * pow2((ea - 29) as nat),
                ;
                lemma_absorbed(self.magnitude(), sa as nat, ea as nat, small, na == nb);
            }
            return self;
        }
        let w = power(far);
        proof {
            lemma2_to64();
            if far < 28 {
                lemma_pow2_strictly_increases(far as nat, 28);
            }
            assert(sa * w <= 0x100_0000 * 0x1000_0000) by (nonlinear_arith)
                requires
                    sa <= 0x100_0000,
                    w <= 0x1000_0000,
            ;
            lemma_pow2_adds(far as nat, eb as nat);
            assert(magnitude_units(self.magnitude()) == (sa * w) * pow2(eb as nat))
                by (nonlinear_arith)
                requires
                    magnitude_units(self.magnitude()) == sa * pow2(ea as nat),
                    pow2(ea as nat) == w * pow2(eb as nat),
            ;
        }
        let big: u128 = (sa as u128) * w;
        let small: u128 = sb as u128;
        let ghost v = pow2(eb as nat);
        proof {
            lemma_pow2_pos(eb as nat);
            lemma_magnitudes_order(self, other);
            assert(small <= big) by (nonlinear_arith)
                requires
                    small * v <= big * v,
                    v > 0,
            ;
        }
        let total: u128 = if na == nb {
            big + small
        } else {
            big - small
        };
        proof {
            assert((big + small) * v == big * v + small * v) by (nonlinear_arith);
            assert((big - small) * v == big * v - small * v) by (nonlinear_arith);
            assert(size(n) == total * v);
            assert(total == 0 <==> n == 0) by (nonlinear_arith)
                requires
                    size(n) == total * v,
                    v > 0,
                    size(n) == 0 <==> n == 0,
            ;
        }
        if total == 0 {
            proof {
                lemma_nearest_zero(1);
            }
            return assemble(0, na && nb);
        }
        proof {
            lemma_cut_exact(size(n), total as nat, eb as nat);
            lemma_pow2_adds(64, 36);
            lemma2_to64_rest();
        }
        let m = round_value(total, eb + SCALE, false, Ghost(size(n)), Ghost(1));
        proof {
            law_nearest_is_one(size(n), 1, m as nat);
        }
        assemble(m, na)
    }

    /// The sum; see `plus`.
    pub fn sum(self, other: Scalar) -> (r: Scalar)
        ensures
            r == self.plus(other),
    {
        let ma = self.pattern();
        let mb = other.pattern();
        if ma > INFINITY_BITS || mb > INFINITY_BITS {
            return Scalar { bits: NAN_BITS };
        }
        if ma == INFINITY_BITS {
            return if mb == INFINITY_BITS && self.is_negative() != other.is_negative() {
                Scalar { bits: NAN_BITS }
            } else {
                self
            };
        }
        if mb == INFINITY_BITS {
            return other;
        }
        if ma >= mb {
            self.sum_aligned(other)
        } else {
            other.sum_aligned(self)
        }
    }

    /// The difference; see `minus`.
    pub fn difference(self, other: Scalar) -> (r: Scalar)
        ensures
            r == self.minus(other),
    {
        self.sum(other.negate())
    }
}

impl Scalar {
    /// The product; see `times`.
    pub fn product(self, other: Scalar) -> (r: Scalar)
        ensures
            r == self.times(other),
    {
        let ma = self.pattern();
        let mb = other.pattern();
        let negative = self.is_negative() != other.is_negative();
        if ma > INFINITY_BITS || mb > INFINITY_BITS {
            return Scalar { bits: NAN_BITS };
        }
        if ma == INFINITY_BITS || mb == INFINITY_BITS {
            return if ma == 0 || mb == 0 {
                Scalar { bits: NAN_BITS }
            } else {
                assemble(INFINITY_BITS, negative)
            };
        }
        let (sa, ea) = split(ma);
        let (sb, eb) = split(mb);
        let ghost ua = magnitude_units(ma as nat);
        let ghost ub = magnitude_units(mb as nat);
        let ghost n = size(self.units() * other.units());
        let ghost d = units_in_one();
        proof {
            lemma_pow2_pos(149);
            lemma_size_of_product(self.units(), other.units());
            assert(n == ua * ub);
        }
        if sa == 0 || sb == 0 {
            proof {
                assert(n == 0) by (nonlinear_arith)
                    requires
                        n == ua * ub,
                        ua == sa * pow2(ea as nat),
                        ub == sb * pow2(eb as nat),
                        sa == 0 || sb == 0,
                ;
                lemma_nearest_zero(d);
            }
            return assemble(0, negative);
        }
        proof {
            assert(0 < sa * sb <= 0x100_0000 * 0x100_0000) by (nonlinear_arith)
                requires
                    0 < sa <= 0x100_0000,
                    0 < sb <= 0x100_0000,
            ;
        }
        let sig: u128 = (sa as u128) * (sb as u128);
        let x = ea + eb + SCALE - 149;
        proof {
            let c = pow2(SCALE as nat);
            let a = pow2(x as nat) * d;
            lemma_pow2_adds(64, 36);
            lemma2_to64();
            lemma2_to64_rest();
            lemma_pow2_adds(ea as nat, eb as nat);
            lemma_pow2_adds((ea + eb) as nat, SCALE as nat);
            lemma_pow2_adds(x as nat, 149);
            lemma_pow2_pos(x as nat);
            assert(a == pow2((ea + eb) as nat) * c);
            assert(sig * a == n * c) by (nonlinear_arith)
                requires
                    n == ua * ub,
                    ua == sa * pow2(ea as nat),
                    ub == sb * pow2(eb as nat),
                    sig == sa * sb,
                    a == pow2(ea as nat) * pow2(eb as nat) * c,
            ;
            assert(a > 0) by (nonlinear_arith)
                requires
                    a == pow2(x as nat) * d,
                    pow2(x as nat) > 0,
                    d > 0,
            ;
            assert((sig + 1) * a == sig * a + a) by (nonlinear_arith);
        }
        let m = round_value(sig, x, false, Ghost(n), Ghost(d));
        proof {
            law_nearest_is_one(n, d, m as nat);
        }
        assemble(m, negative)
    }

    /// The quotient; see `over`.
    pub fn quotient(self, other: Scalar) -> (r: Scalar)
        ensures
            r == self.over(other),
    {
        let ma = self.pattern();
        let mb = other.pattern();
        let negative = self.is_negative() != other.is_negative();
        if ma > INFINITY_BITS || mb > INFINITY_BITS || (ma == INFINITY_BITS && mb == INFINITY_BITS)
            || (ma == 0 && mb == 0) {
            return Scalar { bits: NAN_BITS };
        }
        if ma == INFINITY_BITS || mb == 0 {
            return assemble(INFINITY_BITS, negative);
        }
        if mb == INFINITY_BITS {
            return assemble(0, negative);
        }
        let (sa, ea) = split(ma);
        let (sb, eb) = split(mb);
        let ghost d = magnitude_units(mb as nat);
        let ghost n = magnitude_units(ma as nat) * units_in_one();
        proof {
            lemma_magnitude_increases(0, mb as nat);
        }
        if sa == 0 {
            proof {
                assert(n == 0) by (nonlinear_arith)
                    requires
                        n == magnitude_units(ma as nat) * units_in_one(),
                        magnitude_units(ma as nat) == sa * pow2(ea as nat),
                        sa == 0,
                ;
                lemma_nearest_zero(d);
            }
            return assemble(0, negative);
        }
        let shift = power(60);
        proof {
            lemma2_to64();
            lemma2_to64_rest();
            assert(shift == 0x1000_0000_0000_0000);
            assert(sa * shift <= 0x100_0000 * shift) by (nonlinear_arith)
                requires
                    sa <= 0x100_0000,
                    shift > 0,
            ;
            assert(shift <= sa * shift) by (nonlinear_arith)
                requires
                    sa >= 1,
                    shift > 0,
            ;
        }
        let top: u128 = (sa as u128) * shift;
        let bottom: u128 = sb as u128;
        let sig = top / bottom;
        let rem = top % bottom;
        let x = ea + 389 - eb;
        proof {
            vstd::arithmetic::div_mod::lemma_fundamental_div_mod(top as int, bottom as int);
            lemma_quotient_cut(
                sa as nat,
                ea as nat,
                sb as nat,
                eb as nat,
                sig as nat,
                rem as nat,
                n,
                d,
            );
            lemma_pow2_adds(64, 36);
            assert(sig >= 0x10_0000_0000) by (nonlinear_arith)
                requires
                    top == bottom * sig + rem,
                    rem < bottom,
                    bottom < 0x100_0000,
                    top >= 0x1000_0000_0000_0000,
            ;
            assert(sig <= top) by (nonlinear_arith)
                requires
                    top == bottom * sig + rem,
                    bottom >= 1,
                    rem >= 0,
            ;
        }
        let m = round_value(sig, x, rem != 0, Ghost(n), Ghost(d));
        proof {
            law_nearest_is_one(n, d, m as nat);
        }
        assemble(m, negative)
    }

    /// The nearest whole number; see `whole`.
    pub fn round(self) -> (r: Scalar)
        ensures
            r == self.whole(),
    {
        let m = self.pattern();
        let negative = self.is_negative();
        if m > INFINITY_BITS {
            return Scalar { bits: NAN_BITS };
        }
        if m == INFINITY_BITS {
            return self;
        }
        let (sig, e) = split(m);
        let ghost one = units_in_one();
        let ghost u = magnitude_units(m as nat);
        let ghost ones = (2 * u + one) / (2 * one);
        proof {
            lemma_pow2_pos(149);
            lemma2_to64();
        }
        if e >= 149 {
            proof {
                let k = sig * pow2((e - 149) as nat);
                lemma_pow2_adds((e - 149) as nat, 149);
                assert(u == k * one) by (nonlinear_arith)
                    requires
                        u == sig * pow2(e as nat),
                        pow2(e as nat) == pow2((e - 149) as nat) * one,
                        k == sig * pow2((e - 149) as nat),
                ;
                assert((2 * k - 1) * one == 2 * (k * one) - one) by (nonlinear_arith);
                assert((2 * k + 1) * one == 2 * (k * one) + one) by (nonlinear_arith);
                lemma_whole_part(u as int, one as int, k as int);
                lemma_nearest_exact(m as nat);
            }
            return assemble(m, negative);
        }
        let t = 149 - e;
        if t > 30 {
            proof {
                lemma_pow2_adds(t as nat, e as nat);
                lemma_pow2_adds(25, (t - 25) as nat);
                lemma_pow2_pos((t - 25) as nat);
                lemma_pow2_pos(e as nat);
                assert(2 * u < one) by (nonlinear_arith)
                    requires
                        u == sig * pow2(e as nat),
                        one == pow2(t as nat) * pow2(e as nat),
                        pow2(t as nat) == 0x200_0000 * pow2((t - 25) as nat),
                        pow2((t - 25) as nat) > 0,
                        pow2(e as nat) > 0,
                        sig < 0x100_0000,
                {
                    assert(2 * sig < pow2(t as nat));
                    assert(2 * sig * pow2(e as nat) < pow2(t as nat) * pow2(e as nat));
                }
                assert((2 * 0 - 1) * one == -one && (2 * 0 + 1) * one == one) by (nonlinear_arith);
                lemma_whole_part(u as int, one as int, 0);
                assert(ones == 0);
                assert(ones * one == 0) by (nonlinear_arith)
                    requires
                        ones == 0,
                ;
                lemma_nearest_zero(1);
            }
            return assemble(0, negative);
        }
        let w = power(t);
        let h = power(t - 1);
        proof {
            lemma_pow2_pos(t as nat);
            lemma_pow2_unfold(t as nat);
            if t < 32 {
                lemma_pow2_strictly_increases(t as nat, 32);
            }
        }
        let k: u128 = (sig as u128 + h) / w;
        proof {
            vstd::arithmetic::div_mod::lemma_fundamental_div_mod(sig + h, w as int);
            let rest = (sig + h) % (w as int);
            assert(w * k == k * w) by (nonlinear_arith);
            lemma_pow2_adds(t as nat, e as nat);
            lemma_pow2_pos(e as nat);
            let v = pow2(e as nat) as int;
            lemma_whole_scaled(sig as int, h as int, w as int, v, k as int, rest);
            lemma_whole_part(u as int, one as int, k as int);
            assert(k <= sig + h) by (nonlinear_arith)
                requires
                    k * w <= sig + h,
                    w >= 1,
                    k >= 0,
            ;
        }
        if k == 0 {
            proof {
                assert(ones == 0);
                assert(ones * one == 0) by (nonlinear_arith)
                    requires
                        ones == 0,
                ;
                lemma_nearest_zero(1);
            }
            return assemble(0, negative);
        }
        proof {
            lemma_cut_exact(k as nat * one, k as nat, 149);
            lemma_pow2_adds(64, 36);
            lemma2_to64_rest();
        }
        let rounded = round_value(k, 149 + SCALE, false, Ghost(k as nat * one), Ghost(1));
        proof {
            law_nearest_is_one(k as nat * one, 1, rounded as nat);
        }
        assemble(rounded, negative)
    }
}

/// The size of a product is the product of the sizes.
proof fn lemma_size_of_product(a: int, b: int)
    ensures
        size(a * b) == size(a) * size(b),
{
    assert(size(a * b) == size(a) * size(b)) by (nonlinear_arith)
        requires
            size(a) == (if a < 0 {
                -a
            } else {
                a
            }),
            size(b) == (if b < 0 {
                -b
            } else {
                b
            }),
            size(a * b) == (if a * b < 0 {
                -(a * b)
            } else {
                a * b
            }),
    ;
}

/// A quotient of leading bits is a cut of the quotient.
proof fn lemma_quotient_cut(
    sa: nat,
    ea: nat,
    sb: nat,
    eb: nat,
    sig: nat,
    rem: nat,
    n: nat,
    d: nat,
)
    requires
        n == sa * pow2(ea) * units_in_one(),
        d == sb * pow2(eb),
        sb > 0,
        eb <= ea + 389,
        sa * pow2(60) == sb * sig + rem,
        rem < sb,
    ensures
        is_cut(n, d, sig, (ea + 389 - eb) as nat, rem != 0),
{
    let x = (ea + 389 - eb) as nat;
    let c = pow2(SCALE as nat);
    let k = pow2(ea + 389);
    let a = pow2(x) * d;
    let t = pow2(60);
    lemma_pow2_pos(ea + 389);
    lemma_pow2_pos(eb);
    lemma_pow2_adds(x, eb);
    lemma_pow2_adds(ea, 449);
    lemma_pow2_adds(149, SCALE as nat);
    lemma_pow2_adds(ea + 389, 60);
    assert(a == sb * k) by (nonlinear_arith)
        requires
            a == pow2(x) * d,
            d == sb * pow2(eb),
            k == pow2(x) * pow2(eb),
    ;
    assert(n * c == sa * t * k) by (nonlinear_arith)
        requires
            n == sa * pow2(ea) * pow2(149),
            pow2(449) == pow2(149) * c,
            pow2(ea + 449) == pow2(ea) * pow2(449),
            pow2(ea + 449) == k * t,
    {
        assert(n * c == sa * (pow2(ea) * (pow2(149) * c)));
    }
    assert(sa * t * k == sig * a + rem * k) by (nonlinear_arith)
        requires
            sa * t == sb * sig + rem,
            a == sb * k,
    ;
    assert((sig + 1) * a == sig * a + sb * k) by (nonlinear_arith)
        requires
            a == sb * k,
    ;
    assert(rem * k < sb * k) by (nonlinear_arith)
        requires
            rem < sb,
            k > 0,
    ;
    assert(rem > 0 ==> rem * k > 0) by (nonlinear_arith)
        requires
            k > 0,
    ;
    assert(rem == 0 ==> rem * k == 0);
    assert(d > 0) by (nonlinear_arith)
        requires
            d == sb * pow2(eb),
            sb > 0,
            pow2(eb) > 0,
    ;
}

/// What rounding to ones comes to, from where the value lies.
proof fn lemma_whole_part(u: int, one: int, k: int)
    requires
        one > 0,
        (2 * k - 1) * one <= 2 * u < (2 * k + 1) * one,
    ensures
        (2 * u + one) / (2 * one) == k,
{
    let rest = 2 * u + one - k * (2 * one);
    assert(0 <= rest < 2 * one && 2 * u + one == k * (2 * one) + rest) by (nonlinear_arith)
        requires
            rest == 2 * u + one - k * (2 * one),
            (2 * k - 1) * one <= 2 * u < (2 * k + 1) * one,
    ;
    vstd::arithmetic::div_mod::lemma_fundamental_div_mod_converse(2 * u + one, 2 * one, k, rest);
}

/// Rounding leading bits is rounding the value.
proof fn lemma_whole_scaled(sig: int, h: int, w: int, v: int, k: int, rest: int)
    requires
        w == 2 * h,
        v > 0,
        sig + h == k * w + rest,
        0 <= rest < w,
    ensures
        (2 * k - 1) * (w * v) <= 2 * (sig * v) < (2 * k + 1) * (w * v),
{
    assert((2 * k - 1) * w <= 2 * sig < (2 * k + 1) * w) by (nonlinear_arith)
        requires
            w == 2 * h,
            sig + h == k * w + rest,
            0 <= rest < w,
    ;
    assert((2 * k - 1) * (w * v) <= 2 * (sig * v) < (2 * k + 1) * (w * v)) by (nonlinear_arith)
        requires
            (2 * k - 1) * w <= 2 * sig < (2 * k + 1) * w,
            v > 0,
    ;
}

/// The greater pattern has at least as many units.
proof fn lemma_magnitudes_order(a: Scalar, b: Scalar)
    requires
        a.magnitude() >= b.magnitude(),
    ensures
        magnitude_units(a.magnitude()) >= magnitude_units(b.magnitude()),
{
    if a.magnitude() > b.magnitude() {
        lemma_magnitude_increases(b.magnitude(), a.magnitude());
    }
}

/// A sum of finite numbers crosses no number: where the exact sum is not below `c`, the
/// sum is not, and where it is not above `c`, the sum is not.
pub proof fn law_sums_cross_no_number(a: Scalar, b: Scalar, c: Scalar)
    requires
        a.magnitude() < INFINITY_BITS,
        b.magnitude() < INFINITY_BITS,
        !c.nan(),
    ensures
        c.units() <= a.units() + b.units() ==> c.not_above(a.plus(b)),
        a.units() + b.units() <= c.units() ==> a.plus(b).not_above(c),
{
    let n = a.units() + b.units();
    let m = nearest(size(n), 1);
    law_every_value_has_a_nearest(size(n), 1);
    law_rounding_crosses_no_number(size(n), 1, c.magnitude());
    law_rounding_crosses_no_number(size(n), 1, 0);
    let r = a.plus(b);
    assert(r.magnitude() == m);
    if m < c.magnitude() {
        lemma_magnitude_increases(m, c.magnitude());
    } else if c.magnitude() < m {
        lemma_magnitude_increases(c.magnitude(), m);
    }
    if n == 0 {
        lemma_nearest_zero(1);
    }
    if n < 0 {
        assert(r.negative());
    } else if n > 0 {
        assert(!r.negative());
    }
}

/// The number that follows `a`, where `a` is finite.
spec fn next_up(a: Scalar) -> Scalar {
    if a.magnitude() == 0 {
        Scalar { bits: 1 }
    } else if a.negative() {
        signed((a.magnitude() - 1) as nat, true)
    } else {
        signed(a.magnitude() + 1, false)
    }
}

/// Up to 2 to the power 24, numbers follow each other at a distance of at most 2.
proof fn lemma_next_up_is_close(a: Scalar)
    requires
        a.magnitude() < 0x4b80_0000,
    ensures
        !next_up(a).nan(),
        a.units() < next_up(a).units() <= a.units() + 2 * units_in_one(),
{
    lemma_pow2_pos(149);
    let m = a.magnitude();
    if m == 0 {
        lemma_magnitude_increases(0, 1);
        assert(magnitude_units(1) == 1);
        assert(magnitude_units(0) == 0);
    } else if a.negative() {
        lemma_step((m - 1) as nat);
    } else {
        lemma_step(m);
    }
}

/// The distance from one number to the next.
proof fn lemma_step(m: nat)
    requires
        m < 0x4b80_0000,
    ensures
        magnitude_units(m) < magnitude_units(m + 1) <= magnitude_units(m) + 2 * units_in_one(),
{
    lemma_magnitude_increases(m, m + 1);
    let exponent = m / 0x80_0000;
    let fraction = m % 0x80_0000;
    let p: nat = if exponent == 0 {
        0
    } else {
        (exponent - 1) as nat
    };
    let q: nat = if exponent == 0 {
        fraction
    } else {
        0x80_0000 + fraction
    };
    lemma_compose(q, p);
    lemma_compose(q + 1, p);
    assert(m == p * 0x80_0000 + q);
    assert((q + 1) * pow2(p) == q * pow2(p) + pow2(p)) by (nonlinear_arith);
    if p < 149 {
        lemma_pow2_strictly_increases(p, 149);
    }
    lemma_pow2_pos(149);
    assert(p <= 149);
}

/// Changing the sign changes the sign alone.
proof fn lemma_negated(a: Scalar)
    ensures
        a.negated().magnitude() == a.magnitude(),
        a.negated().negative() == !a.negative(),
        a.negated().units() == -a.units(),
{
}

/// Adding 2 moves a number up.
#[verifier::spinoff_prover]
proof fn lemma_two_moves_up(t: Scalar)
    requires
        t.magnitude() < 0x4b80_0000,
    ensures
        t.below(t.plus(Scalar { bits: 0x4000_0000 })),
{
    let two = Scalar { bits: 0x4000_0000 };
    let next = next_up(t);
    lemma_two();
    lemma_next_up_is_close(t);
    assert(two.magnitude() == 0x4000_0000);
    law_sums_cross_no_number(t, two, next);
    assert(next.not_above(t.plus(two)));
}

/// Subtracting 2 moves a number down.
#[verifier::spinoff_prover]
proof fn lemma_two_moves_down(a: Scalar)
    requires
        a.magnitude() < 0x4b80_0000,
    ensures
        a.minus(Scalar { bits: 0x4000_0000 }).below(a),
{
    let two = Scalar { bits: 0x4000_0000 };
    let low = a.negated();
    let next = next_up(low);
    lemma_two();
    lemma_negated(a);
    lemma_negated(two);
    lemma_negated(next);
    lemma_next_up_is_close(low);
    assert(two.magnitude() == 0x4000_0000);
    law_sums_cross_no_number(a, two.negated(), next.negated());
    assert(a.plus(two.negated()).not_above(next.negated()));
}

/// Adding what is not below 0 takes nothing off, and 2 is felt by every number up to the
/// size of 2 to the power 24: `a < (a + w) + 2` and `a - 2 < a + w`.
pub proof fn law_two_is_felt(a: Scalar, w: Scalar)
    requires
        a.magnitude() < 0x4b80_0000,
        !w.nan(),
        w.units() >= 0,
    ensures
        a.below(a.plus(w).plus(Scalar { bits: 0x4000_0000 })),
        a.minus(Scalar { bits: 0x4000_0000 }).below(a.plus(w)),
{
    let two = Scalar { bits: 0x4000_0000 };
    let t = a.plus(w);
    lemma_two_moves_down(a);
    if w.infinite() {
        lemma_magnitude_increases(0, INFINITY_BITS as nat);
        assert(t == Scalar { bits: INFINITY_BITS });
        lemma_infinity_unique(a);
    } else {
        law_sums_cross_no_number(a, w, a);
        if t.magnitude() < 0x4b80_0000 {
            lemma_two_moves_up(t);
        } else {
            lemma_magnitude_increases(a.magnitude(), t.magnitude());
            if !t.infinite() {
                lemma_two();
                law_sums_cross_no_number(t, two, t);
            }
        }
    }
}

/// Taking a number from one that is not below it leaves what is not below 0.
pub proof fn law_differences_keep_the_order(a: Scalar, b: Scalar)
    requires
        a.magnitude() < INFINITY_BITS,
        b.magnitude() < INFINITY_BITS,
        b.not_above(a),
    ensures
        !a.minus(b).nan(),
        a.minus(b).units() >= 0,
{
    lemma_negated(b);
    law_sums_cross_no_number(a, b.negated(), Scalar { bits: 0 });
}

/// Multiplying what is not below 0 by a positive number gives what is not below 0.
pub proof fn law_products_keep_the_sign(a: Scalar, s: Scalar)
    requires
        !a.nan(),
        a.units() >= 0,
        s.magnitude() < INFINITY_BITS,
        s.units() > 0,
    ensures
        !a.times(s).nan(),
        a.times(s).units() >= 0,
{
    let n = size(a.units() * s.units());
    let r = a.times(s);
    lemma_pow2_pos(149);
    law_every_value_has_a_nearest(n, units_in_one());
    assert(!s.negative() && !s.zero());
    if a.zero() {
        assert(n == 0) by (nonlinear_arith)
            requires
                n == size(a.units() * s.units()),
                a.units() == 0,
        ;
        lemma_nearest_zero(units_in_one());
        assert(r.magnitude() == 0);
    } else {
        lemma_magnitude_increases(0, a.magnitude());
        assert(!a.negative());
        assert(!r.negative());
    }
}

/// No positive number is so large that dividing 1, or more, by it gives 0.
pub proof fn law_quotients_do_not_vanish(a: Scalar, b: Scalar)
    requires
        a.magnitude() < INFINITY_BITS,
        b.magnitude() < INFINITY_BITS,
        a.units() >= units_in_one(),
        b.units() > 0,
    ensures
        !a.over(b).nan(),
        a.over(b).units() > 0,
{
    let one = units_in_one();
    let n = (size(a.units()) * one) as nat;
    let d = size(b.units());
    lemma_pow2_pos(149);
    lemma_pow2_adds(149, 149);
    lemma2_to64();
    lemma_pow2_adds(23, 254);
    lemma_pow2_strictly_increases(277, 298);
    lemma_magnitude_increases(b.magnitude(), INFINITY_BITS as nat);
    assert(one * one <= n) by (nonlinear_arith)
        requires
            n == size(a.units()) * one,
            one <= size(a.units()),
    ;
    assert(magnitude_units(INFINITY_BITS as nat) == pow2(277));
    assert(magnitude_units(1) * d == d) by (nonlinear_arith)
        requires
            magnitude_units(1) == 1,
    ;
    law_every_value_has_a_nearest(n, d);
    law_rounding_crosses_no_number(n, d, 1);
    lemma_magnitude_increases(0, nearest(n, d));
}

/// 1 holds the units in one.
pub(crate) proof fn lemma_one()
    ensures
        magnitude_units(0x3f80_0000) == units_in_one(),
{
    lemma2_to64();
    lemma_pow2_adds(23, 126);
}

proof fn lemma_two()
    ensures
        (Scalar { bits: 0x4000_0000 }).units() == 2 * units_in_one(),
        (Scalar { bits: 0x4000_0000 }).negated().units() == -2 * units_in_one(),
{
    lemma_compose(0x80_0000, 127);
    lemma2_to64();
    lemma_pow2_adds(23, 127);
    lemma_pow2_unfold(150);
    assert(0x4000_0000 == 127 * 0x80_0000 + 0x80_0000);
}

/// No number is nearer to the exact sum of two numbers than their sum is; where another one
/// is as near, the pattern of the sum is even.
pub proof fn law_sums_are_nearest(a: Scalar, b: Scalar, c: Scalar)
    requires
        a.magnitude() < INFINITY_BITS,
        b.magnitude() < INFINITY_BITS,
        !c.nan(),
    ensures
        ({
            let exact = a.units() + b.units();
            let r = a.plus(b);
            &&& !r.nan()
            &&& abs(r.units() - exact) <= abs(c.units() - exact)
            &&& abs(r.units() - exact) == abs(c.units() - exact) && c.units() != r.units()
                ==> r.bits % 2 == 0
        }),
{
    let exact = a.units() + b.units();
    let n = size(exact);
    let r = a.plus(b);
    law_every_value_has_a_nearest(n, 1);
    if exact == 0 {
        lemma_nearest_zero(1);
    }
    assert(gap(n, 1, c.magnitude()) <= abs(c.units() - exact));
    assert(gap(n, 1, r.magnitude()) == abs(r.units() - exact));
    assert(r.bits % 2 == r.magnitude() % 2);
}

/// No number is nearer to the exact product of two numbers than their product is.
pub proof fn law_products_are_nearest(a: Scalar, b: Scalar, c: Scalar)
    requires
        a.magnitude() < INFINITY_BITS,
        b.magnitude() < INFINITY_BITS,
        !c.nan(),
    ensures
        ({
            let exact = a.units() * b.units();
            let r = a.times(b);
            &&& !r.nan()
            &&& abs(r.units() * units_in_one() - exact) <= abs(c.units() * units_in_one() - exact)
        }),
{
    let exact = a.units() * b.units();
    let n = size(exact);
    let one = units_in_one();
    let r = a.times(b);
    lemma_pow2_pos(149);
    law_every_value_has_a_nearest(n, one);
    lemma_sign_of_product(a, b);
    if exact == 0 {
        lemma_nearest_zero(one);
    }
    lemma_gap_to(exact, one, c);
    lemma_gap_to(exact, one, r);
    assert(gap(n, one, r.magnitude()) <= gap(n, one, c.magnitude()));
}

/// The distance of a number from a value is at least the gap, and is the gap where the
/// two lie on one side of 0.
proof fn lemma_gap_to(exact: int, d: nat, c: Scalar)
    requires
        d > 0,
    ensures
        gap(size(exact), d, c.magnitude()) <= abs(c.units() * d - exact),
        c.units() == 0 || c.negative() && exact <= 0 || !c.negative() && exact >= 0 ==> gap(
            size(exact),
            d,
            c.magnitude(),
        ) == abs(c.units() * d - exact),
{
    let u = magnitude_units(c.magnitude());
    assert(u * d >= 0 && (-u) * d == -(u * d)) by (nonlinear_arith)
        requires
            u >= 0,
            d > 0,
    ;
}

proof fn lemma_sign_of_product(a: Scalar, b: Scalar)
    ensures
        a.negative() == b.negative() ==> a.units() * b.units() >= 0,
        a.negative() != b.negative() ==> a.units() * b.units() <= 0,
{
    let x = a.units();
    let y = b.units();
    assert((x >= 0 && y >= 0 || x <= 0 && y <= 0) ==> x * y >= 0) by (nonlinear_arith);
    assert((x >= 0 && y <= 0 || x <= 0 && y >= 0) ==> x * y <= 0) by (nonlinear_arith);
}

/// No number is nearer to the exact quotient of two numbers than their quotient is. The
/// distances are taken times the divisor.
pub proof fn law_quotients_are_nearest(a: Scalar, b: Scalar, c: Scalar)
    requires
        a.magnitude() < INFINITY_BITS,
        b.magnitude() < INFINITY_BITS,
        b.units() != 0,
        !c.nan(),
    ensures
        ({
            let exact = a.units() * units_in_one();
            let r = a.over(b);
            &&& !r.nan()
            &&& abs(r.units() * b.units() - exact) <= abs(c.units() * b.units() - exact)
        }),
{
    let one = units_in_one();
    let exact = a.units() * one;
    let n = (size(a.units()) * one) as nat;
    let d = size(b.units());
    let r = a.over(b);
    lemma_pow2_pos(149);
    law_every_value_has_a_nearest(n, d);
    assert(n == size(exact) && (a.units() >= 0 ==> exact >= 0) && (a.units() <= 0 ==> exact <= 0))
        by (nonlinear_arith)
        requires
            exact == a.units() * one,
            n == size(a.units()) * one,
            one > 0,
    ;
    if exact == 0 {
        lemma_nearest_zero(d);
    }
    // Dividing by a negative number is dividing its negative by a positive one.
    let value = if b.units() < 0 {
        -exact
    } else {
        exact
    };
    assert(size(value) == n);
    lemma_gap_to(value, d, c);
    lemma_gap_to(value, d, r);
    assert(gap(n, d, r.magnitude()) <= gap(n, d, c.magnitude()));
    lemma_divisor_sign(c.units(), b.units(), exact);
    lemma_divisor_sign(r.units(), b.units(), exact);
}

proof fn lemma_divisor_sign(x: int, b: int, exact: int)
    ensures
        b >= 0 ==> abs(x * size(b) - exact) == abs(x * b - exact),
        b < 0 ==> abs(x * size(b) + exact) == abs(x * b - exact),
{
    assert(x * (-b) == -(x * b)) by (nonlinear_arith);
}

/// Rounding to a whole number takes the nearest one, and of two that are as near the one
/// further from 0: where `2k - 1 <= 2|a| < 2k + 1`, no number is nearer to `k` than the
/// rounded one, sign aside, and the sign stays.
pub proof fn law_whole_is_the_nearest_whole(a: Scalar, k: nat, c: Scalar)
    requires
        a.magnitude() < INFINITY_BITS,
        (2 * k - 1) * units_in_one() <= 2 * abs(a.units()) < (2 * k + 1) * units_in_one(),
        !c.nan(),
    ensures
        ({
            let exact = k * units_in_one();
            let r = a.whole();
            &&& !r.nan()
            &&& r.negative() == a.negative()
            &&& abs(abs(r.units()) - exact) <= abs(abs(c.units()) - exact)
        }),
{
    let one = units_in_one();
    let u = size(a.units());
    lemma_pow2_pos(149);
    let ones = (2 * u + one) / (2 * one);
    assert(ones == k) by (nonlinear_arith)
        requires
            one > 0,
            (2 * k - 1) * one <= 2 * u < (2 * k + 1) * one,
            ones == (2 * u + one) / (2 * one),
    ;
    law_every_value_has_a_nearest(k * one, 1);
    assert(gap(k * one, 1, a.whole().magnitude()) <= gap(k * one, 1, c.magnitude()));
}

/// Changing the sign changes nothing else, and taking a number away is adding it with the
/// other sign.
pub proof fn law_negation_changes_the_sign(a: Scalar, b: Scalar)
    ensures
        a.negated().bits != a.bits,
        a.negated().bits % 0x8000_0000 == a.bits % 0x8000_0000,
        a.negated().units() == -a.units(),
        a.negated().nan() == a.nan(),
        b.minus(a) == b.plus(a.negated()),
{
}

} // verus!
