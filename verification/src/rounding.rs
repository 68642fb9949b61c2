//! Rounding exact values to single-precision numbers.
use crate::scalar::{lemma_magnitude_increases, magnitude_units, INFINITY_BITS};
use vstd::arithmetic::power2::{
    lemma2_to64, lemma_pow2_adds, lemma_pow2_pos, lemma_pow2_strictly_increases, lemma_pow2_unfold,
    pow2,
};
use vstd::bits::{lemma_u64_pow2_no_overflow, lemma_u64_shl_is_mul};
use vstd::prelude::*;

verus! {

/// How far the number with pattern `m` is from the value `n / d`, in units, times `d`.
/// Infinity counts as the number that would follow the greatest finite one.
pub open spec fn gap(n: nat, d: nat, m: nat) -> int {
    if magnitude_units(m) * d >= n {
        magnitude_units(m) * d - n
    } else {
        n - magnitude_units(m) * d
    }
}

/// Whether `m` is the pattern of the number nearest to the value `n / d`, in units; of
/// two that are equally near, the even pattern is the one.
pub open spec fn is_nearest(n: nat, d: nat, m: nat) -> bool {
    &&& m <= INFINITY_BITS
    &&& forall|k: nat|
        k <= INFINITY_BITS && k != m ==> {
            ||| gap(n, d, m) < #[trigger] gap(n, d, k)
            ||| gap(n, d, m) == gap(n, d, k) && m % 2 == 0
        }
}

/// The pattern of the number nearest to the value `n / d`, in units.
pub open spec fn nearest(n: nat, d: nat) -> nat {
    choose|m: nat| is_nearest(n, d, m)
}

/// A value has one nearest number.
pub proof fn law_nearest_is_one(n: nat, d: nat, m: nat)
    requires
        d > 0,
        is_nearest(n, d, m),
    ensures
        nearest(n, d) == m,
{
    let k = nearest(n, d);
    assert(is_nearest(n, d, k));
    if m < k {
        lemma_two_nearest_clash(n, d, m, k);
    } else if k < m {
        lemma_two_nearest_clash(n, d, k, m);
    }
}

proof fn lemma_two_nearest_clash(n: nat, d: nat, a: nat, b: nat)
    requires
        d > 0,
        a < b,
        is_nearest(n, d, a),
    ensures
        !is_nearest(n, d, b),
{
    if is_nearest(n, d, b) {
        assert(gap(n, d, a) == gap(n, d, b));
        assert(a % 2 == 0 && b % 2 == 0);
        let c = a + 1;
        lemma_magnitude_increases(a, c);
        lemma_magnitude_increases(c, b);
        lemma_scaled_increases(magnitude_units(a), magnitude_units(c), d);
        lemma_scaled_increases(magnitude_units(c), magnitude_units(b), d);
        assert(gap(n, d, a) <= gap(n, d, c));
    }
}

proof fn lemma_scaled_increases(a: nat, b: nat, d: nat)
    requires
        a < b,
        d > 0,
    ensures
        a * d < b * d,
{
    assert(a * d < b * d) by (nonlinear_arith)
        requires
            a < b,
            d > 0,
    ;
}

/// Which of two neighbours is nearest to a value between them.
pub(crate) proof fn lemma_between(n: nat, d: nat, lo: nat)
    requires
        d > 0,
        lo + 1 <= INFINITY_BITS,
        magnitude_units(lo) * d <= n <= magnitude_units(lo + 1) * d,
    ensures
        2 * n < magnitude_units(lo) * d + magnitude_units(lo + 1) * d ==> is_nearest(n, d, lo),
        2 * n > magnitude_units(lo) * d + magnitude_units(lo + 1) * d ==> is_nearest(n, d, lo + 1),
        2 * n == magnitude_units(lo) * d + magnitude_units(lo + 1) * d ==> is_nearest(
            n,
            d,
            if lo % 2 == 0 {
                lo
            } else {
                lo + 1
            },
        ),
{
    let u = magnitude_units(lo) * d;
    let v = magnitude_units(lo + 1) * d;
    lemma_magnitude_increases(lo, lo + 1);
    lemma_scaled_increases(magnitude_units(lo), magnitude_units(lo + 1), d);
    assert forall|k: nat| k < lo implies #[trigger] gap(n, d, k) > n - u by {
        lemma_magnitude_increases(k, lo);
        lemma_scaled_increases(magnitude_units(k), magnitude_units(lo), d);
    }
    assert forall|k: nat| lo + 1 < k <= INFINITY_BITS implies #[trigger] gap(n, d, k) > v - n by {
        lemma_magnitude_increases(lo + 1, k);
        lemma_scaled_increases(magnitude_units(lo + 1), magnitude_units(k), d);
    }
    assert(gap(n, d, lo) == n - u);
    assert(gap(n, d, lo + 1) == v - n);
}

/// Values from where infinity would stand on go to infinity.
proof fn lemma_overflow(n: nat, d: nat)
    requires
        d > 0,
        n >= magnitude_units(INFINITY_BITS as nat) * d,
    ensures
        is_nearest(n, d, INFINITY_BITS as nat),
{
    let top = INFINITY_BITS as nat;
    assert forall|k: nat| k <= INFINITY_BITS && k != top implies gap(n, d, top) < #[trigger] gap(
        n,
        d,
        k,
    ) by {
        lemma_magnitude_increases(k, top);
        lemma_scaled_increases(magnitude_units(k), magnitude_units(top), d);
    }
}

/// The last pattern, up to `top`, whose number is not above the value `n / d`.
proof fn lemma_floor(n: nat, d: nat, top: nat) -> (lo: nat)
    requires
        d > 0,
    ensures
        lo <= top,
        magnitude_units(lo) * d <= n,
        lo < top ==> n < magnitude_units(lo + 1) * d,
    decreases top,
{
    if magnitude_units(top) * d <= n {
        top
    } else if top == 0 {
        assert(magnitude_units(0) * d == 0) by (nonlinear_arith)
            requires
                magnitude_units(0) == 0,
        ;
        0
    } else {
        lemma_floor(n, d, (top - 1) as nat)
    }
}

/// Every value has a nearest number.
pub proof fn law_every_value_has_a_nearest(n: nat, d: nat)
    requires
        d > 0,
    ensures
        is_nearest(n, d, nearest(n, d)),
{
    let top = INFINITY_BITS as nat;
    let lo = lemma_floor(n, d, top);
    if lo == top {
        lemma_overflow(n, d);
    } else {
        lemma_between(n, d, lo);
        assert(is_nearest(n, d, lo) || is_nearest(n, d, lo + 1));
    }
}

/// Rounding crosses no number: a value that is not below a number does not round below
/// it, and one that is not above it does not round above it.
pub proof fn law_rounding_crosses_no_number(n: nat, d: nat, m: nat)
    requires
        d > 0,
        m <= INFINITY_BITS,
    ensures
        magnitude_units(m) * d <= n ==> m <= nearest(n, d),
        n <= magnitude_units(m) * d ==> nearest(n, d) <= m,
{
    law_every_value_has_a_nearest(n, d);
    let k = nearest(n, d);
    assert(gap(n, d, k) <= gap(n, d, m));
    if k < m {
        lemma_magnitude_increases(k, m);
        lemma_scaled_increases(magnitude_units(k), magnitude_units(m), d);
    } else if m < k {
        lemma_magnitude_increases(m, k);
        lemma_scaled_increases(magnitude_units(m), magnitude_units(k), d);
    }
}

/// The pattern of a number given by 24 significant bits and a power of two.
pub(crate) proof fn lemma_compose(q: nat, p: nat)
    requires
        q <= 0x100_0000,
        q >= 0x80_0000 || p == 0,
    ensures
        magnitude_units(p * 0x80_0000 + q) == q * pow2(p),
{
    lemma2_to64();
    let m = p * 0x80_0000 + q;
    let w = pow2(p);
    if q < 0x80_0000 {
        assert(m / 0x80_0000 == 0);
        assert(q * w == q) by (nonlinear_arith)
            requires
                w == 1,
        ;
    } else if q < 0x100_0000 {
        assert(m / 0x80_0000 == p + 1);
        assert(m % 0x80_0000 == q - 0x80_0000);
    } else {
        assert(m / 0x80_0000 == p + 2);
        assert(m % 0x80_0000 == 0);
        lemma_pow2_unfold(p + 1);
        assert(magnitude_units(m) == (0x80_0000 + m % 0x80_0000) * pow2(p + 1));
        assert((0x80_0000 + m % 0x80_0000) * (2 * w) == 0x100_0000 * w) by (nonlinear_arith)
            requires
                m % 0x80_0000 == 0,
        ;
    }
}

/// How what is cut off compares to half of the last place that is kept.
#[derive(Clone, Copy)]
enum Tail {
    Below,
    Tie,
    Above,
}

/// Whether the value `n / d` has the whole part `q` and the rest `tail`, counted in the
/// `p`-th power of two.
spec fn fits(n: nat, d: nat, q: nat, p: nat, tail: Tail) -> bool {
    let g = pow2(p) * d;
    &&& d > 0
    &&& q * g <= n < (q + 1) * g
    &&& match tail {
        Tail::Below => 2 * n < (2 * q + 1) * g,
        Tail::Tie => 2 * n == (2 * q + 1) * g,
        Tail::Above => 2 * n > (2 * q + 1) * g,
    }
}

/// Rounds a value that has been cut to 24 significant bits.
fn round_cut(q: u64, p: u64, tail: Tail, Ghost(n): Ghost<nat>, Ghost(d): Ghost<nat>) -> (r: u32)
    requires
        q < 0x100_0000,
        q >= 0x80_0000 || p == 0,
        p <= 2000,
        fits(n, d, q as nat, p as nat, tail),
    ensures
        is_nearest(n, d, r as nat),
{
    let lo: u64 = p * 0x80_0000 + q;
    let ghost w = pow2(p as nat);
    proof {
        lemma_compose(q as nat, p as nat);
        lemma_compose((q + 1) as nat, p as nat);
        assert(q * w * d == q * (w * d)) by (nonlinear_arith);
        assert((q + 1) * w * d == (q + 1) * (w * d)) by (nonlinear_arith);
        assert((2 * q + 1) * (w * d) == q * (w * d) + (q + 1) * (w * d)) by (nonlinear_arith);
        assert(magnitude_units(lo as nat) * d <= n <= magnitude_units((lo + 1) as nat) * d);
    }
    if lo >= INFINITY_BITS as u64 {
        proof {
            if lo > INFINITY_BITS {
                lemma_magnitude_increases(INFINITY_BITS as nat, lo as nat);
                lemma_scaled_increases(
                    magnitude_units(INFINITY_BITS as nat),
                    magnitude_units(lo as nat),
                    d,
                );
            }
            lemma_overflow(n, d);
        }
        return INFINITY_BITS;
    }
    proof {
        lemma_between(n, d, lo as nat);
    }
    let up = match tail {
        Tail::Below => false,
        Tail::Tie => lo % 2 == 1,
        Tail::Above => true,
    };
    if up {
        (lo + 1) as u32
    } else {
        lo as u32
    }
}

/// A power of two.
pub(crate) fn power(e: u64) -> (r: u128)
    requires
        e <= 126,
    ensures
        r == pow2(e as nat),
{
    proof {
        lemma2_to64();
        if e < 64 {
            lemma_u64_pow2_no_overflow(e as nat);
            lemma_u64_shl_is_mul(1, e);
        } else {
            lemma_u64_pow2_no_overflow((e - 64) as nat);
            lemma_u64_shl_is_mul(1, (e - 64) as u64);
            lemma_pow2_adds((e - 64) as nat, 64);
        }
    }
    if e < 64 {
        (1u64 << e) as u128
    } else {
        (1u64 << (e - 64)) as u128 * 0x1_0000_0000_0000_0000
    }
}

/// Whether `rest` is what is left of `v` once its last `r` bits are gone.
spec fn is_left(v: nat, rest: nat, r: nat) -> bool {
    &&& rest * pow2(r) <= v < (rest + 1) * pow2(r)
    &&& r > 0 ==> pow2((r - 1) as nat) <= v
}

/// Takes `more` further bits off.
proof fn lemma_left(v: nat, rest: nat, r: nat, more: nat)
    requires
        is_left(v, rest, r),
        v <= u128::MAX,
        more >= 1,
        rest >= pow2((more - 1) as nat),
    ensures
        is_left(v, rest / pow2(more), r + more),
        r + more <= 128,
{
    let w = pow2(r);
    let f = pow2(more);
    let next = rest / f;
    let off = rest % f;
    lemma_pow2_pos(r);
    lemma_pow2_pos(more);
    lemma_pow2_adds(r, more);
    lemma_pow2_adds(r, (more - 1) as nat);
    vstd::arithmetic::div_mod::lemma_fundamental_div_mod(rest as int, f as int);
    assert(next * (w * f) <= rest * w) by (nonlinear_arith)
        requires
            rest == f * next + off,
            off >= 0,
            w > 0,
    ;
    assert((rest + 1) * w <= (next + 1) * (w * f)) by (nonlinear_arith)
        requires
            rest == f * next + off,
            off + 1 <= f,
            w > 0,
    ;
    assert(w * pow2((more - 1) as nat) <= rest * w) by (nonlinear_arith)
        requires
            rest >= pow2((more - 1) as nat),
            w > 0,
    ;
    if r + more > 128 {
        lemma2_to64();
        lemma_pow2_adds(64, 64);
        if r + more > 129 {
            lemma_pow2_strictly_increases(128, (r + more - 1) as nat);
        }
    }
}

/// The number of significant bits of a positive integer.
fn bit_length(v: u128) -> (r: u64)
    requires
        v > 0,
    ensures
        1 <= r <= 128,
        pow2((r - 1) as nat) <= v < pow2(r as nat),
{
    let mut rest: u128 = v;
    let mut r: u64 = 0;
    proof {
        lemma2_to64();
    }
    while rest >= 0x1_0000
        invariant
            v > 0,
            r <= 128,
            is_left(v as nat, rest as nat, r as nat),
            r == 0 ==> rest == v,
        decreases rest,
    {
        proof {
            lemma2_to64();
            lemma_left(v as nat, rest as nat, r as nat, 16);
        }
        rest = rest / 0x1_0000;
        r = r + 16;
    }
    while rest > 0
        invariant
            v > 0,
            r <= 128,
            is_left(v as nat, rest as nat, r as nat),
            r == 0 ==> rest == v,
        decreases rest,
    {
        proof {
            lemma2_to64();
            lemma_left(v as nat, rest as nat, r as nat, 1);
        }
        rest = rest / 2;
        r = r + 1;
    }
    assert((rest + 1) * pow2(r as nat) == pow2(r as nat)) by (nonlinear_arith)
        requires
            rest == 0,
    ;
    r
}

/// The power of two that the values handed to `round_value` are scaled by.
pub(crate) const SCALE: u64 = 300;

/// Whether the value `n / d`, scaled, lies in the `x`-th power of two times `sig` to
/// `sig + 1`, and is at the start of that where nothing was cut off.
pub(crate) open spec fn is_cut(n: nat, d: nat, sig: nat, x: nat, inexact: bool) -> bool {
    let a = pow2(x) * d;
    let scaled = n * pow2(SCALE as nat);
    &&& d > 0
    &&& sig * a <= scaled < (sig + 1) * a
    &&& inexact <==> sig * a < scaled
}

/// What is cut off, compared to half of the last place that is kept.
proof fn lemma_cut(
    n: nat,
    d: nat,
    sig: nat,
    x: nat,
    inexact: bool,
    q: nat,
    rem: nat,
    s: nat,
    p: nat,
    tail: Tail,
)
    requires
        is_cut(n, d, sig, x, inexact),
        s >= 1,
        s + x == p + SCALE,
        sig == q * pow2(s) + rem,
        rem < pow2(s),
        match tail {
            Tail::Below => rem < pow2((s - 1) as nat),
            Tail::Tie => rem == pow2((s - 1) as nat) && !inexact,
            Tail::Above => rem > pow2((s - 1) as nat) || (rem == pow2((s - 1) as nat) && inexact),
        },
    ensures
        fits(n, d, q, p, tail),
{
    let a = pow2(x) * d;
    let c = pow2(SCALE as nat);
    let g = pow2(p) * d;
    let w = pow2(s);
    let h = pow2((s - 1) as nat);
    let big = n * c;
    lemma_pow2_pos(x);
    lemma_pow2_pos(SCALE as nat);
    lemma_pow2_pos(p);
    lemma_pow2_unfold(s);
    lemma_pow2_adds(s, x);
    lemma_pow2_adds(p, SCALE as nat);
    assert(a > 0) by (nonlinear_arith)
        requires
            a == pow2(x) * d,
            pow2(x) > 0,
            d > 0,
    ;
    assert(w * a == g * c) by (nonlinear_arith)
        requires
            a == pow2(x) * d,
            g == pow2(p) * d,
            w * pow2(x) == pow2(p) * c,
    ;
    // The whole part.
    assert(q * g <= n) by (nonlinear_arith)
        requires
            w * a == g * c,
            sig == q * w + rem,
            sig * a <= n * c,
            c > 0,
            a > 0,
            rem >= 0,
    {
        assert(q * w * a <= sig * a);
        assert(q * w * a == q * (g * c));
        assert(q * g * c <= n * c);
    }
    assert(n < (q + 1) * g) by (nonlinear_arith)
        requires
            w * a == g * c,
            sig == q * w + rem,
            rem + 1 <= w,
            n * c < (sig + 1) * a,
            c > 0,
            a > 0,
    {
        assert((sig + 1) * a <= (q + 1) * w * a);
        assert((q + 1) * w * a == (q + 1) * g * c);
    }
    // The rest, against half a place: twice the scaled value against
    // `(2 * q + 1) * w * a`.
    assert((2 * q + 1) * g * c == 2 * ((q * w + h) * a)) by (nonlinear_arith)
        requires
            w * a == g * c,
            w == 2 * h,
    {
        assert((2 * q + 1) * g * c == (2 * q + 1) * (w * a));
        assert((2 * q + 1) * (w * a) == (2 * q * w + 2 * h) * a);
    }
    let mid = (q * w + h) * a;
    match tail {
        Tail::Below => {
            assert(big < mid) by (nonlinear_arith)
                requires
                    big < (sig + 1) * a,
                    sig + 1 <= q * w + h,
                    mid == (q * w + h) * a,
                    a > 0,
            ;
            assert(2 * n < (2 * q + 1) * g) by (nonlinear_arith)
                requires
                    2 * (n * c) < (2 * q + 1) * g * c,
                    c > 0,
            ;
        },
        Tail::Tie => {
            assert(sig * a == mid);
            assert(2 * n == (2 * q + 1) * g) by (nonlinear_arith)
                requires
                    2 * (n * c) == (2 * q + 1) * g * c,
                    c > 0,
            ;
        },
        Tail::Above => {
            assert(big > mid) by (nonlinear_arith)
                requires
                    sig * a <= big,
                    sig > q * w + h || (sig == q * w + h && sig * a < big),
                    mid == (q * w + h) * a,
                    a > 0,
            ;
            assert(2 * n > (2 * q + 1) * g) by (nonlinear_arith)
                requires
                    2 * (n * c) > (2 * q + 1) * g * c,
                    c > 0,
            ;
        },
    }
}

/// Rounds a value. It is given by its leading bits and the power of two that they count,
/// scaled, and by whether anything was cut off behind them.
pub(crate) fn round_value(
    sig: u128,
    x: u64,
    inexact: bool,
    Ghost(n): Ghost<nat>,
    Ghost(d): Ghost<nat>,
) -> (r: u32)
    requires
        0 < sig < pow2(100),
        x <= 1000,
        inexact ==> sig >= pow2(30),
        is_cut(n, d, sig as nat, x as nat, inexact),
    ensures
        is_nearest(n, d, r as nat),
{
    let len = bit_length(sig);
    proof {
        if len > 100 {
            if len > 101 {
                lemma_pow2_strictly_increases(100, (len - 1) as nat);
            }
        }
        if inexact && len < 31 {
            if len < 30 {
                lemma_pow2_strictly_increases(len as nat, 30);
            }
        }
    }
    let p: u64 = if len + x > SCALE + 24 {
        len + x - SCALE - 24
    } else {
        0
    };
    if p + SCALE <= x {
        // The last place is exact: the bits move up.
        let up = x - p - SCALE;
        let w = power(up);
        proof {
            lemma_pow2_pos(up as nat);
            lemma_pow2_adds(up as nat, len as nat);
            lemma_pow2_adds(up as nat, (len - 1) as nat);
            lemma2_to64();
            assert(sig * w < pow2(len as nat) * w) by (nonlinear_arith)
                requires
                    sig < pow2(len as nat),
                    w > 0,
            ;
            assert(pow2((len - 1) as nat) * w <= sig * w) by (nonlinear_arith)
                requires
                    pow2((len - 1) as nat) <= sig,
                    w > 0,
            ;
            assert(pow2(len as nat) * w == w * pow2(len as nat)) by (nonlinear_arith);
            assert(pow2((len - 1) as nat) * w == w * pow2((len - 1) as nat)) by (nonlinear_arith);
            if up + len < 24 {
                lemma_pow2_strictly_increases((up + len) as nat, 24);
            }
            assert(sig * w < 0x100_0000);
            assert(p > 0 ==> up + len == 24);
            lemma_moved_up(n, d, sig as nat, x as nat, up as nat, p as nat);
        }
        let q = (sig * w) as u64;
        return round_cut(q, p, Tail::Below, Ghost(n), Ghost(d));
    }
    let s = p + SCALE - x;
    if s > 126 {
        // All of it is cut off, and far below half a place.
        proof {
            lemma_vanishing(n, d, sig as nat, x as nat, inexact);
        }
        return round_cut(0, 0, Tail::Below, Ghost(n), Ghost(d));
    }
    let w = power(s);
    let h = power(s - 1);
    proof {
        lemma_pow2_pos(s as nat);
    }
    let q = sig / w;
    let rem = sig % w;
    let tail = if rem < h {
        Tail::Below
    } else if rem == h && !inexact {
        Tail::Tie
    } else {
        Tail::Above
    };
    proof {
        vstd::arithmetic::div_mod::lemma_fundamental_div_mod(sig as int, w as int);
        assert(w * q == q * w) by (nonlinear_arith);
        lemma_cut(
            n,
            d,
            sig as nat,
            x as nat,
            inexact,
            q as nat,
            rem as nat,
            s as nat,
            p as nat,
            tail,
        );
        lemma_kept_bits(sig as nat, len as nat, s as nat, q as nat, rem as nat);
    }
    round_cut(q as u64, p, tail, Ghost(n), Ghost(d))
}

/// A value whose bits all fit.
proof fn lemma_moved_up(n: nat, d: nat, sig: nat, x: nat, up: nat, p: nat)
    requires
        is_cut(n, d, sig, x, false),
        x == up + p + SCALE,
    ensures
        fits(n, d, sig * pow2(up), p, Tail::Below),
{
    let c = pow2(SCALE as nat);
    let g = pow2(p) * d;
    let q = sig * pow2(up);
    lemma_pow2_adds(up, p + SCALE as nat);
    lemma_pow2_adds(p, SCALE as nat);
    lemma_pow2_pos(SCALE as nat);
    lemma_pow2_pos(p);
    assert(pow2(x) == pow2(up) * (pow2(p) * c));
    assert(sig * (pow2(x) * d) == q * g * c) by (nonlinear_arith)
        requires
            pow2(x) == pow2(up) * (pow2(p) * c),
            g == pow2(p) * d,
            q == sig * pow2(up),
    ;
    assert(n == q * g) by (nonlinear_arith)
        requires
            n * c == q * g * c,
            c > 0,
    ;
    assert(g > 0) by (nonlinear_arith)
        requires
            g == pow2(p) * d,
            pow2(p) > 0,
            d > 0,
    ;
    assert((q + 1) * g == q * g + g) by (nonlinear_arith);
    assert((2 * q + 1) * g == 2 * (q * g) + g) by (nonlinear_arith);
}

/// A value that is far below half a unit.
proof fn lemma_vanishing(n: nat, d: nat, sig: nat, x: nat, inexact: bool)
    requires
        is_cut(n, d, sig, x, inexact),
        sig < pow2(100),
        x + 126 < SCALE,
    ensures
        fits(n, d, 0, 0, Tail::Below),
{
    let c = pow2(SCALE as nat);
    let a = pow2(x) * d;
    lemma2_to64();
    lemma_pow2_pos(x);
    lemma_pow2_pos(SCALE as nat);
    lemma_pow2_adds(100, x);
    lemma_pow2_unfold(101 + x);
    lemma_pow2_strictly_increases(101 + x, SCALE as nat);
    assert((sig + 1) * a <= pow2(100) * a) by (nonlinear_arith)
        requires
            sig + 1 <= pow2(100),
            a >= 0,
    ;
    assert(pow2(100) * a == pow2(100 + x) * d) by (nonlinear_arith)
        requires
            a == pow2(x) * d,
            pow2(100 + x) == pow2(100) * pow2(x),
    ;
    assert(2 * (pow2(100 + x) * d) == pow2(101 + x) * d) by (nonlinear_arith)
        requires
            pow2(101 + x) == 2 * pow2(100 + x),
    ;
    assert(2 * n < d) by (nonlinear_arith)
        requires
            2 * (n * c) < pow2(101 + x) * d,
            pow2(101 + x) < c,
            c > 0,
            d > 0,
    {
        assert(pow2(101 + x) * d <= c * d);
        assert((2 * n) * c < d * c);
    }
    assert(pow2(0) * d == d) by (nonlinear_arith)
        requires
            pow2(0) == 1,
    ;
}

/// How many bits are kept.
proof fn lemma_kept_bits(sig: nat, len: nat, s: nat, q: nat, rem: nat)
    requires
        len >= 1,
        pow2((len - 1) as nat) <= sig < pow2(len),
        sig == q * pow2(s) + rem,
        rem < pow2(s),
        s + 24 >= len,
    ensures
        q < 0x100_0000,
        s + 24 == len ==> q >= 0x80_0000,
{
    let w = pow2(s);
    lemma2_to64();
    lemma_pow2_pos(s);
    lemma_pow2_adds(24, s);
    if len < s + 24 {
        lemma_pow2_strictly_increases(len, s + 24);
    }
    assert(q < 0x100_0000) by (nonlinear_arith)
        requires
            q * w <= sig,
            sig < 0x100_0000 * w,
            w > 0,
    ;
    if s + 24 == len {
        lemma_pow2_adds(23, s);
        assert((q + 1) * w == q * w + w) by (nonlinear_arith);
        assert(q >= 0x80_0000) by (nonlinear_arith)
            requires
                0x80_0000 * w <= sig,
                sig < (q + 1) * w,
                w > 0,
        ;
    }
}

} // verus!
