//! Scores: how near a chunk is to a query, from 0 to 1.
//!
//! The index gives a similarity `raw` between -1 and 1. The score is
//! `(raw + 1) / 2` in single precision: the number nearest to it.
use crate::bits::{is_finite, is_nan, magnitude, magnitude_of, nan, rank, rank_of};
use vstd::arithmetic::div_mod::lemma_fundamental_div_mod;
use vstd::arithmetic::power2::{
    lemma2_to64, lemma2_to64_rest, lemma_pow2_adds, lemma_pow2_pos, lemma_pow2_strictly_increases,
    pow2,
};
use vstd::prelude::*;

verus! {

/// The absolute value of a finite number from the magnitude of its pattern, in
/// units of the least positive number, which is 2 to the -149th.
pub open spec fn size(m: int) -> int {
    if m < 0x80_0000 {
        m
    } else {
        (0x80_0000 + m % 0x80_0000) * pow2((m / 0x80_0000 - 1) as nat)
    }
}

/// The value of a finite number, in units of the least positive number.
pub open spec fn value(b: u32) -> int {
    if b >= 0x8000_0000 {
        -size(magnitude(b))
    } else {
        size(magnitude(b))
    }
}

/// The number 1, in units of the least positive number.
pub open spec fn unity() -> int {
    pow2(149) as int
}

/// The distance between two numbers.
pub open spec fn distance(a: int, b: int) -> int {
    if a <= b {
        b - a
    } else {
        a - b
    }
}

/// `x` is the positive pattern whose number is nearest to half of `t`; of two that
/// are equally near it is the one with an even pattern.
pub open spec fn nearest_half(t: int, x: u32) -> bool {
    &&& x < 0x7f80_0000
    &&& forall|y: u32|
        is_finite(y) && #[trigger] value(y) != value(x) ==> {
            ||| distance(2 * value(x), t) < distance(2 * value(y), t)
            ||| distance(2 * value(x), t) == distance(2 * value(y), t) && x % 2 == 0
        }
}

/// The positive pattern whose number is nearest to half of `t`.
pub open spec fn half_of(t: int) -> u32 {
    choose|x: u32| nearest_half(t, x)
}

/// The score for a similarity: 0 up to -1, 1 from 1 on, and between them the number
/// nearest to half of the similarity plus 1. No number has no score.
pub open spec fn score(raw: u32) -> u32 {
    if is_nan(raw) {
        0x7fc0_0000
    } else if rank(raw) >= 0x3f80_0000 {
        0x3f80_0000
    } else if rank(raw) <= -0x3f80_0000 {
        0
    } else {
        half_of(value(raw) + unity())
    }
}

proof fn lemma_scaled(a: int, b: int, u: int)
    requires
        a < b,
        u > 0,
    ensures
        a * u + u <= b * u,
{
    assert(a * u + u == (a + 1) * u) by (nonlinear_arith);
    assert((a + 1) * u <= b * u) by (nonlinear_arith)
        requires
            a + 1 <= b,
            u > 0,
    ;
}

/// Greater patterns are greater numbers.
proof fn lemma_size_grows(a: int, b: int)
    requires
        0 <= a < b,
    ensures
        size(a) < size(b),
    decreases b - a,
{
    if a + 1 < b {
        lemma_size_grows(a, b - 1);
        lemma_size_grows(b - 1, b);
    } else if b < 0x80_0000 {
    } else if b == 0x80_0000 {
        lemma2_to64();
        assert(b % 0x80_0000 == 0 && b / 0x80_0000 == 1);
        assert(size(b) == 0x80_0000 * pow2(0));
    } else {
        let e = (a / 0x80_0000 - 1) as nat;
        let f = a % 0x80_0000;
        lemma_pow2_pos(e);
        let u = pow2(e) as int;
        if b % 0x80_0000 == 0 {
            assert(f == 0x7f_ffff);
            assert((b / 0x80_0000 - 1) as nat == e + 1);
            lemma_pow2_adds(e, 1);
            lemma2_to64();
            assert(pow2(e + 1) == 2 * u) by (nonlinear_arith)
                requires
                    pow2(e) * pow2(1) == pow2(e + 1),
                    pow2(1) == 2,
                    u == pow2(e),
            ;
            assert(0x80_0000 * (2 * u) == 0x100_0000 * u) by (nonlinear_arith);
            lemma_scaled(0x80_0000 + f, 0x100_0000, u);
            assert(size(a) == (0x80_0000 + f) * u);
            assert(size(b) == 0x80_0000 * (2 * u));
        } else {
            assert(b / 0x80_0000 == a / 0x80_0000);
            assert(b % 0x80_0000 == f + 1);
            assert(size(a) == (0x80_0000 + f) * u);
            assert(size(b) == (0x80_0000 + f + 1) * u);
            lemma_scaled(0x80_0000 + f, 0x80_0000 + f + 1, u);
        }
    }
}

/// There is but one nearest number.
proof fn lemma_nearest_unique(t: int, a: u32, b: u32)
    requires
        nearest_half(t, a),
        nearest_half(t, b),
    ensures
        a == b,
{
    let lo = if a < b { a } else { b };
    let hi = if a < b { b } else { a };
    if lo < hi {
        lemma_size_grows(lo as int, hi as int);
        assert(value(lo) < value(hi));
        if lo + 1 < hi {
            let mid = (lo + 1) as u32;
            lemma_size_grows(lo as int, mid as int);
            lemma_size_grows(mid as int, hi as int);
            assert(value(mid) != value(lo));
        }
    }
}

/// A pattern with exponent `p + 78` and significand `q` names the nearest number
/// where `q` times its unit is at most half a unit away, and `q` is even if it is
/// just half a unit.
proof fn lemma_nearest(p: nat, q: int, t: int, x: u32)
    requires
        p <= 48,
        0x80_0000 <= q <= 0x100_0000,
        distance(2 * (q * pow2(77 + p)), t) <= pow2(77 + p),
        distance(2 * (q * pow2(77 + p)), t) == pow2(77 + p) ==> q % 2 == 0,
        t >= 0x100_0000 * pow2(77 + p),
        x == (78 + p) * 0x80_0000 + (q - 0x80_0000),
    ensures
        value(x) == q * pow2(77 + p),
        nearest_half(t, x),
{
    let u = pow2(77 + p) as int;
    lemma_pow2_pos(77 + p);
    lemma2_to64();
    if q < 0x100_0000 {
        assert(x % 0x80_0000 == q - 0x80_0000);
        assert(x / 0x80_0000 == 78 + p);
    } else {
        assert(x == (79 + p) * 0x80_0000);
        assert(x % 0x80_0000 == 0);
        assert(x / 0x80_0000 == 79 + p);
        lemma_pow2_adds(77 + p, 1);
        assert(pow2(78 + p) == 2 * u) by (nonlinear_arith)
            requires
                pow2(77 + p) * pow2(1) == pow2(78 + p),
                pow2(1) == 2,
                u == pow2(77 + p),
        ;
        assert(0x80_0000 * (2 * u) == 0x100_0000 * u) by (nonlinear_arith);
    }
    assert(value(x) == q * u);
    assert forall|y: u32| is_finite(y) && #[trigger] value(y) != value(x) implies distance(
        2 * value(x),
        t,
    ) < distance(2 * value(y), t) || (distance(2 * value(x), t) == distance(2 * value(y), t) && x
        % 2 == 0) by {
        let m = magnitude(y);
        let low = (78 + p as int) * 0x80_0000;
        assert(size(low) == 0x80_0000 * u) by {
            assert(low % 0x80_0000 == 0);
            assert(low / 0x80_0000 == 78 + p);
        }
        lemma_size_nonneg(m);
        if y < 0x8000_0000 && m >= low {
            let e = m / 0x80_0000;
            let more = (e - 78 - p) as nat;
            lemma_pow2_adds(77 + p, more);
            assert((e - 1) as nat == 77 + p + more);
            let sig = 0x80_0000 + m % 0x80_0000;
            let k = sig * pow2(more);
            assert(value(y) == k * u) by (nonlinear_arith)
                requires
                    value(y) == sig * pow2((e - 1) as nat),
                    pow2((e - 1) as nat) == pow2(77 + p) * pow2(more),
                    u == pow2(77 + p),
                    k == sig * pow2(more),
            ;
            if k < q {
                lemma_scaled(k, q, u);
            } else if k > q {
                lemma_scaled(q, k, u);
            }
            assert(x % 2 == q % 2);
        } else {
            if y < 0x8000_0000 {
                lemma_size_grows(m, low);
            } else {
                assert(value(y) <= 0);
            }
            assert(2 * value(y) < 0x100_0000 * u) by (nonlinear_arith)
                requires
                    value(y) < 0x80_0000 * u,
            ;
            if q > 0x80_0000 {
                lemma_scaled(0x80_0000, q, u);
            }
        }
    }
}

proof fn lemma_size_nonneg(m: int)
    requires
        0 <= m,
    ensures
        size(m) >= 0,
{
    if m > 0 {
        lemma_size_grows(0, m);
    }
}

/// 2 to the `n`th.
fn power(n: u32) -> (r: u64)
    requires
        n < 64,
    ensures
        r == pow2(n as nat),
{
    let mut r: u64 = 1;
    let mut i: u32 = 0;
    proof {
        lemma2_to64();
    }
    while i < n
        invariant
            i <= n < 64,
            r == pow2(i as nat),
        decreases n - i,
    {
        proof {
            lemma_pow2_adds(i as nat, 1);
            lemma_power_bound(i as nat);
            lemma2_to64();
            assert(pow2(i as nat + 1) == 2 * r) by (nonlinear_arith)
                requires
                    pow2(i as nat) * pow2(1) == pow2(i as nat + 1),
                    pow2(1) == 2,
                    r == pow2(i as nat),
            ;
        }
        r = r * 2;
        i += 1;
    }
    r
}

proof fn lemma_power_bound(n: nat)
    requires
        n < 63,
    ensures
        pow2(n) <= 0x4000_0000_0000_0000,
{
    lemma2_to64_rest();
    if n < 62 {
        lemma_pow2_strictly_increases(n, 62);
    }
}

/// The exponent of the greatest power of 2 that is at most `t`.
fn log2(t: u64) -> (p: u32)
    requires
        0 < t < 0x2_0000_0000_0000,
    ensures
        p <= 48,
        pow2(p as nat) <= t < pow2(p as nat + 1),
{
    let mut p: u32 = 0;
    let mut w: u64 = 1;
    proof {
        lemma2_to64();
    }
    while t / 2 >= w
        invariant
            0 < t < 0x2_0000_0000_0000,
            p <= 48,
            w == pow2(p as nat),
            w <= t,
        decreases t - w,
    {
        proof {
            lemma_doubled(p as nat);
            lemma2_to64_rest();
            lemma_pow2_pos(p as nat);
        }
        w = w * 2;
        p += 1;
    }
    proof {
        lemma_doubled(p as nat);
    }
    p
}

proof fn lemma_doubled(n: nat)
    ensures
        pow2(n + 1) == 2 * pow2(n),
{
    lemma_pow2_adds(n, 1);
    lemma2_to64();
    assert(pow2(n + 1) == 2 * pow2(n)) by (nonlinear_arith)
        requires
            pow2(n) * pow2(1) == pow2(n + 1),
            pow2(1) == 2,
    ;
}

/// `t / w`, rounded to the nearest integer and to the even one of two.
spec fn rounding(t: int, w: int) -> int {
    if 2 * (t % w) > w || (2 * (t % w) == w && (t / w) % 2 == 1) {
        t / w + 1
    } else {
        t / w
    }
}

proof fn lemma_rounding(t: int, w: int)
    requires
        0 <= t,
        0 < w,
    ensures
        distance(2 * (rounding(t, w) * w), 2 * t) <= w,
        distance(2 * (rounding(t, w) * w), 2 * t) == w ==> rounding(t, w) % 2 == 0,
{
    let q = t / w;
    lemma_fundamental_div_mod(t, w);
    assert(w * q == q * w) by (nonlinear_arith);
    assert((q + 1) * w == q * w + w) by (nonlinear_arith);
}

/// The significand of half of `t` units of 2 to the -48th, where 2 to the `p`th is
/// the greatest power that is at most `t`.
spec fn half_significand(t: int, p: nat) -> int {
    if p < 23 {
        t * pow2((23 - p) as nat)
    } else {
        rounding(t, pow2((p - 23) as nat) as int)
    }
}

proof fn lemma_half(t: int, p: nat, x: u32)
    requires
        p <= 48,
        pow2(p) <= t < pow2(p + 1),
        x == (78 + p) * 0x80_0000 + (half_significand(t, p) - 0x80_0000),
    ensures
        0x80_0000 <= half_significand(t, p) <= 0x100_0000,
        nearest_half(t * pow2(101), x),
{
    let q = half_significand(t, p);
    let u = pow2(77 + p) as int;
    let v = pow2(100) as int;
    let sum = t * pow2(101);
    lemma2_to64();
    lemma_doubled(100);
    lemma_pow2_pos(100);
    lemma_pow2_adds(p, 101);
    lemma_pow2_adds(24, 77 + p);
    assert(sum >= 0x100_0000 * u) by (nonlinear_arith)
        requires
            sum == t * pow2(101),
            t >= pow2(p),
            pow2(p) * pow2(101) == pow2(p + 101),
            pow2(24) * pow2(77 + p) == pow2(24 + (77 + p)),
            pow2(24) == 0x100_0000,
            u == pow2(77 + p),
            24 + (77 + p) == p + 101,
    ;
    assert(sum == (2 * t) * v) by (nonlinear_arith)
        requires
            sum == t * pow2(101),
            pow2(101) == 2 * v,
    ;
    lemma_significand(t, p);
    if p < 23 {
        let m = (23 - p) as nat;
        lemma_pow2_adds(m, 77 + p);
        assert(2 * (q * u) == sum) by (nonlinear_arith)
            requires
                sum == (2 * t) * v,
                q == t * pow2(m),
                u == pow2(77 + p),
                v == pow2(m) * pow2(77 + p),
        ;
        lemma_pow2_pos(77 + p);
    } else {
        let m = (p - 23) as nat;
        let w = pow2(m) as int;
        lemma_pow2_pos(m);
        lemma_pow2_adds(100, m);
        lemma_rounding(t, w);
        assert(u == w * v) by (nonlinear_arith)
            requires
                u == pow2(100 + m),
                pow2(100) * pow2(m) == pow2(100 + m),
                w == pow2(m),
                v == pow2(100),
        ;
        lemma_scaled_distance(2 * (q * w), 2 * t, v);
        assert(2 * (q * u) == (2 * (q * w)) * v) by (nonlinear_arith)
            requires
                u == w * v,
        ;
        let near = distance(2 * (q * w), 2 * t);
        assert(distance(2 * (q * u), sum) == near * v);
        assert(near * v <= w * v && (near * v == w * v ==> near == w)) by (nonlinear_arith)
            requires
                near <= w,
                v > 0,
        ;
    }
    lemma_nearest(p, q, sum, x);
}

proof fn lemma_significand(t: int, p: nat)
    requires
        p <= 48,
        pow2(p) <= t < pow2(p + 1),
    ensures
        0x80_0000 <= half_significand(t, p) <= 0x100_0000,
{
    lemma2_to64();
    if p < 23 {
        let m = (23 - p) as nat;
        lemma_pow2_pos(m);
        lemma_pow2_adds(p, m);
        lemma_pow2_adds(p + 1, m);
        assert(0x80_0000 <= t * pow2(m) < 0x100_0000) by (nonlinear_arith)
            requires
                pow2(p) <= t < pow2(p + 1),
                pow2(m) > 0,
                pow2(p) * pow2(m) == 0x80_0000,
                pow2(p + 1) * pow2(m) == 0x100_0000,
        ;
    } else {
        let m = (p - 23) as nat;
        let w = pow2(m) as int;
        lemma_pow2_pos(m);
        lemma_pow2_adds(23, m);
        lemma_pow2_adds(24, m);
        let whole = t / w;
        lemma_fundamental_div_mod(t, w);
        assert(0x80_0000 <= whole < 0x100_0000) by (nonlinear_arith)
            requires
                0x80_0000 * w <= t < 0x100_0000 * w,
                t == w * whole + t % w,
                0 <= t % w < w,
                w > 0,
        ;
    }
}

proof fn lemma_floor_log(t: int, p: nat) -> (r: nat)
    requires
        0 < t < pow2(p + 1),
    ensures
        r <= p,
        pow2(r) <= t < pow2(r + 1),
    decreases p,
{
    if pow2(p) <= t {
        p
    } else {
        lemma2_to64();
        lemma_floor_log(t, (p - 1) as nat)
    }
}

/// Half of a similarity plus 1, as the pattern of the nearest number, from that sum in
/// units of 2 to the -48th.
fn half_pattern(t: u64) -> (x: u32)
    requires
        0 < t < 0x2_0000_0000_0000,
    ensures
        nearest_half(t * pow2(101), x),
{
    let p: u32 = log2(t);
    proof {
        lemma_significand(t as int, p as nat);
    }
    let q: u64 = if p < 23 {
        let w: u64 = power(23 - p);
        t * w
    } else {
        let d: u32 = p - 23;
        let w: u64 = power(d);
        proof {
            lemma_power_bound(d as nat);
            lemma_pow2_pos(d as nat);
        }
        let whole: u64 = t / w;
        let rest: u64 = t % w;
        if 2 * rest > w || (2 * rest == w && whole % 2 == 1) {
            whole + 1
        } else {
            whole
        }
    };
    let x: u32 = (78 + p) * 0x80_0000 + (q - 0x80_0000) as u32;
    proof {
        lemma_half(t as int, p as nat, x);
    }
    x
}

proof fn lemma_scaled_distance(a: int, b: int, v: int)
    requires
        v > 0,
    ensures
        distance(a * v, b * v) == distance(a, b) * v,
{
    assert((b - a) * v == b * v - a * v) by (nonlinear_arith);
    assert((a - b) * v == a * v - b * v) by (nonlinear_arith);
    if a < b {
        lemma_scaled(a, b, v);
    } else if b < a {
        lemma_scaled(b, a, v);
    }
}

/// A similarity between -1 and 1 plus 1, in units of 2 to the -48th, where it is no
/// nearer to 0 than one unit.
spec fn sum_units(raw: u32) -> int {
    let m = magnitude(raw);
    let s = (0x80_0000 + m % 0x80_0000) * pow2((m / 0x80_0000 - 102) as nat);
    if raw >= 0x8000_0000 {
        0x1_0000_0000_0000 - s
    } else {
        0x1_0000_0000_0000 + s
    }
}

proof fn lemma_sum(raw: u32)
    requires
        0x3300_0000 <= magnitude(raw) < 0x3f80_0000,
    ensures
        0 < sum_units(raw) < 0x2_0000_0000_0000,
        value(raw) + unity() == sum_units(raw) * pow2(101),
        pow2((magnitude(raw) / 0x80_0000 - 102) as nat) <= 0x100_0000,
{
    let m = magnitude(raw);
    let e = m / 0x80_0000;
    let sig = 0x80_0000 + m % 0x80_0000;
    let n = (e - 102) as nat;
    let w = pow2(n) as int;
    let s = sig * w;
    let t = sum_units(raw);
    lemma2_to64();
    lemma2_to64_rest();
    if n < 24 {
        lemma_pow2_strictly_increases(n, 24);
    }
    lemma_pow2_pos(n);
    assert(0 < s < 0x1_0000_0000_0000) by (nonlinear_arith)
        requires
            0 < sig < 0x100_0000,
            0 < w <= 0x100_0000,
            s == sig * w,
    ;
    lemma_pow2_adds(n, 101);
    lemma_pow2_adds(48, 101);
    assert(size(m) == s * pow2(101)) by (nonlinear_arith)
        requires
            size(m) == sig * pow2((e - 1) as nat),
            pow2((e - 1) as nat) == pow2(n) * pow2(101),
            w == pow2(n),
            s == sig * w,
    ;
    assert(unity() == 0x1_0000_0000_0000 * pow2(101));
    assert(value(raw) + unity() == t * pow2(101)) by (nonlinear_arith)
        requires
            value(raw) == (if raw >= 0x8000_0000 {
                -(s * pow2(101))
            } else {
                s * pow2(101)
            }),
            unity() == 0x1_0000_0000_0000 * pow2(101),
            t == (if raw >= 0x8000_0000 {
                0x1_0000_0000_0000 - s
            } else {
                0x1_0000_0000_0000 + s
            }),
    ;
}

/// The score for a similarity: `(raw + 1) / 2`, kept between 0 and 1.
pub fn to_score(raw: u32) -> (x: u32)
    ensures
        x == score(raw),
        -0x3f80_0000 < rank(raw) < 0x3f80_0000 ==> nearest_half(value(raw) + unity(), x),
{
    if nan(raw) {
        return 0x7fc0_0000;
    }
    let r: i64 = rank_of(raw);
    if r >= 0x3f80_0000 {
        return 0x3f80_0000;
    }
    if r <= -0x3f80_0000 {
        return 0;
    }
    let m: u32 = magnitude_of(raw);
    let e: u32 = m / 0x80_0000;
    let x: u32 = if e < 102 {
        proof {
            lemma_small(raw);
        }
        0x3f00_0000
    } else {
        proof {
            lemma_sum(raw);
        }
        let w: u64 = power(e - 102);
        let sig: u64 = (0x80_0000 + m % 0x80_0000) as u64;
        assert(sig * w < 0x1_0000_0000_0000) by (nonlinear_arith)
            requires
                sig < 0x100_0000,
                w <= 0x100_0000,
        ;
        let s: u64 = sig * w;
        let t: u64 = if raw >= 0x8000_0000 {
            0x1_0000_0000_0000 - s
        } else {
            0x1_0000_0000_0000 + s
        };
        half_pattern(t)
    };
    proof {
        let sum = value(raw) + unity();
        assert(nearest_half(sum, half_of(sum)));
        lemma_nearest_unique(sum, x, half_of(sum));
    }
    x
}

/// A similarity that is nearly 0 has the score one half.
proof fn lemma_small(raw: u32)
    requires
        magnitude(raw) < 0x3300_0000,
    ensures
        nearest_half(value(raw) + unity(), 0x3f00_0000),
{
    let m = magnitude(raw);
    let t = value(raw) + unity();
    lemma2_to64();
    lemma_size_nonneg(m);
    let edge: int = 0x3300_0000;
    lemma_size_grows(m, edge);
    lemma_pow2_adds(23, 101);
    lemma_pow2_adds(24, 125);
    lemma_pow2_adds(25, 124);
    lemma_doubled(124);
    assert(size(edge) == 0x80_0000 * pow2(101)) by {
        assert(edge % 0x80_0000 == 0);
        assert(edge / 0x80_0000 == 102);
    }
    if raw < 0x8000_0000 {
        lemma_nearest(48, 0x80_0000, t, 0x3f00_0000);
    } else {
        lemma_nearest(47, 0x100_0000, t, 0x3f00_0000);
    }
}

/// Between -1 and 1 the score is the number nearest to half of the similarity plus 1.
pub proof fn law_score_nearest(raw: u32)
    requires
        -0x3f80_0000 < rank(raw) < 0x3f80_0000,
    ensures
        nearest_half(value(raw) + unity(), score(raw)),
{
    let sum = value(raw) + unity();
    if magnitude(raw) < 0x3300_0000 {
        lemma_small(raw);
    } else {
        lemma_sum(raw);
        lemma2_to64_rest();
        let t = sum_units(raw);
        let p = lemma_floor_log(t, 48);
        lemma_significand(t, p);
        let x = ((78 + p) * 0x80_0000 + (half_significand(t, p) - 0x80_0000)) as u32;
        lemma_half(t, p, x);
    }
    assert(nearest_half(sum, half_of(sum)));
}

/// A similarity has a score between 0 and 1.
pub proof fn law_score_bounded(raw: u32)
    requires
        !is_nan(raw),
    ensures
        0 <= value(score(raw)) <= unity(),
        score(raw) <= 0x3f80_0000,
{
    lemma_unity();
    lemma2_to64();
    if -0x3f80_0000 < rank(raw) < 0x3f80_0000 {
        law_score_nearest(raw);
        let x = score(raw);
        lemma_size_nonneg(x as int);
        if x > 0x3f80_0000 {
            lemma_size_grows(0x3f80_0000, x as int);
            lemma_size_grows(magnitude(raw), 0x3f80_0000);
            lemma_size_nonneg(magnitude(raw));
            assert(value(0x3f80_0000u32) == unity());
            assert(value(raw) + unity() < 2 * unity());
            assert(value(0x3f80_0000u32) != value(x));
        }
        if x < 0x3f80_0000 {
            lemma_size_grows(x as int, 0x3f80_0000);
        }
    }
}

proof fn lemma_unity()
    ensures
        size(0x3f80_0000) == unity(),
{
    lemma2_to64();
    lemma_pow2_adds(23, 126);
    let m: int = 0x3f80_0000;
    assert(m % 0x80_0000 == 0 && m / 0x80_0000 == 127);
}

/// Of two similarities the greater one has no lesser score.
pub proof fn law_score_monotone(a: u32, b: u32)
    requires
        !is_nan(a),
        !is_nan(b),
        rank(a) <= rank(b),
    ensures
        rank(score(a)) <= rank(score(b)),
{
    law_score_bounded(a);
    law_score_bounded(b);
    if -0x3f80_0000 < rank(a) && rank(b) < 0x3f80_0000 {
        law_score_nearest(a);
        law_score_nearest(b);
        lemma_values(a, b);
        let x = score(a);
        let y = score(b);
        if y < x {
            lemma_size_grows(y as int, x as int);
            assert(value(y) < value(x));
            assert(value(a) == value(b));
            lemma_nearest_unique(value(a) + unity(), x, y);
        }
    }
}

/// A number of greater rank has no lesser value.
proof fn lemma_values(a: u32, b: u32)
    requires
        is_finite(a),
        is_finite(b),
        rank(a) <= rank(b),
    ensures
        value(a) <= value(b),
{
    let m = magnitude(a);
    let n = magnitude(b);
    lemma_size_nonneg(m);
    lemma_size_nonneg(n);
    if m < n {
        lemma_size_grows(m, n);
    } else if n < m {
        lemma_size_grows(n, m);
    }
}

/// What a finite pattern stands for, in units of 2 to the -149th: the fraction alone where the
/// exponent is 0, else the fraction with its leading 1, doubled for each further step of the
/// exponent; with the sign bit the same below zero.
pub proof fn law_values(b: u32)
    ensures
        b < 0x80_0000 ==> value(b) == b,
        0x80_0000 <= b < 0x7f80_0000 ==> value(b) == (0x80_0000 + b % 0x80_0000) * pow2(
            (b / 0x80_0000 - 1) as nat,
        ),
        b < 0x7f80_0000 ==> value((b + 0x8000_0000) as u32) == -value(b),
        value(0x3f80_0000) == pow2(149),
        0x80_0000 <= b < 0x7f00_0000 ==> value((b + 0x80_0000) as u32) == 2 * value(b),
{
    lemma_unity();
    if 0x80_0000 <= b < 0x7f00_0000 {
        let c = (b + 0x80_0000) as u32;
        let e = (b / 0x80_0000 - 1) as nat;
        let f = 0x80_0000 + b % 0x80_0000;
        assert(c / 0x80_0000 == b / 0x80_0000 + 1);
        assert(c % 0x80_0000 == b % 0x80_0000);
        lemma_doubled(e);
        assert(f * (2 * pow2(e)) == 2 * (f * pow2(e))) by (nonlinear_arith);
    }
}

/// The score for a similarity `raw` is the finite number nearest to `(raw + 1) / 2`, where `raw`
/// lies between -1 and 1: none is nearer, and of two that are equally near it is the one whose
/// pattern is even. From 1 on the score is 1, up to -1 it is 0, and no number has none.
pub proof fn law_score_is_half_of_raised(raw: u32, y: u32)
    ensures
        0x3f80_0000 <= raw <= 0x7f80_0000 ==> score(raw) == 0x3f80_0000,
        0xbf80_0000 <= raw <= 0xff80_0000 ==> score(raw) == 0,
        is_nan(raw) ==> is_nan(score(raw)),
        (raw < 0x3f80_0000 || 0x8000_0000 <= raw < 0xbf80_0000) ==> {
            let t = value(raw) + pow2(149);
            let x = 2 * value(score(raw)) - t;
            let z = 2 * value(y) - t;
            &&& score(raw) <= 0x3f80_0000
            &&& is_finite(y) ==> -(if z < 0 {
                -z
            } else {
                z
            }) <= x <= (if z < 0 {
                -z
            } else {
                z
            })
            &&& is_finite(y) && value(y) != value(score(raw)) && (z == x || z == -x) ==> score(raw)
                % 2 == 0
        },
{
    if raw < 0x3f80_0000 || 0x8000_0000 <= raw < 0xbf80_0000 {
        law_score_nearest(raw);
        law_score_bounded(raw);
    }
}

} // verus!
