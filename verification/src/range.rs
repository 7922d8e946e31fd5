//! The reach of a link and the strength of its signal at a distance.
//!
//! Distances are whole metres. A strength is a whole number of millionths of
//! the full signal, so that `STRENGTH_ONE` stands for 100 %.

use vstd::prelude::*;
use vstd::arithmetic::div_mod::lemma_div_is_ordered;
use crate::util::{metres_string, metres_text};

verus! {

/// The full signal.
pub const STRENGTH_ONE: u64 = 1_000_000;

/// `r` is the square root of `n`, rounded down.
pub open spec fn is_floor_sqrt(n: int, r: int) -> bool {
    0 <= r && r * r <= n < (r + 1) * (r + 1)
}

/// The curve `3 r^2 - 2 r^3` on a ratio `r` in millionths, in millionths and
/// rounded down.
pub open spec fn smoothstep(r: int) -> int {
    (3 * r * r * STRENGTH_ONE - 2 * r * r * r) / (STRENGTH_ONE * STRENGTH_ONE)
}

/// The part of the reach `max` that lies beyond the distance `d`, in
/// millionths of `max` and rounded down.
pub open spec fn remaining_ratio(max: int, d: int) -> int {
    (max - d) * STRENGTH_ONE / max
}

/// The strength of the signal at the distance `d` of a link that reaches
/// `max`: full before the link begins, none from `max` on, and the curve of
/// the remaining ratio between.
pub open spec fn strength_spec(max: int, d: int) -> Option<int> {
    if d < 0 {
        Some(STRENGTH_ONE as int)
    } else if d >= max {
        None
    } else {
        Some(smoothstep(remaining_ratio(max, d)))
    }
}

/// `s` is the strength at the distance `d` of a link that reaches `max`.
pub open spec fn is_strength_at(max: int, d: int, s: Option<u64>) -> bool {
    match strength_spec(max, d) {
        Some(v) => s == Some(v as u64) && 0 <= v <= STRENGTH_ONE,
        None => s is None,
    }
}

/// The square root of `n`, rounded down.
pub fn isqrt(n: u128) -> (r: u64)
    ensures
        is_floor_sqrt(n as int, r as int),
{
    let mut lo: u128 = 0;
    let mut hi: u128 = 0x1_0000_0000_0000_0000;
    assert(n < hi * hi) by (nonlinear_arith)
        requires
            n <= u128::MAX,
            hi == 0x1_0000_0000_0000_0000,
    ;
    while hi - lo > 1
        invariant
            lo < hi <= 0x1_0000_0000_0000_0000,
            lo * lo <= n < hi * hi,
        decreases hi - lo,
    {
        let mid: u128 = lo + (hi - lo) / 2;
        assert(mid * mid <= u128::MAX) by (nonlinear_arith)
            requires
                mid < 0x1_0000_0000_0000_0000,
        ;
        if mid * mid <= n {
            lo = mid;
        } else {
            hi = mid;
        }
    }
    lo as u64
}

/// At most one number is the rounded-down square root of `n`.
pub proof fn lemma_floor_sqrt_unique(n: int, a: int, b: int)
    requires
        is_floor_sqrt(n, a),
        is_floor_sqrt(n, b),
    ensures
        a == b,
{
    if a < b {
        assert((a + 1) * (a + 1) <= b * b) by (nonlinear_arith)
            requires
                0 <= a,
                a + 1 <= b,
        ;
    }
    if b < a {
        assert((b + 1) * (b + 1) <= a * a) by (nonlinear_arith)
            requires
                0 <= b,
                b + 1 <= a,
        ;
    }
}

/// The reach between two powers is the same from either side.
pub proof fn lemma_reach_symmetric(a: int, b: int, there: int, back: int)
    requires
        is_floor_sqrt(a * b, there),
        is_floor_sqrt(b * a, back),
    ensures
        there == back,
{
    assert(a * b == b * a) by (nonlinear_arith);
    lemma_floor_sqrt_unique(a * b, there, back);
}

/// The curve does not fall as the ratio grows from 0 to 1.
pub proof fn lemma_smoothstep_monotone(r1: int, r2: int)
    requires
        0 <= r1 <= r2 <= STRENGTH_ONE,
    ensures
        0 <= smoothstep(r1) <= smoothstep(r2) <= STRENGTH_ONE,
        smoothstep(0) == 0,
        smoothstep(STRENGTH_ONE as int) == STRENGTH_ONE,
{
    let one = STRENGTH_ONE as int;
    let f1 = 3 * r1 * r1 * one - 2 * r1 * r1 * r1;
    let f2 = 3 * r2 * r2 * one - 2 * r2 * r2 * r2;
    assert(0 <= f1) by (nonlinear_arith)
        requires
            0 <= r1 <= one,
            f1 == 3 * r1 * r1 * one - 2 * r1 * r1 * r1,
    ;
    assert(f1 <= f2) by (nonlinear_arith)
        requires
            0 <= r1 <= r2 <= one,
            f1 == 3 * r1 * r1 * one - 2 * r1 * r1 * r1,
            f2 == 3 * r2 * r2 * one - 2 * r2 * r2 * r2,
    ;
    assert(f2 <= one * one * one) by (nonlinear_arith)
        requires
            0 <= r2 <= one,
            f2 == 3 * r2 * r2 * one - 2 * r2 * r2 * r2,
    ;
    lemma_div_is_ordered(0, f1, one * one);
    lemma_div_is_ordered(f1, f2, one * one);
    lemma_div_is_ordered(f2, one * one * one, one * one);
    assert(one * one * one / (one * one) == one) by (nonlinear_arith)
        requires
            one == 1_000_000,
    ;
    assert(0int / (one * one) == 0) by (nonlinear_arith)
        requires
            one == 1_000_000,
    ;
    assert(3 * one * one * one - 2 * one * one * one == one * one * one) by (nonlinear_arith);
}

/// The remaining ratio lies between 0 and 1 and does not grow with the
/// distance.
pub proof fn lemma_remaining_ratio(max: int, d1: int, d2: int)
    requires
        0 <= d1 <= d2 <= max,
        0 < max,
    ensures
        0 <= remaining_ratio(max, d2) <= remaining_ratio(max, d1) <= STRENGTH_ONE,
        remaining_ratio(max, 0) == STRENGTH_ONE,
{
    let one = STRENGTH_ONE as int;
    assert(0 <= (max - d2) * one <= (max - d1) * one <= max * one) by (nonlinear_arith)
        requires
            0 <= d1 <= d2 <= max,
            one == 1_000_000,
    ;
    lemma_div_is_ordered(0, (max - d2) * one, max);
    lemma_div_is_ordered((max - d2) * one, (max - d1) * one, max);
    lemma_div_is_ordered((max - d1) * one, max * one, max);
    assert(max * one / max == one) by (nonlinear_arith)
        requires
            0 < max,
    ;
    assert(0int / max == 0) by (nonlinear_arith)
        requires
            0 < max,
    ;
}

/// The curve `3 r^2 - 2 r^3` at the ratio `k / max`, taken `max^3` times: a
/// whole number.
pub open spec fn curve_numerator(k: int, max: int) -> int {
    3 * k * k * max - 2 * k * k * k
}

/// Between two ratios over one denominator the curve rises, and by no more
/// than one and a half times their difference.
proof fn lemma_curve_slope(u: int, v: int, m: int)
    requires
        0 <= u <= v <= m,
    ensures
        curve_numerator(u, m) <= curve_numerator(v, m),
        2 * (curve_numerator(v, m) - curve_numerator(u, m)) <= 3 * (v - u) * (m * m),
{
    let fu = curve_numerator(u, m);
    let fv = curve_numerator(v, m);
    let g = 3 * (m * (u + v)) - 2 * (u * u + u * v + v * v);
    let uu = u * u;
    let vv = v * v;
    let w = v - u;
    let x = u + v;
    let y = uu + u * v + vv;
    assert(w * x == vv - uu) by (nonlinear_arith)
        requires
            w == v - u,
            x == u + v,
            uu == u * u,
            vv == v * v,
    ;
    assert(w * y == vv * v - uu * u) by (nonlinear_arith)
        requires
            w == v - u,
            y == uu + u * v + vv,
            uu == u * u,
            vv == v * v,
    ;
    assert(w * g == 3 * (m * (w * x)) - 2 * (w * y)) by (nonlinear_arith)
        requires
            g == 3 * (m * x) - 2 * y,
    ;
    assert(3 * (m * (vv - uu)) == 3 * (vv * m) - 3 * (uu * m)) by (nonlinear_arith);
    assert(fu == 3 * (uu * m) - 2 * (uu * u) && fv == 3 * (vv * m) - 2 * (vv * v))
        by (nonlinear_arith)
        requires
            fu == 3 * u * u * m - 2 * u * u * u,
            fv == 3 * v * v * m - 2 * v * v * v,
            uu == u * u,
            vv == v * v,
    ;
    assert(fv - fu == (v - u) * g);
    assert(0 <= g) by (nonlinear_arith)
        requires
            0 <= u <= v <= m,
            g == 3 * (m * (u + v)) - 2 * (u * u + u * v + v * v),
    ;
    let a = 4 * u + 2 * v - 3 * m;
    let b = 2 * v - m;
    assert(4 * (3 * (m * m) - 2 * g) == a * a + 3 * (b * b)) by (nonlinear_arith)
        requires
            g == 3 * (m * (u + v)) - 2 * (u * u + u * v + v * v),
            a == 4 * u + 2 * v - 3 * m,
            b == 2 * v - m,
    ;
    assert(a * a >= 0 && b * b >= 0) by (nonlinear_arith);
    assert(2 * g <= 3 * (m * m));
    assert((v - u) * g >= 0 && 2 * ((v - u) * g) <= 3 * (v - u) * (m * m)) by (nonlinear_arith)
        requires
            0 <= v - u,
            0 <= g,
            2 * g <= 3 * (m * m),
    ;
}

/// The curve over a ratio does not depend on the unit in which the ratio is
/// written.
proof fn lemma_curve_scales(x: int, y: int, c: int)
    ensures
        curve_numerator(x * c, y * c) == (c * c * c) * curve_numerator(x, y),
{
    let a = x * c;
    let b = y * c;
    let aa = a * a;
    let cc = c * c;
    let xx = x * x;
    assert(aa == xx * cc) by (nonlinear_arith)
        requires
            a == x * c,
            aa == a * a,
            cc == c * c,
            xx == x * x,
    ;
    let ccc = cc * c;
    assert(aa * b == (xx * y) * ccc) by (nonlinear_arith)
        requires
            aa == xx * cc,
            b == y * c,
            ccc == cc * c,
    ;
    assert(aa * a == (xx * x) * ccc) by (nonlinear_arith)
        requires
            aa == xx * cc,
            a == x * c,
            ccc == cc * c,
    ;
    assert(curve_numerator(a, b) == 3 * (aa * b) - 2 * (aa * a)) by (nonlinear_arith)
        requires
            curve_numerator(a, b) == 3 * a * a * b - 2 * a * a * a,
            aa == a * a,
    ;
    assert(curve_numerator(x, y) == 3 * (xx * y) - 2 * (xx * x)) by (nonlinear_arith)
        requires
            curve_numerator(x, y) == 3 * x * x * y - 2 * x * x * x,
            xx == x * x,
    ;
    let p = xx * y;
    let q = xx * x;
    assert(3 * (p * ccc) - 2 * (q * ccc) == ccc * (3 * p - 2 * q)) by (nonlinear_arith);
    assert(c * c * c == ccc);
}

/// How close the strength is to the curve: within the reach it is the value
/// of `3 r^2 - 2 r^3` at the exact ratio `r = (max - d) / max`, in millionths,
/// less than three millionths too low and never too high.
pub proof fn lemma_strength_accuracy(max: int, d: int)
    requires
        0 <= d < max,
    ensures
        strength_spec(max, d) is Some,
        strength_spec(max, d)->0 * (max * max * max) <= STRENGTH_ONE * curve_numerator(
            max - d,
            max,
        ),
        STRENGTH_ONE * curve_numerator(max - d, max) < (strength_spec(max, d)->0 + 3) * (max * max
            * max),
{
    let one = STRENGTH_ONE as int;
    let k = max - d;
    let rq = remaining_ratio(max, d);
    let s = smoothstep(rq);
    let n = curve_numerator(rq, one);
    let truth = curve_numerator(k, max);
    let cube = max * max * max;
    let mega = one * one * one;
    lemma_remaining_ratio(max, d, d);
    vstd::arithmetic::div_mod::lemma_fundamental_div_mod(k * one, max);
    vstd::arithmetic::div_mod::lemma_mod_bound(k * one, max);
    let u = rq * max;
    let v = k * one;
    let m = one * max;
    assert(u == max * rq) by (nonlinear_arith)
        requires
            u == rq * max,
    ;
    assert(u <= v < u + max);
    assert(v <= m && m == max * one) by (nonlinear_arith)
        requires
            v == k * one,
            m == one * max,
            0 <= k <= max,
            0 < one,
    ;
    assert(0 <= u) by (nonlinear_arith)
        requires
            u == rq * max,
            0 <= rq,
            0 < max,
    ;
    lemma_curve_slope(u, v, m);
    lemma_curve_scales(rq, one, max);
    lemma_curve_scales(k, max, one);
    assert(curve_numerator(u, m) == cube * n);
    assert(curve_numerator(v, m) == mega * truth);
    vstd::arithmetic::div_mod::lemma_fundamental_div_mod(n, one * one);
    vstd::arithmetic::div_mod::lemma_mod_bound(n, one * one);
    let sq = one * one;
    assert(s * sq <= n < s * sq + sq) by (nonlinear_arith)
        requires
            n == sq * s + n % sq,
            0 <= n % sq < sq,
    ;
    assert(0 < cube) by (nonlinear_arith)
        requires
            cube == max * max * max,
            0 < max,
    ;
    // below: s * sq * cube <= n * cube <= mega * truth
    assert((s * sq) * cube <= cube * n) by (nonlinear_arith)
        requires
            s * sq <= n,
            0 < cube,
    ;
    assert(sq * (s * cube) == (s * sq) * cube && mega * truth == sq * (one * truth))
        by (nonlinear_arith)
        requires
            sq == one * one,
            mega == one * one * one,
    ;
    assert(s * cube <= one * truth) by (nonlinear_arith)
        requires
            sq * (s * cube) <= sq * (one * truth),
            0 < sq,
    ;
    // above: 2 * mega * truth <= 2 * cube * n + 3 * (v - u) * m * m
    assert(m * m == sq * (max * max)) by (nonlinear_arith)
        requires
            m == one * max,
            sq == one * one,
    ;
    assert(3 * (v - u) * (m * m) <= 3 * (max - 1) * (m * m)) by (nonlinear_arith)
        requires
            v - u <= max - 1,
            0 <= m * m,
    ;
    assert(3 * (max - 1) * (m * m) < sq * (3 * cube)) by (nonlinear_arith)
        requires
            m * m == sq * (max * max),
            cube == max * max * max,
            0 < max,
            0 < sq,
    ;
    assert(cube * n < sq * ((s + 1) * cube)) by (nonlinear_arith)
        requires
            n < s * sq + sq,
            0 < cube,
    ;
    assert(sq * (2 * (one * truth)) < sq * ((2 * s + 5) * cube)) by (nonlinear_arith)
        requires
            2 * (mega * truth - cube * n) <= 3 * (v - u) * (m * m),
            3 * (v - u) * (m * m) < sq * (3 * cube),
            cube * n < sq * ((s + 1) * cube),
            mega * truth == sq * (one * truth),
    ;
    assert(2 * (one * truth) < (2 * s + 5) * cube) by (nonlinear_arith)
        requires
            sq * (2 * (one * truth)) < sq * ((2 * s + 5) * cube),
            0 < sq,
    ;
    assert((2 * s + 5) * cube <= 2 * ((s + 3) * cube)) by (nonlinear_arith)
        requires
            0 < cube,
    ;
}

/// At its origin a link of positive reach carries the full signal.
pub proof fn lemma_full_strength_at_origin(max: int)
    requires
        0 < max,
    ensures
        strength_spec(max, 0) == Some(STRENGTH_ONE as int),
{
    lemma_remaining_ratio(max, 0, 0);
    lemma_smoothstep_monotone(STRENGTH_ONE as int, STRENGTH_ONE as int);
}

/// From its reach on a link carries no signal.
pub proof fn lemma_no_signal_from_reach_on(max: int, d: int)
    requires
        0 <= d,
        max <= d,
    ensures
        strength_spec(max, d) is None,
{
}

/// The signal does not grow with the distance: where a link carries a signal
/// at a distance, it carries one at every shorter distance, and none that is
/// weaker.
pub proof fn lemma_strength_falls_with_distance(max: int, d1: int, d2: int)
    requires
        d1 <= d2,
    ensures
        strength_spec(max, d2) is Some ==> strength_spec(max, d1) is Some && strength_spec(
            max,
            d2,
        )->0 <= strength_spec(max, d1)->0 <= STRENGTH_ONE,
{
    if strength_spec(max, d2) is Some {
        if d2 < 0 {
        } else if d1 < 0 {
            lemma_remaining_ratio(max, d2, d2);
            lemma_smoothstep_monotone(remaining_ratio(max, d2), remaining_ratio(max, d2));
        } else {
            lemma_remaining_ratio(max, d1, d2);
            lemma_smoothstep_monotone(remaining_ratio(max, d2), remaining_ratio(max, d1));
        }
    }
}

/// The reach of a link: the distance from which on it carries no signal.
#[derive(Debug, Clone, Copy, PartialEq, Eq)]
pub struct Range {
    distance: u64,
}

impl View for Range {
    type V = int;

    closed spec fn view(&self) -> int {
        self.distance as int
    }
}

impl Range {
    /// A link that reaches `distance` metres.
    pub fn new(distance: u64) -> (r: Range)
        ensures
            r@ == distance,
    {
        Range { distance }
    }

    /// The reach of a link between two sides of the powers `a` and `b`: the
    /// square root of their product, rounded down.
    pub fn between(a: u64, b: u64) -> (r: Range)
        ensures
            is_floor_sqrt(a * b, r@),
    {
        assert(a * b <= u128::MAX) by (nonlinear_arith)
            requires
                a <= u64::MAX,
                b <= u64::MAX,
        ;
        Range { distance: isqrt((a as u128) * (b as u128)) }
    }

    /// The reach in metres.
    pub fn max_distance(self) -> (d: u64)
        ensures
            d == self@,
    {
        self.distance
    }

    /// The reach as text, scaled by thousands, with two decimal places.
    pub fn to_string(&self) -> (r: String)
        ensures
            r@ == metres_text(self@ as nat),
    {
        metres_string(self.distance)
    }

    /// The strength of the signal at `dist` metres, in millionths; `None`
    /// where the link carries no signal.
    pub fn strength_at(self, dist: i64) -> (s: Option<u64>)
        ensures
            is_strength_at(self@, dist as int, s),
    {
        if dist < 0 {
            return Some(STRENGTH_ONE);
        }
        let d: u64 = dist as u64;
        if d >= self.distance {
            return None;
        }
        let max: u128 = self.distance as u128;
        let left: u128 = (self.distance - d) as u128;
        proof {
            lemma_remaining_ratio(max as int, d as int, d as int);
            assert(left * STRENGTH_ONE <= u64::MAX * STRENGTH_ONE) by (nonlinear_arith)
                requires
                    left <= u64::MAX,
            ;
        }
        let r: u128 = left * (STRENGTH_ONE as u128) / max;
        let one: u128 = STRENGTH_ONE as u128;
        assert(r * r <= 1_000_000_000_000) by (nonlinear_arith)
            requires
                0 <= r <= 1_000_000,
        ;
        let rr: u128 = r * r;
        assert(rr * r <= 1_000_000_000_000_000_000 && rr * r <= rr * one) by (nonlinear_arith)
            requires
                0 <= r <= 1_000_000,
                0 <= rr <= 1_000_000_000_000,
                one == 1_000_000,
        ;
        let s: u128 = (3 * (rr * one) - 2 * (rr * r)) / (one * one);
        proof {
            lemma_smoothstep_monotone(r as int, r as int);
            assert(3 * (rr * one) - 2 * (rr * r) == 3 * r * r * STRENGTH_ONE - 2 * r * r * r)
                by (nonlinear_arith)
                requires
                    rr == r * r,
                    one == STRENGTH_ONE,
            ;
        }
        Some(s as u64)
    }
}

} // verus!
