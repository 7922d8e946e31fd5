//! What the terms of a power stand for.
//!
//! The power of an endpoint is `S * (T / S) ^ (W / Q)`, where `S` is the
//! strongest unit's power, `T` the total, `W` the sum of power times exponent
//! and `Q` a million times the total. Its `Q`-th power is the whole number
//! `S ^ (Q - W) * T ^ W`, and so whole numbers can say exactly where it lies.

use vstd::prelude::*;
use vstd::arithmetic::power::{
    lemma_pow0, lemma_pow_adds, lemma_pow_distributes, lemma_pow_multiplies, lemma_pow_positive,
    pow,
};
use crate::antenna::{AntennaView, EXPONENT_ONE};
use crate::endpoint::{
    admits_power, lemma_exponent_zero_power, lemma_ground_station_locks,
    lemma_identical_units_add_up, lemma_single_unit_power, lemma_units_of_terms,
    lemma_weighted_bound, settled_power, strongest_power, total_power, units_of, weighted_power,
    EndpointView,
};

verus! {

/// The `Q`-th power of the power of the units `s`.
pub open spec fn raised_power(s: Seq<AntennaView>) -> int {
    pow(
        strongest_power(s) as int,
        (EXPONENT_ONE * total_power(s) - weighted_power(s)) as nat,
    ) * pow(total_power(s) as int, weighted_power(s))
}

/// `v` is the power of the units `s`, rounded down.
pub open spec fn is_floor_power(s: Seq<AntennaView>, v: int) -> bool {
    let q = (EXPONENT_ONE * total_power(s)) as nat;
    &&& 0 <= v
    &&& weighted_power(s) <= q
    &&& pow(v, q) <= raised_power(s) < pow(v + 1, q)
}

/// `v` is the power of the units `s`, and a whole number.
pub open spec fn is_whole_power(s: Seq<AntennaView>, v: int) -> bool {
    &&& 0 <= v
    &&& weighted_power(s) <= EXPONENT_ONE * total_power(s)
    &&& pow(v, (EXPONENT_ONE * total_power(s)) as nat) == raised_power(s)
}

/// A greater base gives a greater power.
pub proof fn lemma_pow_base(a: int, b: int, e: nat)
    requires
        0 <= a <= b,
    ensures
        0 <= pow(a, e) <= pow(b, e),
        a < b && e > 0 ==> pow(a, e) < pow(b, e),
    decreases e,
{
    reveal(pow);
    if e > 0 {
        lemma_pow_base(a, b, (e - 1) as nat);
        let x = pow(a, (e - 1) as nat);
        let y = pow(b, (e - 1) as nat);
        assert(0 <= a * x <= b * y) by (nonlinear_arith)
            requires
                0 <= a <= b,
                0 <= x <= y,
        ;
        if a < b {
            lemma_pow_positive(b, (e - 1) as nat);
            assert(a * x < b * y) by (nonlinear_arith)
                requires
                    0 <= a < b,
                    0 <= x <= y,
                    0 < y,
            ;
        }
    }
}

/// Of two bases the one with the smaller power is the smaller.
pub proof fn lemma_pow_base_converse(a: int, b: int, e: nat)
    requires
        0 <= a,
        0 <= b,
        pow(a, e) < pow(b, e),
    ensures
        a < b,
{
    if b <= a {
        lemma_pow_base(b, a, e);
    }
}

/// The units `s` have one power.
pub proof fn lemma_floor_power_unique(s: Seq<AntennaView>, v1: int, v2: int)
    requires
        is_floor_power(s, v1),
        is_floor_power(s, v2),
    ensures
        v1 == v2,
{
    let q = (EXPONENT_ONE * total_power(s)) as nat;
    lemma_pow_base_converse(v1, v2 + 1, q);
    lemma_pow_base_converse(v2, v1 + 1, q);
}

/// A power that is a whole number is the power rounded down.
pub proof fn lemma_whole_power_is_floor(s: Seq<AntennaView>, v: int)
    requires
        is_whole_power(s, v),
        total_power(s) > 0,
    ensures
        is_floor_power(s, v),
{
    let q = (EXPONENT_ONE * total_power(s)) as nat;
    assert(q > 0) by (nonlinear_arith)
        requires
            q == EXPONENT_ONE * total_power(s),
            total_power(s) > 0,
    ;
    lemma_pow_base(v, v + 1, q);
}

/// The settled power is the power, and a whole number.
pub proof fn lemma_settled_power_exact(s: Seq<AntennaView>)
    requires
        s.len() > 0,
        forall|i: int| 0 <= i < s.len() ==> (#[trigger] s[i]).wf(),
        settled_power(s) is Some,
    ensures
        is_whole_power(s, settled_power(s)->0),
        is_floor_power(s, settled_power(s)->0),
{
    lemma_weighted_bound(s);
    let big = strongest_power(s) as int;
    let total = total_power(s) as int;
    let w = weighted_power(s);
    let q = (EXPONENT_ONE * total_power(s)) as nat;
    let rest = (q - w) as nat;
    if total == big {
        lemma_pow_adds(big, rest, w);
        assert(rest + w == q);
    } else if w == 0 {
        lemma_pow0(total);
        assert(pow(big, q) * 1 == pow(big, q)) by (nonlinear_arith);
    } else {
        lemma_pow0(big);
        assert(1 * pow(total, q) == pow(total, q)) by (nonlinear_arith);
    }
    lemma_whole_power_is_floor(s, settled_power(s)->0);
}

/// The power lies between the strongest unit's power and the total.
pub proof fn lemma_floor_power_bounds(s: Seq<AntennaView>, v: int)
    requires
        s.len() > 0,
        forall|i: int| 0 <= i < s.len() ==> (#[trigger] s[i]).wf(),
        is_floor_power(s, v),
    ensures
        strongest_power(s) <= v <= total_power(s),
{
    lemma_weighted_bound(s);
    let big = strongest_power(s) as int;
    let total = total_power(s) as int;
    let w = weighted_power(s);
    let q = (EXPONENT_ONE * total_power(s)) as nat;
    let rest = (q - w) as nat;
    assert(rest + w == q);
    // big^q = big^rest * big^w <= big^rest * total^w <= total^rest * total^w = total^q
    lemma_pow_adds(big, rest, w);
    lemma_pow_adds(total, rest, w);
    lemma_pow_base(big, total, w);
    lemma_pow_base(big, total, rest);
    lemma_pow_positive(big, rest);
    let low = pow(big, rest);
    let high = pow(total, rest);
    let x = pow(big, w);
    let y = pow(total, w);
    assert(low * x <= low * y <= high * y) by (nonlinear_arith)
        requires
            0 <= low <= high,
            0 <= x <= y,
    ;
    lemma_pow_base_converse(big, v + 1, q);
    lemma_pow_base(total, total + 1, q);
    assert(q > 0) by (nonlinear_arith)
        requires
            q == EXPONENT_ONE * total_power(s),
            total_power(s) > 0,
    ;
    lemma_pow_base_converse(v, total + 1, q);
}

/// Below a number whose `q`-th power is too great stands a number that is
/// the `q`-th root of `target`, rounded down.
proof fn lemma_root_below(target: int, q: nat, hi: int)
    requires
        0 <= target < pow(hi + 1, q),
        0 <= hi,
        0 < q,
    ensures
        exists|v: int| 0 <= v <= hi && pow(v, q) <= target < #[trigger] pow(v + 1, q),
    decreases hi,
{
    if pow(hi, q) <= target {
        assert(pow(hi, q) <= target < pow(hi + 1, q));
    } else if hi == 0 {
        vstd::arithmetic::power::lemma0_pow(q);
    } else {
        lemma_root_below(target, q, hi - 1);
        let v = choose|v: int| 0 <= v <= hi - 1 && pow(v, q) <= target < #[trigger] pow(v + 1, q);
        assert(0 <= v <= hi && pow(v, q) <= target < pow(v + 1, q));
    }
}

/// Units of which at least one is attached have a power.
pub proof fn lemma_floor_power_exists(s: Seq<AntennaView>)
    requires
        s.len() > 0,
        forall|i: int| 0 <= i < s.len() ==> (#[trigger] s[i]).wf(),
    ensures
        exists|v: int| #[trigger] is_floor_power(s, v),
{
    lemma_weighted_bound(s);
    let big = strongest_power(s) as int;
    let total = total_power(s) as int;
    let w = weighted_power(s);
    let q = (EXPONENT_ONE * total_power(s)) as nat;
    let rest = (q - w) as nat;
    assert(q > 0) by (nonlinear_arith)
        requires
            q == EXPONENT_ONE * total_power(s),
            total_power(s) > 0,
    ;
    assert(rest + w == q);
    lemma_pow_adds(total, rest, w);
    lemma_pow_base(big, total, rest);
    lemma_pow_base(0, total, w);
    let low = pow(big, rest);
    let high = pow(total, rest);
    let y = pow(total, w);
    assert(0 <= low * y <= high * y) by (nonlinear_arith)
        requires
            0 <= low <= high,
            0 <= y,
    ;
    lemma_pow_base(total, total + 1, q);
    lemma_root_below(raised_power(s), q, total);
    let v = choose|v: int|
        0 <= v <= total && pow(v, q) <= raised_power(s) < #[trigger] pow(v + 1, q);
    assert(is_floor_power(s, v));
}

/// The power of an endpoint, rounded down, is a power that its terms admit.
pub proof fn lemma_floor_power_is_admitted(s: Seq<AntennaView>, v: int)
    requires
        s.len() > 0,
        forall|i: int| 0 <= i < s.len() ==> (#[trigger] s[i]).wf(),
        is_floor_power(s, v),
    ensures
        admits_power(s, v),
{
    lemma_floor_power_bounds(s, v);
    if settled_power(s) is Some {
        lemma_settled_power_exact(s);
        lemma_floor_power_unique(s, v, settled_power(s)->0);
    }
}

/// What the `Q`-th power comes to for `n` units of one antenna: the `n * P`-th
/// power of `P ^ (1 - e) * (n * P) ^ e`, with the exponents in millionths.
proof fn lemma_units_raised(a: AntennaView, n: nat)
    requires
        a.wf(),
        n >= 1,
    ensures
        raised_power(units_of(a, n)) == pow(unit_base(a, n), n * a.power),
        EXPONENT_ONE * total_power(units_of(a, n)) == EXPONENT_ONE * (n * a.power),
        unit_base(a, n) >= 0,
{
    let s = units_of(a, n);
    lemma_units_of_terms(a, n);
    let p = a.power as int;
    let e = a.combine_exp;
    let np = n * a.power;
    let slack = (EXPONENT_ONE - e) as nat;
    assert(weighted_power(s) == e * np) by (nonlinear_arith)
        requires
            weighted_power(s) == n * a.power * a.combine_exp,
            np == n * a.power,
            e == a.combine_exp,
    ;
    assert(EXPONENT_ONE * total_power(s) - weighted_power(s) == slack * np) by (nonlinear_arith)
        requires
            total_power(s) == np,
            weighted_power(s) == e * np,
            slack == EXPONENT_ONE - e,
    ;
    lemma_pow_multiplies(p, slack, np);
    lemma_pow_multiplies(np as int, e, np);
    lemma_pow_distributes(pow(p, slack), pow(np as int, e), np);
    lemma_pow_base(0, p, slack);
    lemma_pow_base(0, np as int, e);
    assert(unit_base(a, n) >= 0) by (nonlinear_arith)
        requires
            unit_base(a, n) == pow(p, slack) * pow(np as int, e),
            0 <= pow(p, slack),
            0 <= pow(np as int, e),
    ;
}

/// `P ^ (1 - e) * (n * P) ^ e` for `n` units of the antenna `a`, of the power
/// `P` and the exponent `e`, with the exponents in millionths: the millionth
/// power of what the `n` units give together.
pub open spec fn unit_base(a: AntennaView, n: nat) -> int {
    pow(a.power as int, (EXPONENT_ONE - a.combine_exp) as nat) * pow(
        (n * a.power) as int,
        a.combine_exp,
    )
}

/// More units of one antenna never give less power.
pub proof fn lemma_more_units_raise_power(a: AntennaView, n: nat, m: nat, few: int, many: int)
    requires
        a.wf(),
        1 <= n <= m,
        is_floor_power(units_of(a, n), few),
        is_floor_power(units_of(a, m), many),
    ensures
        few <= many,
{
    let one = EXPONENT_ONE as nat;
    let np = n * a.power;
    let mp = m * a.power;
    lemma_units_raised(a, n);
    lemma_units_raised(a, m);
    assert(1 <= np <= mp) by (nonlinear_arith)
        requires
            1 <= n <= m,
            a.power >= 1,
            np == n * a.power,
            mp == m * a.power,
    ;
    // few^(one * np) <= base(n)^np, so few^one <= base(n)
    lemma_pow_multiplies(few, one, np);
    lemma_pow_multiplies(many + 1, one, mp);
    lemma_pow_base(0, few, one);
    lemma_pow_base(0, many + 1, one);
    if pow(few, one) > unit_base(a, n) {
        lemma_pow_base(unit_base(a, n), pow(few, one), np);
    }
    if pow(many + 1, one) <= unit_base(a, m) {
        lemma_pow_base(pow(many + 1, one), unit_base(a, m), mp);
    }
    // base(n) <= base(m)
    lemma_pow_base(np as int, mp as int, a.combine_exp);
    lemma_pow_base(0, a.power as int, (EXPONENT_ONE - a.combine_exp) as nat);
    let shared = pow(a.power as int, (EXPONENT_ONE - a.combine_exp) as nat);
    let x = pow(np as int, a.combine_exp);
    let y = pow(mp as int, a.combine_exp);
    assert(shared * x <= shared * y) by (nonlinear_arith)
        requires
            0 <= shared,
            x <= y,
    ;
    lemma_pow_base_converse(few, many + 1, one);
}

/// A single unit gives its own power, whatever its exponent.
pub proof fn lemma_power_of_single_unit(s: Seq<AntennaView>)
    requires
        s.len() == 1,
        s[0].wf(),
    ensures
        is_whole_power(s, s[0].power as int),
{
    lemma_single_unit_power(s);
    lemma_settled_power_exact(s);
}

/// Where every exponent is 0, the power is that of the strongest unit,
/// however many units are attached.
pub proof fn lemma_power_without_gain(s: Seq<AntennaView>)
    requires
        s.len() > 0,
        forall|i: int| 0 <= i < s.len() ==> (#[trigger] s[i]).wf(),
        forall|i: int| 0 <= i < s.len() ==> (#[trigger] s[i]).combine_exp == 0,
    ensures
        is_whole_power(s, strongest_power(s) as int),
{
    lemma_exponent_zero_power(s);
    lemma_settled_power_exact(s);
}

/// Units of one power and of exponent 1 give their number times that power.
pub proof fn lemma_power_of_identical_units(s: Seq<AntennaView>, a: AntennaView)
    requires
        s.len() > 0,
        a.wf(),
        a.combine_exp == EXPONENT_ONE,
        forall|i: int| 0 <= i < s.len() ==> (#[trigger] s[i]).wf(),
        forall|i: int| 0 <= i < s.len() ==> (#[trigger] s[i]).combine_exp == EXPONENT_ONE,
        forall|i: int| 0 <= i < s.len() ==> (#[trigger] s[i]).power == a.power,
    ensures
        is_whole_power(s, (s.len() * a.power) as int),
        total_power(s) == s.len() * a.power,
{
    lemma_identical_units_add_up(s, a);
    lemma_settled_power_exact(s);
    crate::endpoint::lemma_same_power_total(s, a.power);
}

/// Once a ground-station antenna was taken, the power of the endpoint is
/// that antenna's, whatever is offered afterwards.
pub proof fn lemma_power_of_ground_station(
    e: EndpointView,
    dsn: AntennaView,
    count: nat,
    later: AntennaView,
    later_count: nat,
)
    requires
        !e.is_dsn,
        dsn.is_dsn,
        dsn.wf(),
    ensures
        is_whole_power(e.add(dsn, count).add(later, later_count).attached, dsn.power as int),
{
    lemma_ground_station_locks(e, dsn, count, later, later_count);
    lemma_settled_power_exact(seq![dsn]);
}

} // verus!
