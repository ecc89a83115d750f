//! How far jitter moves a delay.
use super::retry;
use super::retry::ExponentialBackoff;
use crate::binary64;
use crate::binary64::{round_units, units, Binary64, FRACTION, INFINITE, UNIT_PLACES};
use crate::precision;
use vstd::arithmetic::power2::{
    lemma2_to64, lemma2_to64_rest, lemma_pow2_adds, lemma_pow2_pos, lemma_pow2_unfold, pow2,
};
use vstd::prelude::*;

verus! {

/// The double nearest to a tenth, in units.
proof fn lemma_tenth()
    ensures
        ({
            let tenth = Binary64 { bits: 0x3FB9_9999_9999_999A };
            let w = pow2(1018);
            &&& tenth.finite() && !tenth.negative()
            &&& tenth.magnitude() == 0x3FB9_9999_9999_999A
            &&& units(tenth.magnitude()) == 0x19_9999_9999_999A * w
            &&& pow2(UNIT_PLACES as nat) == 0x100_0000_0000_0000 * w
            &&& w > 0
        }),
{
    binary64::lemma_units_of_fields(1019, 0x9_9999_9999_999A);
    lemma_pow2_pos(1018);
    lemma2_to64();
    lemma2_to64_rest();
    lemma_pow2_adds(56, 1018);
}

/// The number two, in units.
proof fn lemma_two()
    ensures
        ({
            let two = Binary64 { bits: 0x4000_0000_0000_0000 };
            &&& two.finite() && !two.negative()
            &&& units(two.magnitude()) == 2 * pow2(UNIT_PLACES as nat)
        }),
{
    binary64::lemma_units_of_fields(1024, 0);
    lemma2_to64();
    lemma2_to64_rest();
    lemma_pow2_adds(52, 1023);
    lemma_pow2_unfold(1075);
}

/// A tenth of a number from one up, as it is rounded.
proof fn lemma_range(grown: Binary64)
    requires
        precision::from_one(grown),
        grown.finite(),
    ensures
        ({
            let range = grown.product(Binary64 { bits: 0x3FB9_9999_9999_999A });
            let g = units(grown.magnitude()) as int;
            let r = units(range.magnitude()) as int;
            &&& range.finite() && !range.negative()
            &&& 0x3FB9_9999_9999_999A <= range.magnitude() <= grown.magnitude()
            &&& 0x20_0000_0000_0000 <= r
            &&& 0x20_0000_0000_0000 * (0x100_0000_0000_0000 * (10 * r)) <= 0x20_0000_0000_0001 * (
            0x100_0000_0000_0004 * g)
        }),
{
    let tenth = Binary64 { bits: 0x3FB9_9999_9999_999A };
    let range = grown.product(tenth);
    let unit = pow2(UNIT_PLACES as nat);
    let w = pow2(1018);
    let g = units(grown.magnitude());
    let t = units(tenth.magnitude());
    lemma_tenth();
    lemma_pow2_pos(UNIT_PLACES as nat);
    precision::lemma_units_from_one(grown);
    assert(g * t <= g * unit) by (nonlinear_arith)
        requires
            t <= unit,
    ;
    assert(t * unit <= g * t) by (nonlinear_arith)
        requires
            unit <= g,
    ;
    binary64::rounding_keeps_order(g * t, g * unit, unit);
    binary64::rounding_keeps_order(t * unit, g * t, unit);
    binary64::lemma_round_is_exact(grown.magnitude(), unit);
    binary64::lemma_round_is_exact(tenth.magnitude(), unit);
    let r = units(range.magnitude());
    precision::lemma_units_in_order(tenth.magnitude(), range.magnitude());
    lemma_pow2_unfold(1018);
    lemma_pow2_pos(1017);
    precision::rounding_is_close(g * t, unit);
    let off = r * unit - g * t;
    assert(0x20_0000_0000_0000 * off <= g * t) by {
        if 2 * off <= unit {
            assert(0x10_0000_0000_0000 * unit <= t * unit) by (nonlinear_arith)
                requires
                    0x10_0000_0000_0000 <= t,
            ;
        }
    }
    let m = 0x19_9999_9999_999Anat;
    assert(0x20_0000_0000_0000 * (r * 0x100_0000_0000_0000) <= 0x20_0000_0000_0001 * (g * m))
        by (nonlinear_arith)
        requires
            0x20_0000_0000_0000 * (r * unit - g * t) <= g * t,
            unit == 0x100_0000_0000_0000 * w,
            t == m * w,
            w > 0,
    ;
    assert(10 * (g * m) == 0x100_0000_0000_0004 * g) by (nonlinear_arith)
        requires
            m == 0x19_9999_9999_999A,
    ;
}

/// A tenth of a number up to two to the fifty-third is rounded up by a tenth of one at most.
proof fn lemma_range_up(grown: Binary64)
    requires
        precision::from_one(grown),
        grown.finite(),
        units(grown.magnitude()) <= 0x20_0000_0000_0000 * pow2(UNIT_PLACES as nat),
    ensures
        ({
            let range = grown.product(Binary64 { bits: 0x3FB9_9999_9999_999A });
            10 * units(range.magnitude()) <= units(grown.magnitude()) + pow2(UNIT_PLACES as nat)
        }),
{
    let unit = pow2(UNIT_PLACES as nat);
    let g = units(grown.magnitude());
    lemma_range(grown);
    if g > 0x14_0000_0000_0000 * unit {
        lemma_long_range_up(grown);
    }
}

/// Past five quarters of two to the fifty-second, the number is whole and its tenth is rounded
/// to eighths.
proof fn lemma_long_range_up(grown: Binary64)
    requires
        precision::from_one(grown),
        grown.finite(),
        0x14_0000_0000_0000 * pow2(UNIT_PLACES as nat) <= units(grown.magnitude())
            <= 0x20_0000_0000_0000 * pow2(UNIT_PLACES as nat),
    ensures
        ({
            let range = grown.product(Binary64 { bits: 0x3FB9_9999_9999_999A });
            10 * units(range.magnitude()) <= units(grown.magnitude()) + pow2(UNIT_PLACES as nat)
        }),
{
    let tenth = Binary64 { bits: 0x3FB9_9999_9999_999A };
    let range = grown.product(tenth);
    let unit = pow2(UNIT_PLACES as nat);
    let eighth = pow2(1071);
    let w = pow2(1018);
    let m = grown.magnitude();
    let g = units(m);
    let t = units(tenth.magnitude());
    lemma_tenth();
    lemma_range(grown);
    lemma_pow2_pos(UNIT_PLACES as nat);
    lemma_pow2_pos(1071);
    lemma2_to64();
    lemma2_to64_rest();
    lemma_pow2_adds(3, 1071);
    lemma_pow2_adds(49, 1074);
    lemma_pow2_unfold(1124);
    // The number is whole.
    precision::lemma_units_doubled(FRACTION as nat, 1074);
    precision::lemma_units_doubled(2 * FRACTION as nat, 1074);
    let low = (1075 * FRACTION) as nat;
    let high = (1076 * FRACTION) as nat;
    assert(units(low) == FRACTION * unit);
    assert(units(high) == 0x20_0000_0000_0000 * unit);
    if m < low {
        binary64::units_increase(m, low);
    }
    if m > high {
        binary64::units_increase(high, m);
    }
    let whole = (m - 1074 * FRACTION) as nat;
    precision::lemma_units_doubled(whole, 1074);
    assert(g == whole * unit);
    // A tenth of it is rounded to eighths.
    let n = g * t;
    assert(unit * pow2(1123) <= n) by (nonlinear_arith)
        requires
            n == g * t,
            pow2(1123) == 0x2_0000_0000_0000 * unit,
            0x14_0000_0000_0000 * unit <= g,
            unit <= 10 * t,
            unit > 0,
    ;
    assert(n < unit * pow2(1124)) by (nonlinear_arith)
        requires
            n == g * t,
            pow2(1124) == 0x4_0000_0000_0000 * unit,
            g <= 0x20_0000_0000_0000 * unit,
            8 * t < unit,
            unit > 0,
    ;
    binary64::lemma_round_at(n, unit, 1071);
    let d = unit * eighth;
    let q = binary64::nearest(n, d);
    assert(range.magnitude() == 1071 * FRACTION + q);
    assert(d > 0) by (nonlinear_arith)
        requires
            d == unit * eighth,
            unit > 0,
            eighth > 0,
    ;
    lemma_nearest_is_near(n, d);
    assert(FRACTION <= q <= 2 * FRACTION) by {
        assert(FRACTION * d == unit * pow2(1123)) by (nonlinear_arith)
            requires
                d == unit * eighth,
                pow2(1123) == 0x2_0000_0000_0000 * unit,
                unit == 8 * eighth,
                FRACTION == 8 * 0x2_0000_0000_0000,
        ;
        assert((2 * FRACTION) * d == unit * pow2(1124)) by (nonlinear_arith)
            requires
                FRACTION * d == unit * pow2(1123),
                pow2(1124) == 2 * pow2(1123),
        ;
        assert(FRACTION <= q) by (nonlinear_arith)
            requires
                FRACTION * d <= n,
                2 * (n - q * d) <= d,
                d > 0,
        ;
        assert(q <= 2 * FRACTION) by (nonlinear_arith)
            requires
                n < (2 * FRACTION) * d,
                2 * (q * d - n) <= d,
                d > 0,
        ;
    }
    precision::lemma_units_doubled(q, 1071);
    let r = units(range.magnitude());
    assert(r == q * eighth);
    assert(10 * q <= 8 * whole + 9) by (nonlinear_arith)
        requires
            2 * (q * d - n) <= d,
            d == unit * eighth,
            n == g * t,
            g == whole * unit,
            10 * t == unit + 4 * w,
            unit == 8 * eighth,
            unit == 0x100_0000_0000_0000 * w,
            whole <= 0x20_0000_0000_0000,
            w > 0,
    ;
    assert(10 * q <= 8 * whole + 8);
    assert(10 * (q * eighth) <= whole * unit + unit) by (nonlinear_arith)
        requires
            10 * q <= 8 * whole + 8,
            unit == 8 * eighth,
    ;
}

/// The nearest whole number is half of one away at most.
proof fn lemma_nearest_is_near(n: nat, d: nat)
    requires
        d > 0,
    ensures
        2 * (binary64::nearest(n, d) * d - n) <= d,
        2 * (n - binary64::nearest(n, d) * d) <= d,
{
    let q = n / d;
    vstd::arithmetic::div_mod::lemma_fundamental_div_mod(n as int, d as int);
    assert(q * d == d * q && (q + 1) * d == d * q + d) by (nonlinear_arith);
}

/// The part of the range that a draw below one takes is less than the range.
proof fn lemma_part(draw: Binary64, range: Binary64)
    requires
        !draw.nan() && !draw.negative(),
        Binary64::one().above(draw),
        range.finite() && !range.negative(),
        units(range.magnitude()) >= 0x20_0000_0000_0000,
    ensures
        draw.product(range).finite() && !draw.product(range).negative(),
        draw.product(range).magnitude() < range.magnitude(),
{
    let unit = pow2(UNIT_PLACES as nat);
    let one = Binary64::one().magnitude();
    let m = range.magnitude();
    let (q, r) = (units(draw.magnitude()), units(m));
    let below = units((one - 1) as nat);
    lemma_pow2_pos(UNIT_PLACES as nat);
    binary64::lemma_one();
    // The double below one.
    binary64::lemma_units_of_fields(1022, 0xF_FFFF_FFFF_FFFF);
    lemma2_to64();
    lemma2_to64_rest();
    lemma_pow2_adds(53, 1021);
    assert(0x20_0000_0000_0000 * below == 0x1F_FFFF_FFFF_FFFF * unit);
    precision::lemma_units_in_order(draw.magnitude(), (one - 1) as nat);
    let n = q * r;
    assert(0x20_0000_0000_0000 * n <= 0x1F_FFFF_FFFF_FFFF * (unit * r)) by (nonlinear_arith)
        requires
            n == q * r,
            q <= below,
            0x20_0000_0000_0000 * below == 0x1F_FFFF_FFFF_FFFF * unit,
    ;
    precision::rounding_is_close(n, unit);
    let x = units(round_units(n, unit));
    assert(x < r) by {
        let (xu, ru) = (x * unit, unit * r);
        assert(ru >= 0x20_0000_0000_0000 * unit) by (nonlinear_arith)
            requires
                ru == unit * r,
                r >= 0x20_0000_0000_0000,
        ;
        assert(xu < ru);
        assert(x < r) by (nonlinear_arith)
            requires
                x * unit < unit * r,
                unit > 0,
        ;
    }
    let k = round_units(n, unit);
    if k >= m {
        precision::lemma_units_in_order(m, k);
    }
}

/// A number from zero to twice another, less the other, is no lower than the other taken
/// away, and no higher than a double that bounds the difference.
proof fn lemma_difference_within(x: Binary64, range: Binary64, top: nat)
    requires
        x.finite() && !x.negative(),
        range.finite() && !range.negative(),
        top <= range.magnitude(),
        units(x.magnitude()) <= units(range.magnitude()) + units(top),
    ensures
        x.sum(range.opposite()).finite(),
        -range.value() <= x.sum(range.opposite()).value() <= units(top),
{
    let m = range.magnitude();
    let r = units(m);
    let shift = x.sum(range.opposite());
    let s = units(x.magnitude()) - r;
    assert(range.opposite().value() == -(r as int));
    binary64::lemma_round_is_exact(m, 1);
    binary64::lemma_units_at_least(m);
    assert(r * 1 == r);
    binary64::lemma_round_is_exact(top, 1);
    assert(units(top) * 1 == units(top));
    if s > 0 {
        binary64::rounding_keeps_order(s as nat, units(top), 1);
        precision::lemma_units_in_order(shift.magnitude(), top);
    } else if s < 0 {
        binary64::rounding_keeps_order((-s) as nat, r, 1);
    }
    precision::lemma_units_in_order(shift.magnitude(), m);
}

/// The shift lies within the range below, and above it stays under a tenth of the number.
proof fn lemma_shift(grown: Binary64, draw: Binary64)
    requires
        precision::from_one(grown),
        grown.magnitude() + FRACTION < INFINITE,
        !draw.nan(),
        !draw.negative(),
        Binary64::one().above(draw),
    ensures
        ({
            let range = grown.product(Binary64 { bits: 0x3FB9_9999_9999_999A });
            let shift = ExponentialBackoff::shift(grown, draw);
            let g = units(grown.magnitude()) as int;
            let r = units(range.magnitude()) as int;
            &&& shift.finite()
            &&& -r <= shift.value()
            &&& 10 * shift.value() < g
        }),
{
    let two = Binary64 { bits: 0x4000_0000_0000_0000 };
    let range = grown.product(Binary64 { bits: 0x3FB9_9999_9999_999A });
    let unit = pow2(UNIT_PLACES as nat);
    let m = range.magnitude();
    let (g, r) = (units(grown.magnitude()), units(m));
    lemma_pow2_pos(UNIT_PLACES as nat);
    lemma_range(grown);
    lemma_two();
    lemma_part(draw, range);
    let part = draw.product(range);
    let x = units(part.magnitude());
    let (r1, r2) = (units((m - 1) as nat), units((m - 2) as nat));
    precision::lemma_units_in_order(part.magnitude(), (m - 1) as nat);
    // Doubled, it is no more than twice the double below the range.
    let doubled = part.product(two);
    let wide = (m - 1 + FRACTION) as nat;
    assert(units(wide) == 2 * r1);
    assert(x * (2 * unit) <= (2 * r1) * unit) by (nonlinear_arith)
        requires
            x <= r1,
    ;
    binary64::rounding_keeps_order(x * (2 * unit), (2 * r1) * unit, unit);
    binary64::lemma_round_is_exact(wide, unit);
    precision::lemma_units_in_order(doubled.magnitude(), wide);
    // Less the range, it is no more than the second double below the range.
    precision::doubles_spread((m - 2) as nat);
    precision::doubles_lie_apart((m - 2) as nat);
    precision::doubles_lie_apart((m - 1) as nat);
    assert((m - 2) as nat + 1 == (m - 1) as nat && (m - 2) as nat + 2 == m && (m - 1) as nat + 1
        == m);
    precision::lemma_units_in_order((m - 1) as nat, m);
    lemma_difference_within(doubled, range, (m - 2) as nat);
    assert(10 * r2 < g) by {
        assert(0x20_0000_0000_0001 * r2 < 0x20_0000_0000_0000 * r1);
        assert(0x20_0000_0000_0001 * r1 < 0x20_0000_0000_0000 * r);
    }
}

/// A number up to two to the fifty-third lies below the next whole number by one part in two
/// to the fifty-third at least.
proof fn lemma_gap(grown: Binary64, d: int)
    requires
        grown.finite(),
        0 <= d,
        d * pow2(UNIT_PLACES as nat) <= units(grown.magnitude()) < (d + 1) * pow2(
            UNIT_PLACES as nat,
        ),
        units(grown.magnitude()) <= 0x20_0000_0000_0000 * pow2(UNIT_PLACES as nat),
    ensures
        0x20_0000_0000_0001 * units(grown.magnitude()) <= 0x20_0000_0000_0000 * ((d + 1) * pow2(
            UNIT_PLACES as nat,
        )),
{
    let unit = pow2(UNIT_PLACES as nat);
    let m = grown.magnitude();
    let g = units(m);
    let next = (d + 1) as nat;
    lemma_pow2_pos(UNIT_PLACES as nat);
    if d < 0x20_0000_0000_0000 {
        binary64::whole_numbers_are_exact(next);
        let k = Binary64::of_nat(next).magnitude();
        if k <= m {
            precision::lemma_units_in_order(k, m);
        }
        precision::lemma_units_in_order(m + 1, k);
        precision::doubles_lie_apart(m);
    } else {
        assert(d == 0x20_0000_0000_0000) by (nonlinear_arith)
            requires
                d * unit <= 0x20_0000_0000_0000 * unit,
                d >= 0x20_0000_0000_0000,
                unit > 0,
        ;
        assert((d + 1) * unit == d * unit + unit) by (nonlinear_arith);
    }
}

/// The sum of a number from one up and one that is less, as it is rounded.
proof fn lemma_sum(grown: Binary64, shift: Binary64)
    requires
        precision::from_one(grown),
        grown.magnitude() + FRACTION < INFINITE,
        shift.finite(),
        -grown.value() < shift.value() <= grown.value(),
    ensures
        ({
            let moved = grown.sum(shift);
            let t = grown.value() + shift.value();
            let k = round_units(t as nat, 1);
            &&& moved.finite() && !moved.negative() && moved.magnitude() == k
            &&& 0x20_0000_0000_0000 * (units(k) - t) <= t
        }),
{
    let g = units(grown.magnitude());
    let t = grown.value() + shift.value();
    let double = (grown.magnitude() + FRACTION) as nat;
    binary64::lemma_one();
    assert(units(double) == 2 * g);
    binary64::lemma_round_is_exact(double, 1);
    assert((2 * g) * 1 == 2 * g);
    binary64::rounding_keeps_order(t as nat, 2 * g, 1);
    let v = units(round_units(t as nat, 1));
    precision::rounding_is_close(t as nat, 1);
    assert(v * 1 == v);
}

/// Jitter moves a number from one up to two to the fifty-third by a tenth of it at most, give
/// or take one for the parts that are dropped.
proof fn lemma_moved(grown: Binary64, draw: Binary64)
    requires
        precision::from_one(grown),
        grown.magnitude() + FRACTION < INFINITE,
        units(grown.magnitude()) <= 0x20_0000_0000_0000 * pow2(UNIT_PLACES as nat),
        !draw.nan(),
        !draw.negative(),
        Binary64::one().above(draw),
    ensures
        ({
            let j = grown.sum(ExponentialBackoff::shift(grown, draw)).whole_part();
            let d = grown.whole_part();
            &&& 10 * (j - d) <= d + 10
            &&& 10 * (d - j) <= d + 10
        }),
{
    let unit = pow2(UNIT_PLACES as nat) as int;
    let shift = ExponentialBackoff::shift(grown, draw);
    let range = grown.product(Binary64 { bits: 0x3FB9_9999_9999_999A });
    let moved = grown.sum(shift);
    let g = units(grown.magnitude()) as int;
    let r = units(range.magnitude()) as int;
    lemma_pow2_pos(UNIT_PLACES as nat);
    lemma_range(grown);
    lemma_range_up(grown);
    lemma_shift(grown, draw);
    binary64::lemma_one();
    precision::lemma_units_from_one(grown);
    let t = g + shift.value();
    let k = round_units(t as nat, 1);
    let v = units(k) as int;
    lemma_sum(grown, shift);
    // The whole parts.
    let (d, j) = (g / unit, v / unit);
    vstd::arithmetic::div_mod::lemma_fundamental_div_mod(g, unit);
    vstd::arithmetic::div_mod::lemma_fundamental_div_mod(v, unit);
    assert(unit * d == d * unit && unit * j == j * unit) by (nonlinear_arith);
    assert((d + 1) * unit == d * unit + unit && (j + 1) * unit == j * unit + unit)
        by (nonlinear_arith);
    assert(0 <= d <= 0x20_0000_0000_0000) by (nonlinear_arith)
        requires
            0 <= g < (d + 1) * unit,
            d * unit <= 0x20_0000_0000_0000 * unit,
            unit > 0,
    ;
    assert(0 <= j) by (nonlinear_arith)
        requires
            0 <= v < (j + 1) * unit,
            unit > 0,
    ;
    lemma_gap(grown, d);
    assert(10 * v < 11 * ((d + 1) * unit));
    assert(10 * j < 11 * (d + 1)) by (nonlinear_arith)
        requires
            10 * v < 11 * ((d + 1) * unit),
            j * unit <= v,
            unit > 0,
    ;
    assert(10 * (j + 1) >= 9 * d) by {
        if 10 * (j + 1) < 9 * d {
            let next = (j + 1) as nat;
            binary64::whole_numbers_are_exact(next);
            if t >= (j + 1) * unit {
                binary64::rounding_keeps_order((next * unit) as nat, t as nat, 1);
                precision::lemma_units_in_order(Binary64::of_nat(next).magnitude(), k);
            }
            assert(10 * ((j + 1) * unit) <= 9 * (d * unit) - unit) by (nonlinear_arith)
                requires
                    10 * (j + 1) <= 9 * d - 1,
                    unit > 0,
            ;
        }
    }
    assert(grown.whole_part() == d);
    assert(moved.whole_part() == j);
}

/// Jitter leaves zero as it is.
proof fn lemma_no_jitter_of_zero(draw: Binary64)
    requires
        !draw.nan(),
        !draw.negative(),
        Binary64::one().above(draw),
    ensures
        ({
            let zero = Binary64 { bits: 0 };
            zero.sum(ExponentialBackoff::shift(zero, draw)).whole_part() == 0
        }),
{
    let zero = Binary64 { bits: 0 };
    let tenth = Binary64 { bits: 0x3FB9_9999_9999_999A };
    let two = Binary64 { bits: 0x4000_0000_0000_0000 };
    let unit = pow2(UNIT_PLACES as nat);
    lemma_pow2_pos(UNIT_PLACES as nat);
    lemma_tenth();
    lemma_two();
    binary64::zero_stays_zero(tenth);
    binary64::zero_stays_zero(two);
    assert(units(0) == 0);
    binary64::neutral_numbers(draw);
    assert(zero.product(tenth) == zero);
    assert(draw.product(zero) == zero);
    assert(zero.product(two) == zero);
    assert(ExponentialBackoff::shift(zero, draw).value() == 0);
    assert(0int / (unit as int) == 0) by (nonlinear_arith)
        requires
            unit > 0,
    ;
}

/// The doubles up to a limit of two to the fifty-third are far from infinity.
proof fn lemma_limit_is_low(limit: u64)
    requires
        limit <= 0x20_0000_0000_0000,
    ensures
        Binary64::of_nat(limit as nat).magnitude() + FRACTION < INFINITE,
{
    let top = 0x20_0000_0000_0000nat;
    let unit = pow2(UNIT_PLACES as nat);
    let m = (1076 * FRACTION) as nat;
    lemma2_to64();
    lemma2_to64_rest();
    binary64::lemma_units_of_fields(1076, 0);
    lemma_pow2_adds(52, 1075);
    lemma_pow2_adds(53, 1074);
    assert(units(m) == top * unit);
    binary64::lemma_round_is_exact(m, 1);
    assert(units(m) * 1 == units(m));
    assert(limit * unit <= top * unit) by (nonlinear_arith)
        requires
            limit <= top,
    ;
    binary64::rounding_keeps_order((limit * unit) as nat, (top * unit) as nat, 1);
}

/// Jitter moves a delay by a tenth of it at most, give or take one millisecond for the parts
/// of milliseconds that are dropped; so the limit may be passed by a tenth of it. Stated in
/// tenths of a millisecond.
pub proof fn jitter_moves_delays_by_a_tenth(
    b: ExponentialBackoff,
    attempt: u32,
    draw: Binary64,
    other_draw: Binary64,
)
    requires
        b.jitter,
        !b.multiplier.nan(),
        !Binary64::one().above(b.multiplier),
        1 <= attempt < 0x7FFF_FFFF,
        b.base_delay_ms <= 0x20_0000_0000_0000,
        b.max_delay_ms <= 0x20_0000_0000_0000,
        !draw.nan(),
        !draw.negative(),
        Binary64::one().above(draw),
    ensures
        ({
            let d = (ExponentialBackoff { jitter: false, ..b }).delay_at(attempt, other_draw);
            let j = b.delay_at(attempt, draw);
            &&& 10 * (j - d) <= d + 10
            &&& 10 * (d - j) <= d + 10
            &&& d <= b.max_delay_ms
        }),
{
    let plain = ExponentialBackoff { jitter: false, ..b };
    let limit = Binary64::of_nat(b.max_delay_ms as nat);
    let power = b.multiplier.whole_power(attempt - 1);
    let grown = b.grown(attempt);
    let unit = pow2(UNIT_PLACES as nat);
    lemma_pow2_pos(UNIT_PLACES as nat);
    precision::powers_do_not_fall(b.multiplier, (attempt - 1) as nat);
    precision::multiples_keep_order(b.base_delay_ms as nat, power, power);
    binary64::whole_numbers_are_exact(b.max_delay_ms as nat);
    binary64::one_is_one();
    binary64::zero_is_zero();
    assert(plain.grown(attempt) == grown);
    if b.max_delay_ms > 0 {
        binary64::whole_numbers_keep_order(1, b.max_delay_ms as nat);
    }
    if grown.bits == 0 {
        lemma_no_jitter_of_zero(draw);
    } else {
        assert(precision::from_one(grown));
        lemma_limit_is_low(b.max_delay_ms);
        binary64::order_is_that_of_values(grown, limit);
        assert(b.max_delay_ms * unit <= 0x20_0000_0000_0000 * unit) by (nonlinear_arith)
            requires
                b.max_delay_ms <= 0x20_0000_0000_0000,
        ;
        lemma_moved(grown, draw);
    }
    retry::delays_are_limited(plain, attempt, other_draw);
}

} // verus!
