//! What rounding leaves of the laws of arithmetic: how far a result can lie from the exact
//! one, and what keeps its order all the same.
use crate::binary64::{
    clamp, lemma_one, lemma_round_at_least, lemma_round_is_exact, lemma_round_scale,
    lemma_units_at_least, lemma_units_of_fields, lemma_whole_root, make, nearest, one_is_one,
    order_is_that_of_values, raise, round_root, round_units, rounding_keeps_order, units,
    units_increase, whole_numbers_are_exact,
    whole_numbers_are_finite, whole_numbers_keep_order, zero_is_zero, zero_stays_zero, Binary64,
    FRACTION, UNIT_PLACES,
};
use vstd::arithmetic::power2::*;
use vstd::prelude::*;

verus! {

/// Two to the fifty-third: what is rounded moves by no more than one part in so many.
pub const PARTS: u64 = 0x20_0000_0000_0000;

/// What is rounded moves by no more than half a unit, or by no more than one part in two to
/// the fifty-third.
pub proof fn rounding_is_close(n: nat, d: nat)
    requires
        d > 0,
    ensures
        ({
            let off = units(round_units(n, d)) * d - n;
            ||| (2 * off <= d && -(2 * off) <= d)
            ||| (PARTS * off <= n && -(PARTS * off) <= n)
        }),
    decreases n - d,
{
    let m = round_units(n, d);
    let off = units(m) * d - n;
    if n < d * 0x20_0000_0000_0000 {
        let q = n / d;
        let r = n % d;
        vstd::arithmetic::div_mod::lemma_fundamental_div_mod(n as int, d as int);
        assert(q < 0x20_0000_0000_0000) by (nonlinear_arith)
            requires
                d * q <= n,
                n < d * 0x20_0000_0000_0000,
                d > 0,
        ;
        assert(m == q || m == q + 1);
        assert(units(m) == m) by {
            if m == 0x20_0000_0000_0000 {
                assert(units(FRACTION as nat) == FRACTION);
            }
        }
        assert(q * d == d * q && (q + 1) * d == d * q + d) by (nonlinear_arith);
    } else {
        let l = round_units(n, 2 * d);
        rounding_is_close(n, 2 * d);
        lemma_round_at_least(n, 2 * d);
        assert(units(m) == 2 * units(l));
        assert((2 * units(l)) * d == units(l) * (2 * d)) by (nonlinear_arith);
    }
}

pub(crate) proof fn lemma_units_in_order(a: nat, b: nat)
    requires
        a <= b,
    ensures
        units(a) <= units(b),
{
    if a < b {
        units_increase(a, b);
    }
}

/// The next double lies more than one part in two to the fifty-third away.
pub proof fn doubles_lie_apart(m: nat)
    ensures
        PARTS * (units(m + 1) - units(m)) > units(m),
    decreases m,
{
    if m + 1 == 0x20_0000_0000_0000 {
        assert(units(FRACTION as nat) == FRACTION);
    } else if m >= 0x20_0000_0000_0000 {
        doubles_lie_apart((m - FRACTION) as nat);
        assert((m + 1 - FRACTION) as nat == (m - FRACTION) as nat + 1);
    }
}

/// Doubles do not lie closer together as they grow.
pub proof fn doubles_spread(m: nat)
    ensures
        units(m + 1) - units(m) <= units(m + 2) - units(m + 1),
    decreases m,
{
    if m >= 0x20_0000_0000_0000 {
        doubles_spread((m - FRACTION) as nat);
        assert((m + 1 - FRACTION) as nat == (m - FRACTION) as nat + 1);
        assert((m + 2 - FRACTION) as nat == (m - FRACTION) as nat + 2);
    } else if m + 2 >= 0x20_0000_0000_0000 {
        assert(units(FRACTION as nat) == FRACTION);
        assert(units((FRACTION + 1) as nat) == FRACTION + 1);
    }
}

/// A leading part, doubled some times, in units.
pub(crate) proof fn lemma_units_doubled(q: nat, k: nat)
    requires
        FRACTION <= q <= 2 * FRACTION,
    ensures
        units((k * FRACTION + q) as nat) == q * pow2(k),
    decreases k,
{
    lemma2_to64();
    if k == 0 {
        assert(q * 1 == q);
        if q == 2 * FRACTION {
            assert(units(FRACTION as nat) == FRACTION);
        }
    } else {
        let l = (k - 1) as nat;
        lemma_units_doubled(q, l);
        lemma_pow2_unfold(k);
        assert(k * FRACTION + q == l * FRACTION + q + FRACTION) by (nonlinear_arith)
            requires
                k == l + 1,
        ;
        assert(l * FRACTION >= 0) by (nonlinear_arith);
        assert(q * (2 * pow2(l)) == 2 * (q * pow2(l))) by (nonlinear_arith);
    }
}

/// A number from one up, perhaps infinite.
pub open spec fn from_one(x: Binary64) -> bool {
    !x.nan() && !x.negative() && x.magnitude() >= Binary64::one().magnitude()
}

proof fn lemma_product_from_one(x: Binary64, y: Binary64)
    requires
        from_one(x),
        from_one(y),
    ensures
        from_one(x.product(y)),
        x.magnitude() <= x.product(y).magnitude(),
        y.magnitude() <= x.product(y).magnitude(),
        Binary64::one().product(y) == y,
{
    let unit = pow2(UNIT_PLACES as nat);
    let (a, b) = (x.magnitude(), y.magnitude());
    lemma_pow2_pos(UNIT_PLACES as nat);
    lemma_one();
    if x.finite() && y.finite() {
        lemma_units_from_one(x);
        lemma_units_from_one(y);
        lemma_round_is_exact(a, unit);
        lemma_round_is_exact(b, unit);
        assert(units(a) * unit <= units(a) * units(b)) by (nonlinear_arith)
            requires
                unit <= units(b),
        ;
        assert(units(b) * unit <= units(a) * units(b)) by (nonlinear_arith)
            requires
                unit <= units(a),
        ;
        rounding_keeps_order(units(a) * unit, units(a) * units(b), unit);
        rounding_keeps_order(units(b) * unit, units(a) * units(b), unit);
    }
    if y.finite() {
        lemma_round_is_exact(b, unit);
        assert(unit * units(b) == units(b) * unit) by (nonlinear_arith);
    }
}

pub(crate) proof fn lemma_units_from_one(x: Binary64)
    requires
        from_one(x),
    ensures
        units(x.magnitude()) >= pow2(UNIT_PLACES as nat),
{
    lemma_one();
    if x.magnitude() > Binary64::one().magnitude() {
        units_increase(Binary64::one().magnitude(), x.magnitude());
    }
}

proof fn lemma_product_order(x: Binary64, z: Binary64, y: Binary64)
    requires
        from_one(x),
        from_one(y),
        from_one(z),
        x.magnitude() <= z.magnitude(),
    ensures
        x.product(y).magnitude() <= z.product(y).magnitude(),
{
    let unit = pow2(UNIT_PLACES as nat);
    let (a, b, c) = (x.magnitude(), y.magnitude(), z.magnitude());
    lemma_pow2_pos(UNIT_PLACES as nat);
    lemma_product_from_one(x, y);
    lemma_product_from_one(z, y);
    if z.finite() && y.finite() {
        if a < c {
            units_increase(a, c);
        }
        assert(units(a) * units(b) <= units(c) * units(b)) by (nonlinear_arith)
            requires
                units(a) <= units(c),
        ;
        rounding_keeps_order(units(a) * units(b), units(c) * units(b), unit);
    }
}

proof fn lemma_raise_from_one(r: Binary64, base: Binary64, n: nat)
    requires
        from_one(r),
        from_one(base),
    ensures
        from_one(raise(r, base, n)),
    decreases n,
{
    lemma_product_from_one(r, base);
    lemma_product_from_one(base, base);
    if n >= 2 {
        let next = if n % 2 == 1 {
            r.product(base)
        } else {
            r
        };
        lemma_raise_from_one(next, base.product(base), n / 2);
    }
}

proof fn lemma_raise_order(r: Binary64, s: Binary64, base: Binary64, n: nat)
    requires
        from_one(r),
        from_one(s),
        from_one(base),
        r.magnitude() <= s.magnitude(),
    ensures
        raise(r, base, n).magnitude() <= raise(s, base, n).magnitude(),
    decreases n,
{
    lemma_product_from_one(r, base);
    lemma_product_from_one(s, base);
    lemma_product_from_one(base, base);
    lemma_product_order(r, s, base);
    if n >= 2 {
        if n % 2 == 1 {
            lemma_raise_order(r.product(base), s.product(base), base.product(base), n / 2);
        } else {
            lemma_raise_order(r, s, base.product(base), n / 2);
        }
    }
}

/// A factor that is no more than the base does less than one more power of the base.
proof fn lemma_raise_step(r: Binary64, base: Binary64, n: nat)
    requires
        from_one(r),
        from_one(base),
        r.magnitude() <= base.magnitude(),
    ensures
        raise(r, base, n).magnitude() <= raise(Binary64::one(), base, n + 1).magnitude(),
    decreases n,
{
    let one = Binary64::one();
    let square = base.product(base);
    lemma_one();
    lemma_product_from_one(r, base);
    lemma_product_from_one(one, base);
    lemma_product_from_one(base, base);
    lemma_product_from_one(one, square);
    lemma_product_order(r, base, base);
    if n == 0 {
    } else if n % 2 == 0 {
        assert((n + 1) / 2 == n / 2);
        assert((n + 1) % 2 == 1);
        lemma_raise_order(r, base, square, n / 2);
    } else {
        assert((n + 1) / 2 == n / 2 + 1);
        assert((n + 1) % 2 == 0);
        if n == 1 {
            assert(raise(one, square, 1) == square);
        } else {
            lemma_raise_step(r.product(base), square, n / 2);
        }
    }
}

/// The powers of a number from one up are numbers from one up, and do not fall as the
/// exponent grows.
pub proof fn powers_do_not_fall(base: Binary64, n: nat)
    requires
        !base.nan(),
        !Binary64::one().above(base),
    ensures
        from_one(base.whole_power(n as int)),
        from_one(base.whole_power(n as int + 1)),
        !base.whole_power(n as int).above(base.whole_power(n as int + 1)),
        base.whole_power(0) == Binary64::one(),
{
    lemma_one();
    lemma_raise_from_one(Binary64::one(), base, n);
    lemma_raise_from_one(Binary64::one(), base, n + 1);
    lemma_raise_step(Binary64::one(), base, n);
}

/// A whole number times a number from one up is no less than times a lesser one; it may be
/// no number at all only for zero times infinity.
pub proof fn multiples_keep_order(n: nat, x: Binary64, y: Binary64)
    requires
        n <= 0x10_0000_0000_0000_0000,
        from_one(x),
        from_one(y),
        !x.above(y),
    ensures
        n > 0 ==> from_one(Binary64::of_nat(n).product(x)) && from_one(
            Binary64::of_nat(n).product(y),
        ) && !Binary64::of_nat(n).product(x).above(Binary64::of_nat(n).product(y)),
        n == 0 && x.finite() ==> Binary64::of_nat(n).product(x).bits == 0,
        n == 0 && x.infinite() ==> Binary64::of_nat(n).product(x).nan()
            && Binary64::of_nat(n).product(y).nan(),
        Binary64::of_nat(n).product(Binary64::one()) == Binary64::of_nat(n),
{
    let w = Binary64::of_nat(n);
    let unit = pow2(UNIT_PLACES as nat);
    lemma_pow2_pos(UNIT_PLACES as nat);
    lemma_one();
    one_is_one();
    lemma_products_commute(w, x);
    lemma_products_commute(w, y);
    lemma_products_commute(w, Binary64::one());
    if n > 0 {
        whole_numbers_keep_order(1, n);
        whole_numbers_are_finite(n);
        lemma_product_order(x, y, w);
        lemma_product_from_one(x, w);
        lemma_product_from_one(y, w);
    } else {
        zero_is_zero();
        assert(units(0) == 0);
        assert(0 * units(x.magnitude()) == 0);
        assert(0 * units(Binary64::one().magnitude()) == 0);
        assert(round_units(0, unit) == 0) by {
            assert(nearest(0, unit) == 0);
        }
    }
}

proof fn lemma_products_commute(x: Binary64, y: Binary64)
    ensures
        x.product(y) == y.product(x),
{
    let (a, b) = (units(x.magnitude()), units(y.magnitude()));
    assert(a * b == b * a) by (nonlinear_arith);
}

/// The opposites of two numbers are in the opposite order, and the opposite of an opposite is
/// the number.
pub proof fn opposites_turn_the_order(x: Binary64, y: Binary64)
    ensures
        x.above(y) <==> y.opposite().above(x.opposite()),
        x.opposite().opposite() == x,
        x.opposite().nan() == x.nan(),
        x.opposite().finite() == x.finite(),
        x.opposite().rank() == -x.rank(),
{
}

/// The rounded number of units, with its sign, keeps order.
proof fn lemma_signed_rounding(a: int, b: int)
    requires
        a <= b,
    ensures
        signed(a) <= signed(b),
{
    if a >= 0 {
        rounding_keeps_order(a as nat, b as nat, 1);
    } else if b <= 0 {
        rounding_keeps_order((-b) as nat, (-a) as nat, 1);
    }
}

/// The rank of what a number of units rounds to.
spec fn signed(s: int) -> int {
    if s >= 0 {
        clamp(round_units(s as nat, 1)) as int
    } else {
        -(clamp(round_units((-s) as nat, 1)) as int)
    }
}

proof fn lemma_sum_rank(x: Binary64, y: Binary64)
    requires
        x.finite(),
        y.finite(),
    ensures
        !x.sum(y).nan(),
        x.sum(y).rank() == signed(x.value() + y.value()),
{
    assert(round_units(0, 1) == 0) by {
        assert(nearest(0, 1) == 0);
    }
}

proof fn lemma_rank_of_value(x: Binary64)
    requires
        x.finite(),
    ensures
        signed(x.value()) == x.rank(),
{
    let m = x.magnitude();
    lemma_round_is_exact(m, 1);
    lemma_units_at_least(m);
    assert(units(m) * 1 == units(m));
    assert(round_units(0, 1) == 0) by {
        assert(nearest(0, 1) == 0);
    }
}

/// The greater of two numbers gives no lesser sum.
pub proof fn sums_keep_order(x: Binary64, y: Binary64, z: Binary64)
    requires
        x.finite(),
        y.finite(),
        z.finite(),
        !x.above(y),
    ensures
        !x.sum(z).above(y.sum(z)),
        !x.sum(z).nan(),
        !y.sum(z).nan(),
{
    order_is_that_of_values(x, y);
    lemma_sum_rank(x, z);
    lemma_sum_rank(y, z);
    lemma_signed_rounding(x.value() + z.value(), y.value() + z.value());
}

/// To add a number that is not negative, even an infinite one, does not make less; to add one
/// that is not positive does not make more.
pub proof fn sums_go_the_way_of_what_is_added(x: Binary64, y: Binary64)
    requires
        x.finite(),
        !y.nan(),
    ensures
        !x.sum(y).nan(),
        y.rank() >= 0 ==> !x.above(x.sum(y)),
        y.rank() <= 0 ==> !x.sum(y).above(x),
{
    if y.finite() {
        lemma_units_at_least(y.magnitude());
        lemma_sum_rank(x, y);
        lemma_rank_of_value(x);
        if y.rank() >= 0 {
            lemma_signed_rounding(x.value(), x.value() + y.value());
        }
        if y.rank() <= 0 {
            lemma_signed_rounding(x.value() + y.value(), x.value());
        }
    }
}

/// Over the greater of two positive numbers, a number that is not negative comes to no more.
pub proof fn quotients_turn_the_order(x: Binary64, y: Binary64, z: Binary64)
    requires
        x.finite() && !x.negative(),
        y.finite() && !y.negative() && !y.zero(),
        z.finite() && !z.negative() && !z.zero(),
        !y.above(z),
    ensures
        !x.quotient(z).above(x.quotient(y)),
        !x.quotient(z).nan() && !x.quotient(z).negative(),
        !x.quotient(y).nan() && !x.quotient(y).negative(),
{
    let unit = pow2(UNIT_PLACES as nat);
    let n = units(x.magnitude()) * unit;
    let (a, b) = (units(y.magnitude()), units(z.magnitude()));
    lemma_units_at_least(y.magnitude());
    lemma_units_at_least(z.magnitude());
    order_is_that_of_values(y, z);
    assert(n * a <= n * b && a * b > 0 && b * a == a * b) by (nonlinear_arith)
        requires
            0 < a <= b,
            n >= 0,
    ;
    lemma_round_scale(n, a, b);
    lemma_round_scale(n, b, a);
    rounding_keeps_order(n * a, n * b, a * b);
}

/// Of two numbers that are not negative, the greater one over the same positive number comes
/// to no less.
pub proof fn quotients_keep_order(x: Binary64, y: Binary64, z: Binary64)
    requires
        x.finite() && !x.negative(),
        y.finite() && !y.negative(),
        z.finite() && !z.negative() && !z.zero(),
        !x.above(y),
    ensures
        !x.quotient(z).above(y.quotient(z)),
        !x.quotient(z).nan() && !x.quotient(z).negative(),
        !y.quotient(z).nan() && !y.quotient(z).negative(),
{
    let unit = pow2(UNIT_PLACES as nat);
    lemma_units_at_least(z.magnitude());
    order_is_that_of_values(x, y);
    let (a, b) = (units(x.magnitude()), units(y.magnitude()));
    assert(a * unit <= b * unit) by (nonlinear_arith)
        requires
            a <= b,
    ;
    rounding_keeps_order(a * unit, b * unit, units(z.magnitude()));
}

/// Of two numbers that are not negative, the greater one times the same number that is not
/// negative comes to no less.
pub proof fn products_keep_order(x: Binary64, y: Binary64, z: Binary64)
    requires
        x.finite() && !x.negative(),
        y.finite() && !y.negative(),
        z.finite() && !z.negative(),
        !x.above(y),
    ensures
        !z.product(x).above(z.product(y)),
        !z.product(x).nan() && !z.product(x).negative(),
        !z.product(y).nan() && !z.product(y).negative(),
{
    let unit = pow2(UNIT_PLACES as nat);
    lemma_pow2_pos(UNIT_PLACES as nat);
    order_is_that_of_values(x, y);
    let (a, b, c) = (units(x.magnitude()), units(y.magnitude()), units(z.magnitude()));
    assert(c * a <= c * b) by (nonlinear_arith)
        requires
            a <= b,
    ;
    rounding_keeps_order(c * a, c * b, unit);
}

/// It does not matter which of two numbers is added to which.
pub proof fn sums_commute(x: Binary64, y: Binary64)
    ensures
        x.sum(y) == y.sum(x),
{
}

/// A number over a positive one has its sign.
pub proof fn quotients_keep_signs(x: Binary64, y: Binary64)
    requires
        !x.nan(),
        y.finite() && !y.negative() && !y.zero(),
    ensures
        !x.quotient(y).nan(),
        x.rank() >= 0 ==> x.quotient(y).rank() >= 0,
        x.rank() <= 0 ==> x.quotient(y).rank() <= 0,
{
    lemma_units_at_least(y.magnitude());
    lemma_units_at_least(x.magnitude());
    if x.zero() {
        let unit = pow2(UNIT_PLACES as nat);
        let d = units(y.magnitude());
        assert(0 * unit == 0);
        assert(round_units(0, d) == 0) by {
            vstd::arithmetic::div_mod::lemma_div_basics(d as int);
            vstd::arithmetic::div_mod::lemma_small_mod(0, d);
            assert(nearest(0, d) == 0);
        }
    }
}

/// A difference is not negative if the first number is not below the second, and not positive
/// if it is not above it.
pub proof fn differences_show_the_order(x: Binary64, y: Binary64)
    requires
        x.finite(),
        y.finite(),
    ensures
        !x.sum(y.opposite()).nan(),
        !y.above(x) ==> x.sum(y.opposite()).rank() >= 0,
        !x.above(y) ==> x.sum(y.opposite()).rank() <= 0,
{
    order_is_that_of_values(x, y);
    order_is_that_of_values(y, x);
    lemma_sum_rank(x, y.opposite());
    assert(y.opposite().value() == -y.value());
    let s = x.value() - y.value();
    if s >= 0 {
        lemma_signed_rounding(0, s);
    }
    if s <= 0 {
        lemma_signed_rounding(s, 0);
    }
    assert(round_units(0, 1) == 0) by {
        assert(nearest(0, 1) == 0);
    }
}

/// A number times one that is not negative has its sign, as long as it is not infinity times
/// zero.
pub proof fn products_keep_signs(x: Binary64, y: Binary64)
    requires
        !x.nan(),
        y.finite() && !y.negative(),
        x.finite() || !y.zero(),
    ensures
        !x.product(y).nan(),
        x.rank() >= 0 ==> x.product(y).rank() >= 0,
        x.rank() <= 0 ==> x.product(y).rank() <= 0,
{
    if x.zero() {
        let unit = pow2(UNIT_PLACES as nat);
        lemma_pow2_pos(UNIT_PLACES as nat);
        assert(units(0) == 0);
        assert(0 * units(y.magnitude()) == 0);
        assert(round_units(0, unit) == 0) by {
            vstd::arithmetic::div_mod::lemma_div_basics(unit as int);
            vstd::arithmetic::div_mod::lemma_small_mod(0, unit);
            assert(nearest(0, unit) == 0);
        }
    }
}

/// It does not matter which of two numbers is multiplied by which.
pub proof fn products_commute(x: Binary64, y: Binary64)
    ensures
        x.product(y) == y.product(x),
{
    lemma_products_commute(x, y);
}

/// The sum of two numbers of one sign has that sign.
pub proof fn sums_keep_signs(x: Binary64, y: Binary64)
    requires
        !x.nan(),
        !y.nan(),
        x.rank() >= 0 && y.rank() >= 0 || x.rank() <= 0 && y.rank() <= 0,
    ensures
        !x.sum(y).nan(),
        x.rank() >= 0 && y.rank() >= 0 ==> x.sum(y).rank() >= 0,
        x.rank() <= 0 && y.rank() <= 0 ==> x.sum(y).rank() <= 0,
{
    lemma_units_at_least(x.magnitude());
    lemma_units_at_least(y.magnitude());
}

/// Of the same number, the greater count is no lesser share; all of them are one, and none of
/// them zero.
pub proof fn shares_follow_counts(a: nat, b: nat, n: nat)
    requires
        a <= b <= n,
        0 < n <= 0x20_0000_0000_0000,
    ensures
        !Binary64::of_nat(a).quotient(Binary64::of_nat(n)).above(
            Binary64::of_nat(b).quotient(Binary64::of_nat(n)),
        ),
        Binary64::of_nat(n).quotient(Binary64::of_nat(n)) == Binary64::one(),
        Binary64::of_nat(0).quotient(Binary64::of_nat(n)) == (Binary64 { bits: 0 }),
{
    whole_numbers_are_finite(n);
    whole_numbers_are_finite(a);
    whole_numbers_are_finite(b);
    whole_numbers_keep_order(a, b);
    quotients_keep_order(Binary64::of_nat(a), Binary64::of_nat(b), Binary64::of_nat(n));
    over_itself_is_one(Binary64::of_nat(n));
    zero_is_zero();
    zero_stays_zero(Binary64::of_nat(n));
}

/// A positive number over itself is one.
pub proof fn over_itself_is_one(x: Binary64)
    requires
        x.finite() && !x.negative() && !x.zero(),
    ensures
        x.quotient(x) == Binary64::one(),
{
    let unit = pow2(UNIT_PLACES as nat);
    let u = units(x.magnitude());
    lemma_one();
    lemma_units_at_least(x.magnitude());
    lemma_round_is_exact(Binary64::one().magnitude(), u);
    assert(unit * u == u * unit) by (nonlinear_arith);
}

/// The next double lies no more than one part in two to the fifty-second away.
pub proof fn doubles_lie_close(m: nat)
    requires
        m >= FRACTION,
    ensures
        FRACTION * (units(m + 1) - units(m)) <= units(m),
    decreases m,
{
    if m + 1 == 0x20_0000_0000_0000 {
        assert(units(FRACTION as nat) == FRACTION);
    } else if m >= 0x20_0000_0000_0000 {
        doubles_lie_close((m - FRACTION) as nat);
        assert((m + 1 - FRACTION) as nat == (m - FRACTION) as nat + 1);
    }
}

/// The rounded ratio of two whole numbers is above a double that is itself a ratio of small
/// whole numbers exactly if the ratio is.
pub proof fn ratios_are_told_apart(a: nat, b: nat, x: Binary64, p: nat, q: nat)
    requires
        a <= 0x20_0000_0000_0000,
        0 < b <= 0x20_0000_0000_0000,
        p > 0,
        q > 0,
        p * b <= FRACTION,
        x.finite() && !x.negative() && x.magnitude() >= FRACTION,
        x.value() * q == p * pow2(UNIT_PLACES as nat),
    ensures
        Binary64::of_nat(a).quotient(Binary64::of_nat(b)).above(x) <==> a * q > p * b,
{
    let unit = pow2(UNIT_PLACES as nat);
    let m = x.magnitude();
    let v = units(m);
    lemma_pow2_pos(UNIT_PLACES as nat);
    whole_numbers_are_exact(a);
    whole_numbers_are_exact(b);
    whole_numbers_are_finite(b);
    let n = (a * unit) * unit;
    let d = b * unit;
    assert(d > 0) by (nonlinear_arith)
        requires
            d == b * unit,
            b > 0,
            unit > 0,
    ;
    let r = round_units(n, d);
    assert(Binary64::of_nat(a).quotient(Binary64::of_nat(b)) == make(false, clamp(r)));
    lemma_round_is_exact(m, d);
    if a * q <= p * b {
        assert(n <= v * d) by (nonlinear_arith)
            requires
                n == (a * unit) * unit,
                d == b * unit,
                a * q <= p * b,
                v * q == p * unit,
                q > 0,
                unit > 0,
        ;
        rounding_keeps_order(n, v * d, d);
    } else {
        let w = units(m + 1);
        doubles_lie_close(m);
        lemma_round_is_exact(m + 1, d);
        let gap = w - v;
        let f = FRACTION as int;
        assert(q * gap * b <= unit) by (nonlinear_arith)
            requires
                f * gap <= v,
                v * q == p * unit,
                p * b <= f,
                f > 0,
                q > 0,
                b > 0,
                unit > 0,
        ;
        assert(w * d <= n) by (nonlinear_arith)
            requires
                n == (a * unit) * unit,
                d == b * unit,
                a * q >= p * b + 1,
                v * q == p * unit,
                w == v + gap,
                q * gap * b <= unit,
                q > 0,
                unit > 0,
        ;
        rounding_keeps_order(w * d, n, d);
    }
}

/// A whole number times another, over the other, is the number.
pub proof fn multiples_divide_evenly(n: nat, d: nat)
    requires
        0 < d,
        n * d <= 0x20_0000_0000_0000,
    ensures
        Binary64::of_nat(n * d).quotient(Binary64::of_nat(d)) == Binary64::of_nat(n),
{
    let unit = pow2(UNIT_PLACES as nat);
    lemma_pow2_pos(UNIT_PLACES as nat);
    assert(n <= n * d && (n > 0 ==> d <= n * d)) by (nonlinear_arith)
        requires
            d > 0,
            n >= 0,
    ;
    if n == 0 {
        assert(0 * d == 0);
        zero_is_zero();
        lemma_zero_over(d);
    } else {
        whole_numbers_are_exact(n * d);
        whole_numbers_are_exact(n);
        whole_numbers_are_exact(d);
        whole_numbers_are_finite(d);
        let m = Binary64::of_nat(n).magnitude();
        let e = d * unit;
        assert(e > 0) by (nonlinear_arith)
            requires
                e == d * unit,
                d > 0,
                unit > 0,
        ;
        lemma_round_is_exact(m, e);
        assert((n * d) * unit * unit == (n * unit) * e) by (nonlinear_arith)
            requires
                e == d * unit,
        ;
    }
}

proof fn lemma_zero_over(d: nat)
    requires
        d > 0,
    ensures
        (Binary64 { bits: 0 }).quotient(Binary64::of_nat(d)) == (Binary64 { bits: 0 }),
{
    let unit = pow2(UNIT_PLACES as nat);
    lemma_pow2_pos(UNIT_PLACES as nat);
    let m = round_units(d * unit, 1);
    let x = Binary64::of_nat(d);
    assert(unit <= d * unit) by (nonlinear_arith)
        requires
            d >= 1,
    ;
    rounding_keeps_order(unit, d * unit, 1);
    one_is_one();
    assert(1 * unit == unit);
    assert(x.magnitude() > 0 && !x.negative() && !x.nan());
    if x.finite() {
        zero_stays_zero(x);
    }
}

/// The size of a number over a positive one is that of the ratio.
pub proof fn sizes_divide(x: Binary64, y: Binary64)
    requires
        !x.nan(),
        y.finite() && !y.negative() && !y.zero(),
    ensures
        x.size().quotient(y) == x.quotient(y).size(),
{
    assert(x.size().magnitude() == x.magnitude());
}

/// A factor of one at most does not make more.
pub proof fn at_most_one_does_not_raise(x: Binary64, y: Binary64)
    requires
        x.finite() && !x.negative() && !x.above(Binary64::one()),
        y.finite() && !y.negative(),
    ensures
        x.product(y).finite(),
        !x.product(y).above(y),
{
    let unit = pow2(UNIT_PLACES as nat);
    let (a, b) = (units(x.magnitude()), units(y.magnitude()));
    lemma_pow2_pos(UNIT_PLACES as nat);
    lemma_one();
    lemma_units_in_order(x.magnitude(), Binary64::one().magnitude());
    assert(a * b <= b * unit) by (nonlinear_arith)
        requires
            a <= unit,
    ;
    rounding_keeps_order(a * b, b * unit, unit);
    lemma_round_is_exact(y.magnitude(), unit);
}

/// Zero times a finite number adds nothing to zero.
pub proof fn zero_times_anything(x: Binary64)
    requires
        x.finite(),
    ensures
        (Binary64 { bits: 0 }).sum((Binary64 { bits: 0 }).product(x)) == (Binary64 { bits: 0 }),
{
    let unit = pow2(UNIT_PLACES as nat);
    lemma_pow2_pos(UNIT_PLACES as nat);
    assert(units(0) == 0);
    assert(0 * units(x.magnitude()) == 0);
    assert(round_units(0, unit) == 0) by {
        vstd::arithmetic::div_mod::lemma_div_basics(unit as int);
        vstd::arithmetic::div_mod::lemma_small_mod(0, unit);
        assert(nearest(0, unit) == 0);
    }
}

/// A power with a negative exponent is one over the power.
pub proof fn negative_powers_are_reciprocals(x: Binary64, n: nat)
    requires
        n > 0,
    ensures
        x.whole_power(-(n as int)) == Binary64::one().quotient(x.whole_power(n as int)),
{
}

/// The root of the square of a double is the double.
proof fn lemma_root_is_exact(m: nat, d: nat)
    requires
        d > 0,
    ensures
        round_root((units(m) * d) * (units(m) * d), d) == m,
    decreases m,
{
    let u = units(m);
    let n = (u * d) * (u * d);
    let top = d * 0x20_0000_0000_0000;
    if m < 0x20_0000_0000_0000 {
        assert(n < top * top) by (nonlinear_arith)
            requires
                n == (u * d) * (u * d),
                top == d * 0x20_0000_0000_0000,
                0 <= u < 0x20_0000_0000_0000,
                d > 0,
        ;
        let e = d * d;
        assert(e > 0 && n == (u * u) * e) by (nonlinear_arith)
            requires
                n == (u * d) * (u * d),
                e == d * d,
                d > 0,
        ;
        vstd::arithmetic::div_mod::lemma_div_multiples_vanish((u * u) as int, e as int);
        assert((u * u) * e == e * (u * u)) by (nonlinear_arith);
        vstd::arithmetic::div_mod::lemma_div_by_multiple((u * u) as int, e as int);
        assert(u * u < (u + 1) * (u + 1)) by (nonlinear_arith)
            requires
                u >= 0,
        ;
        lemma_whole_root(u * u, u);
        let h = (2 * u + 1) * d;
        assert(4 * n < h * h) by (nonlinear_arith)
            requires
                n == (u * d) * (u * d),
                h == (2 * u + 1) * d,
                d > 0,
                u >= 0,
        ;
    } else {
        let l = (m - FRACTION) as nat;
        let v = units(l);
        lemma_units_at_least(l);
        lemma_root_is_exact(l, 2 * d);
        assert(n >= top * top) by (nonlinear_arith)
            requires
                n == (u * d) * (u * d),
                u == 2 * v,
                v >= 0x10_0000_0000_0000,
                top == d * 0x20_0000_0000_0000,
                d > 0,
        ;
        assert(u * d == v * (2 * d)) by (nonlinear_arith)
            requires
                u == 2 * v,
        ;
    }
}

/// The root of a square of a whole number is the number, as long as doubles are exact.
pub proof fn roots_of_squares_are_exact(n: nat)
    requires
        n * n <= 0x20_0000_0000_0000,
    ensures
        Binary64::of_nat(n * n).root() == Binary64::of_nat(n),
{
    let unit = pow2(UNIT_PLACES as nat);
    lemma_pow2_pos(UNIT_PLACES as nat);
    assert(n <= n * n) by (nonlinear_arith)
        requires
            n >= 0,
    ;
    whole_numbers_are_exact(n);
    whole_numbers_are_exact(n * n);
    whole_numbers_are_finite(n * n);
    let m = Binary64::of_nat(n).magnitude();
    if n == 0 {
        assert(0 * 0 == 0);
        zero_is_zero();
    } else {
        assert(n * n > 0) by (nonlinear_arith)
            requires
                n > 0,
        ;
        lemma_root_is_exact(m, 1);
        assert(units(m) * 1 == units(m));
        assert((n * n) * unit * unit == (n * unit) * (n * unit)) by (nonlinear_arith);
    }
}

/// Whole numbers are taken from each other exactly, as long as doubles are exact.
pub proof fn whole_numbers_subtract(a: nat, b: nat)
    requires
        a <= 0x20_0000_0000_0000,
        b <= 0x20_0000_0000_0000,
    ensures
        b <= a ==> Binary64::of_nat(a).sum(Binary64::of_nat(b).opposite()) == Binary64::of_nat(
            (a - b) as nat,
        ),
        a < b ==> Binary64::of_nat(a).sum(Binary64::of_nat(b).opposite()) == Binary64::of_nat(
            (b - a) as nat,
        ).opposite(),
{
    let unit = pow2(UNIT_PLACES as nat);
    lemma_pow2_pos(UNIT_PLACES as nat);
    whole_numbers_are_exact(a);
    whole_numbers_are_exact(b);
    assert(a * unit - b * unit == (a - b) * unit) by (nonlinear_arith);
    assert(b * unit - a * unit == (b - a) * unit) by (nonlinear_arith);
    assert((a - b) * unit > 0 <==> a > b) by (nonlinear_arith)
        requires
            unit > 0,
    ;
    assert((b - a) * unit > 0 <==> b > a) by (nonlinear_arith)
        requires
            unit > 0,
    ;
    if a == b {
        zero_is_zero();
    } else if a < b {
        whole_numbers_are_exact((b - a) as nat);
    } else {
        whole_numbers_are_exact((a - b) as nat);
    }
}

/// More than a half, of whole numbers, is told exactly.
pub proof fn halves_are_told_apart(a: nat, b: nat)
    requires
        a <= b,
        0 < b <= FRACTION,
    ensures
        Binary64::of_nat(a).quotient(Binary64::of_nat(b)).above(
            (Binary64 { bits: 0x3FE0_0000_0000_0000 }),
        ) <==> 2 * a > b,
{
    let half = Binary64 { bits: 0x3FE0_0000_0000_0000 };
    let unit = pow2(UNIT_PLACES as nat);
    lemma2_to64();
    lemma2_to64_rest();
    lemma_units_of_fields(0x3FE, 0);
    lemma_pow2_adds(52, 1021);
    lemma_pow2_unfold(1074);
    assert(half.value() * 2 == 1 * unit);
    ratios_are_told_apart(a, b, half, 1, 2);
}

} // verus!
