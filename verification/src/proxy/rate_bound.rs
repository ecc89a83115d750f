//! How many requests a token bucket lets through over time.
use super::middleware;
use super::middleware::{bucket_of, seconds, since, TokenBucket};
use crate::binary64;
use crate::binary64::{round_units, units, Binary64, INFINITE, UNIT_PLACES};
use crate::config::ProxyConfig;
use crate::precision;
use crate::precision::PARTS;
use vstd::arithmetic::power2::{lemma_pow2_pos, pow2};
use vstd::prelude::*;

verus! {

impl TokenBucket {
    /// The bucket after requests at these times, in order.
    pub open spec fn after_calls(self, times: Seq<u64>) -> TokenBucket
        decreases times.len(),
    {
        if times.len() == 0 {
            self
        } else {
            self.after_calls(times.drop_last()).after(times.last())
        }
    }

    /// How many of the requests at these times are let through.
    pub open spec fn admitted(self, times: Seq<u64>) -> nat
        decreases times.len(),
    {
        if times.len() == 0 {
            0
        } else {
            self.admitted(times.drop_last()) + if self.after_calls(times.drop_last()).admits(
                times.last(),
            ) {
                1nat
            } else {
                0
            }
        }
    }
}

/// A rounded sum is at most one part in two to the fifty-third more than the exact one.
proof fn lemma_round_up(n: nat)
    ensures
        PARTS * units(round_units(n, 1)) <= (PARTS + 1) * n,
{
    precision::rounding_is_close(n, 1);
    let v = units(round_units(n, 1));
    assert(v * 1 == v);
}

/// A time in seconds is at most two such parts more than it is.
proof fn lemma_seconds_up(nanos: u64)
    ensures
        (PARTS * PARTS) * (1_000_000_000 * units(seconds(nanos).magnitude())) <= ((PARTS + 1) * (
        PARTS + 1)) * (nanos * pow2(UNIT_PLACES as nat)),
{
    let unit = pow2(UNIT_PLACES as nat);
    let w = (nanos / 1_000_000_000) as nat;
    let f = (nanos % 1_000_000_000) as nat;
    let whole = Binary64::of_nat(w);
    let nano = Binary64::of_nat(f);
    let scale = Binary64::of_nat(1_000_000_000);
    lemma_pow2_pos(UNIT_PLACES as nat);
    binary64::whole_numbers_are_exact(w);
    binary64::whole_numbers_are_exact(f);
    binary64::whole_numbers_are_exact(1_000_000_000);
    middleware::lemma_seconds(nanos);
    let part = nano.quotient(scale);
    let d = 1_000_000_000 * unit;
    let p = units(part.magnitude());
    binary64::order_is_that_of_values(nano, scale);
    assert(f * unit <= d) by (nonlinear_arith)
        requires
            f <= 1_000_000_000,
            d == 1_000_000_000 * unit,
    ;
    binary64::shares_are_at_most_one(nano, scale);
    // The part of a second.
    let n = (f * unit) * unit;
    precision::rounding_is_close(n, d);
    let full = units(round_units(n, d));
    assert(p == full);
    let off = full * d - n;
    assert(PARTS * off <= n) by {
        if 2 * off <= d {
            if f == 0 {
                assert(n == 0) by (nonlinear_arith)
                    requires
                        f == 0,
                        n == (f * unit) * unit,
                ;
                assert(round_units(0, d) == 0) by {
                    vstd::arithmetic::div_mod::lemma_div_basics(d as int);
                    vstd::arithmetic::div_mod::lemma_small_mod(0, d);
                    assert(binary64::nearest(0, d) == 0);
                }
                assert(0 * d == 0);
            } else {
                lemma_unit_is_small();
                assert(0x10_0000_0000_0000 * d <= n) by (nonlinear_arith)
                    requires
                        d == 1_000_000_000 * unit,
                        n == (f * unit) * unit,
                        f >= 1,
                        unit >= 0x10_0000_0000_0000 * 1_000_000_000,
                ;
            }
        }
    }
    assert(PARTS * (1_000_000_000 * p) <= (PARTS + 1) * (f * unit)) by (nonlinear_arith)
        requires
            PARTS * (p * d - n) <= n,
            d == 1_000_000_000 * unit,
            n == (f * unit) * unit,
            unit > 0,
    ;
    // The whole seconds with it.
    let s = (w * unit + p) as nat;
    binary64::lemma_units_at_least(part.magnitude());
    lemma_round_up(s);
    if s == 0 {
        binary64::lemma_units_at_least(0);
    }
    let t = units(seconds(nanos).magnitude());
    assert(PARTS * t <= (PARTS + 1) * s);
    assert((PARTS * PARTS) * (1_000_000_000 * t) <= ((PARTS + 1) * (PARTS + 1)) * (nanos * unit))
        by (nonlinear_arith)
        requires
            PARTS * t <= (PARTS + 1) * (w * unit + p),
            PARTS * (1_000_000_000 * p) <= (PARTS + 1) * (f * unit),
            nanos == w * 1_000_000_000 + f,
            PARTS == 0x20_0000_0000_0000,
    ;
}

/// One is far more than a unit.
proof fn lemma_unit_is_small()
    ensures
        pow2(UNIT_PLACES as nat) >= 0x10_0000_0000_0000 * 1_000_000_000,
{
    vstd::arithmetic::power2::lemma2_to64();
    vstd::arithmetic::power2::lemma2_to64_rest();
    vstd::arithmetic::power2::lemma_pow2_adds(52, 30);
    vstd::arithmetic::power2::lemma_pow2_strictly_increases(82, 1074);
}

/// A sum, limited by a capacity, is no more than the sum is before the limits of the range.
proof fn lemma_limited_sum(x: Binary64, m: nat, capacity: Binary64)
    requires
        x.finite() && !x.negative(),
        capacity.finite() && !capacity.negative(),
    ensures
        ({
            let r = x.sum(binary64::make(false, binary64::clamp(m))).lesser(capacity);
            &&& r.finite() && !r.negative()
            &&& r.magnitude() <= round_units(units(x.magnitude()) + units(m), 1)
            &&& r.magnitude() <= capacity.magnitude()
            &&& r.magnitude() == capacity.magnitude() || r.magnitude() == round_units(
                units(x.magnitude()) + units(m),
                1,
            )
        }),
{
    let gain = binary64::make(false, binary64::clamp(m));
    let (t, g) = (units(x.magnitude()), units(m));
    let z = round_units(t + g, 1);
    assert(gain.magnitude() == binary64::clamp(m) && !gain.negative());
    binary64::lemma_round_is_exact(m, 1);
    assert(g * 1 == g);
    binary64::rounding_keeps_order(g, t + g, 1);
    let sum = x.sum(gain);
    if m < INFINITE {
        if t + g == 0 {
            assert(sum.magnitude() == 0 && !sum.negative());
        } else {
            assert(sum == binary64::make(false, binary64::clamp(z)));
        }
    } else {
        assert(sum == gain);
    }
    assert(!sum.nan() && !sum.negative() && sum.magnitude() <= z);
}

/// A refilled bucket holds no more than what was in it and what the time brought, before
/// either is limited.
proof fn lemma_refill_rounded(b: TokenBucket, rate: u32, now: u64, brought: nat, filled: nat)
    requires
        b.sound(),
        b.refill_rate == Binary64::of_nat(rate as nat),
        brought == units(
            round_units(
                (units(seconds(since(b.last_refill, now)).magnitude()) * rate) as nat,
                1,
            ),
        ),
        filled == units(round_units(units(b.tokens.magnitude()) + brought, 1)),
    ensures
        b.refilled(now).finite(),
        !b.refilled(now).negative(),
        units(b.refilled(now).magnitude()) <= filled,
        units(b.refilled(now).magnitude()) <= units(b.capacity.magnitude()),
        b.refilled(now).magnitude() == b.capacity.magnitude() || units(
            b.refilled(now).magnitude(),
        ) == filled,
{
    let elapsed = since(b.last_refill, now);
    let unit = pow2(UNIT_PLACES as nat);
    let s = units(seconds(elapsed).magnitude());
    let t = units(b.tokens.magnitude());
    let r = rate as nat;
    lemma_pow2_pos(UNIT_PLACES as nat);
    middleware::lemma_seconds(elapsed);
    binary64::whole_numbers_are_exact(r);
    let gain = seconds(elapsed).product(b.refill_rate);
    assert(s * (r * unit) == (s * r) * unit) by (nonlinear_arith);
    binary64::lemma_round_scale(s * r, 1, unit);
    assert(1 * unit == unit);
    let m = round_units(s * r, 1);
    assert(gain == binary64::make(false, binary64::clamp(m)));
    lemma_limited_sum(b.tokens, m, b.capacity);
    precision::lemma_units_in_order(b.refilled(now).magnitude(), round_units(t + brought, 1));
    precision::lemma_units_in_order(b.refilled(now).magnitude(), b.capacity.magnitude());
}

/// What a bucket holds once it is refilled, beyond what it held and what the time brought,
/// is five parts of its capacity at most.
proof fn lemma_refill_up(b: TokenBucket, burst: u32, rate: u32, now: u64)
    requires
        b.sound(),
        b.capacity == Binary64::of_nat(burst as nat),
        b.refill_rate == Binary64::of_nat(rate as nat),
    ensures
        ({
            let unit = pow2(UNIT_PLACES as nat);
            let t = units(b.tokens.magnitude());
            let r = units(b.refilled(now).magnitude());
            let x = 1_000_000_000 * t + (rate * since(b.last_refill, now)) * unit;
            &&& b.refilled(now).finite() && !b.refilled(now).negative()
            &&& r <= burst * unit
            &&& PARTS * (1_000_000_000 * r) <= PARTS * x + 5_000_000_000 * (burst * unit)
        }),
{
    let elapsed = since(b.last_refill, now);
    let unit = pow2(UNIT_PLACES as nat);
    let t = units(b.tokens.magnitude());
    let s = units(seconds(elapsed).magnitude());
    let brought = units(round_units((s * rate) as nat, 1));
    let filled = units(round_units(t + brought, 1));
    let r = units(b.refilled(now).magnitude());
    let a = (rate * elapsed) * unit;
    let x = 1_000_000_000 * t + a;
    let c = burst * unit;
    lemma_refill_rounded(b, rate, now, brought, filled);
    binary64::whole_numbers_are_exact(burst as nat);
    lemma_seconds_up(elapsed);
    lemma_round_up((s * rate) as nat);
    lemma_round_up(t + brought);
    lemma_chain(
        elapsed as int,
        unit as int,
        s as int,
        rate as int,
        brought as int,
        t as int,
        filled as int,
    );
    assert(a == rate * (elapsed * unit)) by (nonlinear_arith)
        requires
            a == (rate * elapsed) * unit,
    ;
    assert(0 <= a) by (nonlinear_arith)
        requires
            a == (rate * elapsed) * unit,
            rate >= 0,
            elapsed >= 0,
            unit >= 0,
    ;
    if x >= 1_000_000_000 * c {
        assert(0 <= c) by (nonlinear_arith)
            requires
                c == burst * unit,
                burst >= 0,
                unit >= 0,
        ;
    }
}

/// Rounding up four times.
proof fn lemma_chain(elapsed: int, unit: int, s: int, rate: int, brought: int, t: int, filled: int)
    requires
        elapsed >= 0,
        unit >= 0,
        s >= 0,
        rate >= 0,
        brought >= 0,
        t >= 0,
        (PARTS * PARTS) * (1_000_000_000 * s) <= ((PARTS + 1) * (PARTS + 1)) * (elapsed * unit),
        PARTS * brought <= (PARTS + 1) * (s * rate),
        PARTS * filled <= (PARTS + 1) * (t + brought),
    ensures
        PARTS * (1_000_000_000 * filled) <= (PARTS + 5) * (1_000_000_000 * t + rate * (elapsed
            * unit)),
{
    let p = PARTS as int;
    let q = p + 1;
    let time = elapsed * unit;
    assert(time >= 0) by (nonlinear_arith)
        requires
            time == elapsed * unit,
            elapsed >= 0,
            unit >= 0,
    ;
    let sr = s * rate;
    let tr = rate * time;
    assert((p * p) * (1_000_000_000 * sr) <= (q * q) * tr) by (nonlinear_arith)
        requires
            (p * p) * (1_000_000_000 * s) <= (q * q) * time,
            sr == s * rate,
            tr == rate * time,
            rate >= 0,
    ;
    assert(tr >= 0) by (nonlinear_arith)
        requires
            tr == rate * time,
            rate >= 0,
            time >= 0,
    ;
    let ub = 1_000_000_000 * brought;
    let ut = 1_000_000_000 * t;
    let uz = 1_000_000_000 * filled;
    let us = 1_000_000_000 * sr;
    assert(p * ub <= q * us) by (nonlinear_arith)
        requires
            p * brought <= q * sr,
            ub == 1_000_000_000 * brought,
            us == 1_000_000_000 * sr,
    ;
    assert(p * uz <= q * (ut + ub)) by (nonlinear_arith)
        requires
            p * filled <= q * (t + brought),
            uz == 1_000_000_000 * filled,
            ut == 1_000_000_000 * t,
            ub == 1_000_000_000 * brought,
    ;
    assert((p * p * p) * ut <= (q * q * q) * ut) by (nonlinear_arith)
        requires
            0 < p <= q,
            ut >= 0,
    ;
    assert((p * p * p) * ub <= (q * q * q) * tr) by (nonlinear_arith)
        requires
            p * ub <= q * us,
            (p * p) * us <= (q * q) * tr,
            p > 0,
            q > 0,
    ;
    assert((p * p * p) * (p * uz) <= (q * q * q * q) * (ut + tr)) by (nonlinear_arith)
        requires
            p * uz <= q * (ut + ub),
            (p * p * p) * ub <= (q * q * q) * tr,
            0 < p <= q,
            ut >= 0,
            (p * p * p) * ut <= (q * q * q) * ut,
    ;
    assert(q * q * q * q <= (p * p * p) * (p + 5)) by (nonlinear_arith)
        requires
            q == p + 1,
            p == 0x20_0000_0000_0000,
    ;
    let x = ut + tr;
    assert((q * q * q * q) * x <= ((p * p * p) * (p + 5)) * x) by (nonlinear_arith)
        requires
            q * q * q * q <= (p * p * p) * (p + 5),
            x >= 0,
    ;
    assert(p * uz <= (p + 5) * x) by (nonlinear_arith)
        requires
            (p * p * p) * (p * uz) <= ((p * p * p) * (p + 5)) * x,
            p > 0,
    ;
}

/// One less than a number from one up, as it is rounded.
proof fn lemma_one_taken(x: Binary64)
    requires
        x.finite() && !x.negative(),
        !Binary64::one().above(x),
    ensures
        ({
            let r = units(x.magnitude());
            let left = units(x.sum(Binary64::one().opposite()).magnitude());
            &&& r >= pow2(UNIT_PLACES as nat)
            &&& PARTS * left <= (PARTS + 1) * (r - pow2(UNIT_PLACES as nat))
        }),
{
    let unit = pow2(UNIT_PLACES as nat);
    let r = units(x.magnitude());
    binary64::lemma_one();
    precision::lemma_units_in_order(Binary64::one().magnitude(), x.magnitude());
    let s = (r - unit) as nat;
    assert(x.value() + Binary64::one().opposite().value() == s);
    binary64::rounding_keeps_order(s, r, 1);
    binary64::lemma_round_is_exact(x.magnitude(), 1);
    assert(r * 1 == r);
    lemma_round_up(s);
    assert(units(0) == 0);
}

/// What a bucket holds after a request, with the token that the request may have taken, is
/// six parts of its capacity more than what it held and what the time brought, at most.
proof fn lemma_step_up(b: TokenBucket, burst: u32, rate: u32, now: u64)
    requires
        b.sound(),
        b.capacity == Binary64::of_nat(burst as nat),
        b.refill_rate == Binary64::of_nat(rate as nat),
    ensures
        ({
            let unit = pow2(UNIT_PLACES as nat);
            let t = units(b.tokens.magnitude());
            let left = units(b.after(now).tokens.magnitude());
            let taken = if b.admits(now) {
                unit
            } else {
                0
            };
            let x = 1_000_000_000 * t + (rate * since(b.last_refill, now)) * unit;
            PARTS * (1_000_000_000 * (left + taken)) <= PARTS * x + 6_000_000_000 * (burst * unit)
        }),
        burst == 0 ==> !b.admits(now),
{
    let unit = pow2(UNIT_PLACES as nat);
    let refilled = b.refilled(now);
    let r = units(refilled.magnitude());
    let c = burst * unit;
    lemma_pow2_pos(UNIT_PLACES as nat);
    lemma_refill_up(b, burst, rate, now);
    assert(0 <= c && (burst == 0 ==> c == 0)) by (nonlinear_arith)
        requires
            c == burst * unit,
            burst >= 0,
            unit >= 0,
    ;
    if b.admits(now) {
        lemma_one_taken(refilled);
    }
}

/// What a series of requests takes from a full bucket, and what is left then.
proof fn lemma_series(burst: u32, rate: u32, times: Seq<u64>)
    requires
        times.len() > 0,
        forall|i: int, j: int| 0 <= i <= j < times.len() ==> times[i] <= times[j],
    ensures
        ({
            let unit = pow2(UNIT_PLACES as nat);
            let full = TokenBucket::full(burst, rate, times[0]);
            let b = full.after_calls(times);
            let taken = full.admitted(times) * unit;
            let elapsed = times.last() - times[0];
            &&& b.sound()
            &&& b.capacity == Binary64::of_nat(burst as nat)
            &&& b.refill_rate == Binary64::of_nat(rate as nat)
            &&& b.last_refill == times.last()
            &&& PARTS * (1_000_000_000 * (units(b.tokens.magnitude()) + taken)) <= PARTS * (
            1_000_000_000 * (burst * unit) + (rate * elapsed) * unit) + times.len() * (6_000_000_000
                * (burst * unit))
            &&& burst == 0 ==> full.admitted(times) == 0
        }),
    decreases times.len(),
{
    let unit = pow2(UNIT_PLACES as nat);
    let full = TokenBucket::full(burst, rate, times[0]);
    let less = times.drop_last();
    let before = full.after_calls(less);
    let now = times.last();
    let c = burst * unit;
    middleware::full_buckets_are_sound(burst, rate, times[0]);
    binary64::whole_numbers_are_exact(burst as nat);
    let t = units(before.tokens.magnitude());
    let taken = full.admitted(less) * unit;
    let gone = if less.len() > 0 {
        less.last() - less[0]
    } else {
        0
    };
    if less.len() > 0 {
        assert(less[0] == times[0]);
        assert(less.last() == times[times.len() - 2]);
        assert(forall|i: int, j: int| 0 <= i <= j < less.len() ==> less[i] <= less[j]);
        lemma_series(burst, rate, less);
    } else {
        assert(taken == 0) by (nonlinear_arith)
            requires
                taken == full.admitted(less) * unit,
                full.admitted(less) == 0,
        ;
        assert((rate * gone) * unit == 0) by (nonlinear_arith)
            requires
                gone == 0,
        ;
    }
    assert(PARTS * (1_000_000_000 * (t + taken)) <= PARTS * (1_000_000_000 * c + (rate * gone)
        * unit) + less.len() * (6_000_000_000 * c));
    middleware::tokens_stay_within_capacity(before, now);
    lemma_step_up(before, burst, rate, now);
    let step = since(before.last_refill, now);
    assert(gone + step == now - times[0]);
    assert((rate * gone) * unit + (rate * step) * unit == (rate * (gone + step)) * unit)
        by (nonlinear_arith);
    assert(less.len() * (6_000_000_000 * c) + 6_000_000_000 * c == (less.len() + 1) * (6_000_000_000
        * c)) by (nonlinear_arith);
    assert(times.len() == less.len() + 1);
    if before.admits(now) {
        let a = full.admitted(less) as int;
        assert((a + 1) * unit == a * unit + unit) by (nonlinear_arith);
    }
}

/// Of any requests that come from the first one on, a full bucket lets through no more than
/// the burst size and what the rate brings in the time between the first and the last; up to
/// rounding, which is less than one request as long as six times the burst size, times the
/// requests, is below two to the fifty-third. A bucket with no burst lets none through.
pub proof fn a_bucket_admits_its_burst_and_its_rate(burst: u32, rate: u32, times: Seq<u64>)
    requires
        times.len() > 0,
        forall|i: int, j: int| 0 <= i <= j < times.len() ==> times[i] <= times[j],
    ensures
        ({
            let admitted = TokenBucket::full(burst, rate, times[0]).admitted(times);
            let elapsed = times.last() - times[0];
            &&& PARTS * (1_000_000_000 * admitted) <= PARTS * (1_000_000_000 * burst + rate
                * elapsed) + 6_000_000_000 * (burst * times.len())
            &&& burst == 0 ==> admitted == 0
        }),
{
    let unit = pow2(UNIT_PLACES as nat);
    let admitted = TokenBucket::full(burst, rate, times[0]).admitted(times);
    let elapsed = times.last() - times[0];
    let b = TokenBucket::full(burst, rate, times[0]).after_calls(times);
    lemma_pow2_pos(UNIT_PLACES as nat);
    lemma_series(burst, rate, times);
    let left = units(b.tokens.magnitude());
    let n = times.len();
    let p = PARTS as int;
    assert(p * (1_000_000_000 * admitted) <= p * (1_000_000_000 * burst + rate * elapsed)
        + 6_000_000_000 * (burst * n)) by (nonlinear_arith)
        requires
            p * (1_000_000_000 * (left + admitted * unit)) <= p * (1_000_000_000 * (burst * unit)
                + (rate * elapsed) * unit) + n * (6_000_000_000 * (burst * unit)),
            left >= 0,
            unit > 0,
            p > 0,
    ;
}

/// After however long a time, and whatever came before, a bucket lets through no more
/// requests at once than the burst size says.
pub proof fn idle_time_earns_a_burst_at_most(b: TokenBucket, burst: u32, now: u64, requests: nat)
    requires
        b.sound(),
        b.capacity == Binary64::of_nat(burst as nat),
    ensures
        b.admitted(Seq::new(requests, |i: int| now)) <= burst,
{
    lemma_at_once(b, burst, now, requests);
}

proof fn lemma_at_once(b: TokenBucket, burst: u32, now: u64, requests: nat)
    requires
        b.sound(),
        b.capacity == Binary64::of_nat(burst as nat),
    ensures
        ({
            let times = Seq::new(requests, |i: int| now);
            let after = b.after_calls(times);
            &&& after.sound()
            &&& after.capacity == b.capacity
            &&& requests > 0 ==> after.last_refill == now
            &&& b.admitted(times) <= burst
            &&& units(after.tokens.magnitude()) <= (burst - b.admitted(times)) * pow2(
                UNIT_PLACES as nat,
            )
        }),
    decreases requests,
{
    let unit = pow2(UNIT_PLACES as nat);
    let times = Seq::new(requests, |i: int| now);
    lemma_pow2_pos(UNIT_PLACES as nat);
    binary64::whole_numbers_are_exact(burst as nat);
    if requests == 0 {
        binary64::order_is_that_of_values(b.tokens, b.capacity);
    } else {
        let less = (requests - 1) as nat;
        let earlier = Seq::new(less, |i: int| now);
        assert(times.drop_last() =~= earlier);
        lemma_at_once(b, burst, now, less);
        let before = b.after_calls(earlier);
        let had = b.admitted(earlier);
        middleware::tokens_stay_within_capacity(before, now);
        let refilled = before.refilled(now);
        let r = units(refilled.magnitude());
        lemma_refilled_within(before, now);
        assert(r <= (burst - had) * unit) by {
            if less > 0 {
                lemma_no_time_brings_nothing(before);
            } else {
                precision::lemma_units_in_order(refilled.magnitude(), b.capacity.magnitude());
            }
        }
        if before.admits(now) {
            binary64::lemma_one();
            precision::lemma_units_in_order(Binary64::one().magnitude(), refilled.magnitude());
            assert(burst - had >= 1) by (nonlinear_arith)
                requires
                    unit <= (burst - had) * unit,
                    unit > 0,
            ;
            let rest = (burst - had - 1) as nat;
            lemma_one_less(refilled, rest);
        }
    }
}

/// A refilled bucket is within its capacity.
proof fn lemma_refilled_within(b: TokenBucket, now: u64)
    requires
        b.sound(),
    ensures
        b.refilled(now).finite(),
        !b.refilled(now).negative(),
        b.refilled(now).magnitude() <= b.capacity.magnitude(),
{
    let elapsed = seconds(since(b.last_refill, now));
    middleware::lemma_seconds(since(b.last_refill, now));
    binary64::no_sign_stays_no_sign(elapsed, b.refill_rate);
    binary64::no_sign_stays_no_sign(b.tokens, elapsed.product(b.refill_rate));
}

/// Where no time has gone by, a bucket holds what it held.
proof fn lemma_no_time_brings_nothing(b: TokenBucket)
    requires
        b.sound(),
    ensures
        b.refilled(b.last_refill) == b.tokens,
{
    middleware::lemma_seconds(0);
    binary64::zero_stays_zero(b.refill_rate);
    binary64::adding_zero_changes_nothing(b.tokens);
}

/// One less than a number that is at most a whole number and one is at most that number.
proof fn lemma_one_less(x: Binary64, rest: nat)
    requires
        x.finite() && !x.negative(),
        rest < 0x1_0000_0000,
        pow2(UNIT_PLACES as nat) <= units(x.magnitude()) <= (rest + 1) * pow2(UNIT_PLACES as nat),
    ensures
        units(x.sum(Binary64::one().opposite()).magnitude()) <= rest * pow2(UNIT_PLACES as nat),
{
    let unit = pow2(UNIT_PLACES as nat);
    let s = (units(x.magnitude()) - unit) as nat;
    binary64::lemma_one();
    assert((rest + 1) * unit == rest * unit + unit) by (nonlinear_arith);
    binary64::whole_numbers_are_exact(rest);
    binary64::rounding_keeps_order(s, rest * unit, 1);
    let lower = x.sum(Binary64::one().opposite());
    assert(units(0) == 0);
    precision::lemma_units_in_order(lower.magnitude(), Binary64::of_nat(rest).magnitude());
}

/// The buckets after a series of requests, each of a client at a time, where there were none
/// before.
pub open spec fn asked(c: ProxyConfig, calls: Seq<(Seq<char>, u64)>) -> Map<
    Seq<char>,
    TokenBucket,
>
    decreases calls.len(),
{
    if calls.len() == 0 {
        Map::empty()
    } else {
        let before = asked(c, calls.drop_last());
        let (key, now) = calls.last();
        before.insert(key, bucket_of(c, before, key, now).after(now))
    }
}

/// How many of the requests of one client are let through.
pub open spec fn granted(c: ProxyConfig, calls: Seq<(Seq<char>, u64)>, client: Seq<char>) -> nat
    decreases calls.len(),
{
    if calls.len() == 0 {
        0
    } else {
        let before = asked(c, calls.drop_last());
        let (key, now) = calls.last();
        granted(c, calls.drop_last(), client) + if key == client && bucket_of(
            c,
            before,
            key,
            now,
        ).admits(now) {
            1nat
        } else {
            0
        }
    }
}

/// The times of the requests of one client.
pub open spec fn times_of(calls: Seq<(Seq<char>, u64)>, client: Seq<char>) -> Seq<u64>
    decreases calls.len(),
{
    if calls.len() == 0 {
        Seq::empty()
    } else if calls.last().0 == client {
        times_of(calls.drop_last(), client).push(calls.last().1)
    } else {
        times_of(calls.drop_last(), client)
    }
}

/// What becomes of the requests of a client depends on that client's requests alone: the
/// bucket starts full at the first of them.
pub proof fn other_clients_do_not_matter(
    c: ProxyConfig,
    calls: Seq<(Seq<char>, u64)>,
    client: Seq<char>,
)
    ensures
        ({
            let times = times_of(calls, client);
            let full = TokenBucket::full(
                c.security.rate_limiting.burst_size,
                c.security.rate_limiting.requests_per_second,
                times[0],
            );
            &&& asked(c, calls).contains_key(client) <==> times.len() > 0
            &&& times.len() > 0 ==> asked(c, calls)[client] == full.after_calls(times)
            &&& times.len() > 0 ==> granted(c, calls, client) == full.admitted(times)
            &&& times.len() == 0 ==> granted(c, calls, client) == 0
        }),
    decreases calls.len(),
{
    if calls.len() > 0 {
        let less = calls.drop_last();
        other_clients_do_not_matter(c, less, client);
        let (key, now) = calls.last();
        if key == client {
            let earlier = times_of(less, client);
            let times = times_of(calls, client);
            assert(times == earlier.push(now));
            assert(times.drop_last() =~= earlier);
            if earlier.len() == 0 {
                let full = bucket_of(c, asked(c, less), key, now);
                assert(full.after_calls(times.drop_last()) == full);
                assert(full.admitted(times.drop_last()) == 0);
            } else {
                assert(times[0] == earlier[0]);
            }
        }
    }
}

proof fn lemma_times_in_order(calls: Seq<(Seq<char>, u64)>, client: Seq<char>)
    requires
        forall|i: int, j: int| 0 <= i <= j < calls.len() ==> calls[i].1 <= calls[j].1,
    ensures
        ({
            let times = times_of(calls, client);
            &&& forall|i: int, j: int| 0 <= i <= j < times.len() ==> times[i] <= times[j]
            &&& times.len() > 0 ==> calls.len() > 0 && times.last() <= calls.last().1
            &&& times.len() <= calls.len()
        }),
    decreases calls.len(),
{
    if calls.len() > 0 {
        let less = calls.drop_last();
        assert(forall|i: int, j: int| 0 <= i <= j < less.len() ==> less[i].1 <= less[j].1);
        lemma_times_in_order(less, client);
        let earlier = times_of(less, client);
        let times = times_of(calls, client);
        if less.len() > 0 {
            assert(less.last().1 <= calls.last().1);
        }
        if calls.last().0 == client {
            assert forall|i: int, j: int| 0 <= i <= j < times.len() implies times[i]
                <= times[j] by {
                if j < earlier.len() {
                    assert(times[i] == earlier[i] && times[j] == earlier[j]);
                } else if i < earlier.len() {
                    assert(times[i] == earlier[i]);
                    assert(earlier[i] <= earlier[earlier.len() - 1]);
                }
            }
        }
    }
}

/// Over any series of requests of any clients, a client gets no more through than the burst
/// size and what the rate brings in the time from that client's first request to its last;
/// up to rounding, as for a single bucket. With no burst, nothing gets through.
pub proof fn clients_get_their_burst_and_their_rate(
    c: ProxyConfig,
    calls: Seq<(Seq<char>, u64)>,
    client: Seq<char>,
)
    requires
        forall|i: int, j: int| 0 <= i <= j < calls.len() ==> calls[i].1 <= calls[j].1,
        times_of(calls, client).len() > 0,
    ensures
        ({
            let burst = c.security.rate_limiting.burst_size;
            let rate = c.security.rate_limiting.requests_per_second;
            let times = times_of(calls, client);
            let elapsed = times.last() - times[0];
            &&& PARTS * (1_000_000_000 * granted(c, calls, client)) <= PARTS * (1_000_000_000
                * burst + rate * elapsed) + 6_000_000_000 * (burst * times.len())
            &&& burst == 0 ==> granted(c, calls, client) == 0
        }),
{
    other_clients_do_not_matter(c, calls, client);
    lemma_times_in_order(calls, client);
    a_bucket_admits_its_burst_and_its_rate(
        c.security.rate_limiting.burst_size,
        c.security.rate_limiting.requests_per_second,
        times_of(calls, client),
    );
}

/// A rounded sum is at most one part in two to the fifty-third less than the exact one.
proof fn lemma_round_down(n: nat)
    ensures
        (PARTS - 1) * n <= PARTS * units(round_units(n, 1)),
{
    precision::rounding_is_close(n, 1);
    let v = units(round_units(n, 1));
    assert(v * 1 == v);
    if !(PARTS * (v - n) <= n && -(PARTS * (v - n)) <= n) {
        assert(v == n);
    }
}

/// A time in seconds is at most two such parts less than it is; so no time is lost for being
/// less than a second.
proof fn lemma_seconds_down(nanos: u64)
    ensures
        ((PARTS - 1) * (PARTS - 1)) * (nanos * pow2(UNIT_PLACES as nat)) <= (PARTS * PARTS) * (
        1_000_000_000 * units(seconds(nanos).magnitude())),
{
    let unit = pow2(UNIT_PLACES as nat);
    let w = (nanos / 1_000_000_000) as nat;
    let f = (nanos % 1_000_000_000) as nat;
    let whole = Binary64::of_nat(w);
    let nano = Binary64::of_nat(f);
    let scale = Binary64::of_nat(1_000_000_000);
    lemma_pow2_pos(UNIT_PLACES as nat);
    binary64::whole_numbers_are_exact(w);
    binary64::whole_numbers_are_exact(f);
    binary64::whole_numbers_are_exact(1_000_000_000);
    middleware::lemma_seconds(nanos);
    let part = nano.quotient(scale);
    let d = 1_000_000_000 * unit;
    let p = units(part.magnitude());
    binary64::order_is_that_of_values(nano, scale);
    assert(f * unit <= d) by (nonlinear_arith)
        requires
            f <= 1_000_000_000,
            d == 1_000_000_000 * unit,
    ;
    binary64::shares_are_at_most_one(nano, scale);
    let n = (f * unit) * unit;
    precision::rounding_is_close(n, d);
    assert(p == units(round_units(n, d)));
    let off = p * d - n;
    assert(-(PARTS * off) <= n) by {
        if 2 * off <= d && -(2 * off) <= d {
            if f == 0 {
                assert(n == 0) by (nonlinear_arith)
                    requires
                        f == 0,
                        n == (f * unit) * unit,
                ;
                assert(0 <= p * d) by (nonlinear_arith)
                    requires
                        p >= 0,
                        d >= 0,
                ;
            } else {
                lemma_unit_is_small();
                assert(0x10_0000_0000_0000 * d <= n) by (nonlinear_arith)
                    requires
                        d == 1_000_000_000 * unit,
                        n == (f * unit) * unit,
                        f >= 1,
                        unit >= 0x10_0000_0000_0000 * 1_000_000_000,
                ;
            }
        }
    }
    assert((PARTS - 1) * (f * unit) <= PARTS * (1_000_000_000 * p)) by (nonlinear_arith)
        requires
            -(PARTS * (p * d - n)) <= n,
            d == 1_000_000_000 * unit,
            n == (f * unit) * unit,
            unit > 0,
    ;
    let s = (w * unit + p) as nat;
    binary64::lemma_units_at_least(part.magnitude());
    lemma_round_down(s);
    if s == 0 {
        binary64::lemma_units_at_least(0);
    }
    let t = units(seconds(nanos).magnitude());
    assert((PARTS - 1) * s <= PARTS * t);
    let (g, h) = (PARTS as int, PARTS - 1);
    assert((h * h) * (nanos * unit) <= (g * g) * (1_000_000_000 * t)) by (nonlinear_arith)
        requires
            h * (w * unit + p) <= g * t,
            h * (f * unit) <= g * (1_000_000_000 * p),
            nanos == w * 1_000_000_000 + f,
            g == 0x20_0000_0000_0000,
            h == g - 1,
            w >= 0,
            unit > 0,
    ;
}

/// Rounding down four times.
proof fn lemma_chain_down(
    elapsed: int,
    unit: int,
    s: int,
    rate: int,
    brought: int,
    t: int,
    filled: int,
)
    requires
        elapsed >= 0,
        unit >= 0,
        s >= 0,
        rate >= 0,
        t >= 0,
        ((PARTS - 1) * (PARTS - 1)) * (elapsed * unit) <= (PARTS * PARTS) * (1_000_000_000 * s),
        (PARTS - 1) * (s * rate) <= PARTS * brought,
        (PARTS - 1) * (t + brought) <= PARTS * filled,
    ensures
        (PARTS - 4) * (1_000_000_000 * t + rate * (elapsed * unit)) <= PARTS * (1_000_000_000
            * filled),
{
    let p = PARTS as int;
    let q = p - 1;
    let time = elapsed * unit;
    assert(time >= 0) by (nonlinear_arith)
        requires
            time == elapsed * unit,
            elapsed >= 0,
            unit >= 0,
    ;
    let sr = s * rate;
    let tr = rate * time;
    assert((q * q) * tr <= (p * p) * (1_000_000_000 * sr)) by (nonlinear_arith)
        requires
            (q * q) * time <= (p * p) * (1_000_000_000 * s),
            sr == s * rate,
            tr == rate * time,
            rate >= 0,
    ;
    assert(tr >= 0) by (nonlinear_arith)
        requires
            tr == rate * time,
            rate >= 0,
            time >= 0,
    ;
    let ub = 1_000_000_000 * brought;
    let ut = 1_000_000_000 * t;
    let uz = 1_000_000_000 * filled;
    let us = 1_000_000_000 * sr;
    assert(q * us <= p * ub) by (nonlinear_arith)
        requires
            q * sr <= p * brought,
            ub == 1_000_000_000 * brought,
            us == 1_000_000_000 * sr,
    ;
    assert(q * (ut + ub) <= p * uz) by (nonlinear_arith)
        requires
            q * (t + brought) <= p * filled,
            uz == 1_000_000_000 * filled,
            ut == 1_000_000_000 * t,
            ub == 1_000_000_000 * brought,
    ;
    assert((q * q * q) * tr <= (p * p * p) * ub) by (nonlinear_arith)
        requires
            q * us <= p * ub,
            (q * q) * tr <= (p * p) * us,
            p > 0,
            q > 0,
    ;
    assert((q * q * q) * ut <= (p * p * p) * ut) by (nonlinear_arith)
        requires
            0 < q <= p,
            ut >= 0,
    ;
    assert((q * q * q * q) * (ut + tr) <= (p * p * p) * (p * uz)) by (nonlinear_arith)
        requires
            q * (ut + ub) <= p * uz,
            (q * q * q) * tr <= (p * p * p) * ub,
            (q * q * q) * ut <= (p * p * p) * ut,
            0 < q <= p,
    ;
    assert((p * p * p) * (p - 4) <= q * q * q * q) by (nonlinear_arith)
        requires
            q == p - 1,
            p == 0x20_0000_0000_0000,
    ;
    let x = ut + tr;
    assert(((p * p * p) * (p - 4)) * x <= (q * q * q * q) * x) by (nonlinear_arith)
        requires
            (p * p * p) * (p - 4) <= q * q * q * q,
            x >= 0,
    ;
    assert((p - 4) * x <= p * uz) by (nonlinear_arith)
        requires
            ((p * p * p) * (p - 4)) * x <= (p * p * p) * (p * uz),
            p > 0,
    ;
}

/// Waiting fills a bucket: it is full, or it holds what it held and what the rate brings in the
/// time since it was last asked, up to rounding; parts of a second count too. And a request that
/// is refused leaves it so.
pub proof fn waiting_fills_a_bucket(b: TokenBucket, burst: u32, rate: u32, now: u64)
    requires
        b.sound(),
        b.capacity == Binary64::of_nat(burst as nat),
        b.refill_rate == Binary64::of_nat(rate as nat),
    ensures
        ({
            let unit = pow2(UNIT_PLACES as nat);
            let t = units(b.tokens.magnitude());
            let r = units(b.refilled(now).magnitude());
            let elapsed: int = if b.last_refill <= now {
                now - b.last_refill
            } else {
                0
            };
            ||| b.refilled(now) == b.capacity
            ||| (PARTS - 4) * (1_000_000_000 * t + (rate * elapsed) * unit) <= PARTS * (
            1_000_000_000 * r)
        }),
        !b.tokens.above(b.refilled(now)),
        !b.admits(now) ==> b.after(now).tokens == b.refilled(now),
        b.admits(now) ==> b.after(now).tokens == b.refilled(now).sum(Binary64::one().opposite()),
        b.after(now).last_refill == now,
        b.after(now).capacity == b.capacity,
        b.after(now).refill_rate == b.refill_rate,
{
    lemma_waiting(b, rate, now);
    lemma_no_tokens_are_lost(b, now);
    lemma_same_number(b.refilled(now), b.capacity);
}

proof fn lemma_same_number(x: Binary64, y: Binary64)
    requires
        !y.negative(),
    ensures
        !x.negative() && x.magnitude() == y.magnitude() ==> x == y,
{
}

proof fn lemma_waiting(b: TokenBucket, rate: u32, now: u64)
    requires
        b.sound(),
        b.refill_rate == Binary64::of_nat(rate as nat),
    ensures
        !b.refilled(now).negative(),
        b.refilled(now).magnitude() == b.capacity.magnitude() || (PARTS - 4) * (1_000_000_000
            * units(b.tokens.magnitude()) + (rate * since(b.last_refill, now)) * pow2(
            UNIT_PLACES as nat,
        )) <= PARTS * (1_000_000_000 * units(b.refilled(now).magnitude())),
{
    let elapsed = since(b.last_refill, now);
    let unit = pow2(UNIT_PLACES as nat);
    let t = units(b.tokens.magnitude());
    let s = units(seconds(elapsed).magnitude());
    let product = s * rate as nat;
    let brought = units(round_units(product, 1));
    let filled = units(round_units(t + brought, 1));
    lemma_refill_rounded(b, rate, now, brought, filled);
    lemma_seconds_down(elapsed);
    lemma_round_down(product);
    lemma_round_down(t + brought);
    lemma_chain_down(
        elapsed as int,
        unit as int,
        s as int,
        rate as int,
        brought as int,
        t as int,
        filled as int,
    );
    assert((rate * elapsed) * unit == rate * (elapsed * unit)) by (nonlinear_arith);
}

proof fn lemma_no_tokens_are_lost(b: TokenBucket, now: u64)
    requires
        b.sound(),
    ensures
        !b.tokens.above(b.refilled(now)),
{
    let gain = seconds(since(b.last_refill, now)).product(b.refill_rate);
    middleware::lemma_seconds(since(b.last_refill, now));
    binary64::no_sign_stays_no_sign(seconds(since(b.last_refill, now)), b.refill_rate);
    precision::sums_go_the_way_of_what_is_added(b.tokens, gain);
}

} // verus!
