//! IEEE 754 double precision numbers, carried by their bit pattern.
//!
//! A finite double is a whole multiple of the smallest positive one, so every value is
//! stated here as a whole number of such *units*. Arithmetic is the exact result in
//! units, rounded once, to the nearest double and to the even one of two equally near.
use vstd::arithmetic::power::*;
use vstd::arithmetic::power2::*;
use vstd::prelude::*;

verus! {

/// One past the largest fraction field: a fraction has fifty-two bits.
pub const FRACTION: u64 = 0x10_0000_0000_0000;

/// The magnitude of infinity; a larger magnitude is not a number.
pub const INFINITE: u64 = 0x7FF0_0000_0000_0000;

/// The sign bit.
pub const SIGN: u64 = 0x8000_0000_0000_0000;

/// The pattern that an invalid operation gives.
pub const QUIET_NAN: u64 = 0x7FF8_0000_0000_0000;

/// How many binary places one lies above the unit: the unit is two to the minus this.
pub const UNIT_PLACES: u32 = 1074;

/// A double, as its bit pattern. Equality of this type is equality of the patterns.
#[derive(Clone, Copy, Debug, PartialEq, Eq, Structural)]
pub struct Binary64 {
    pub bits: u64,
}

/// The whole number nearest to `n / d`, the even one of two equally near.
pub open spec fn nearest(n: nat, d: nat) -> nat {
    let q = n / d;
    let r = n % d;
    if 2 * r < d {
        q
    } else if 2 * r > d {
        q + 1
    } else {
        q + q % 2
    }
}

/// The magnitude of the double nearest to `n / d` units, before the limit of the range.
/// Below two to the fifty-third units every whole number of units is a double; past that
/// the doubles lie twice as far apart, and their magnitudes go on by `FRACTION`.
pub open spec fn round_units(n: nat, d: nat) -> nat
    decreases n - d,
{
    if d == 0 {
        0
    } else if n < d * 0x20_0000_0000_0000 {
        nearest(n, d)
    } else {
        FRACTION as nat + round_units(n, 2 * d)
    }
}

/// The number of units that a finite magnitude stands for.
pub open spec fn units(m: nat) -> nat
    decreases m,
{
    if m < 0x20_0000_0000_0000 {
        m
    } else {
        2 * units((m - FRACTION) as nat)
    }
}

/// A rounded magnitude within the range, or infinity past it.
pub open spec fn clamp(m: nat) -> nat {
    if m < INFINITE {
        m
    } else {
        INFINITE as nat
    }
}

/// The double with this sign and magnitude.
pub open spec fn make(negative: bool, magnitude: nat) -> Binary64 {
    Binary64 {
        bits: if negative {
            (magnitude + SIGN) as u64
        } else {
            magnitude as u64
        },
    }
}

// ---------------------------------------------------------------------------------
// Powers of two and rounding
// ---------------------------------------------------------------------------------

proof fn lemma_nearest_scale(n: nat, d: nat, c: nat)
    requires
        d > 0,
        c > 0,
    ensures
        nearest(n * c, d * c) == nearest(n, d),
{
    let q = n / d;
    let r = n % d;
    assert(n == q * d + r) by {
        vstd::arithmetic::div_mod::lemma_fundamental_div_mod(n as int, d as int);
        assert(d * q == q * d) by (nonlinear_arith);
    }
    assert(n * c == q * (d * c) + r * c) by (nonlinear_arith)
        requires
            n == q * d + r,
    ;
    assert(0 <= r * c < d * c) by (nonlinear_arith)
        requires
            0 <= r < d,
            c > 0,
    ;
    assert(d * c > 0) by (nonlinear_arith)
        requires
            d > 0,
            c > 0,
    ;
    vstd::arithmetic::div_mod::lemma_fundamental_div_mod_converse(
        (n * c) as int,
        (d * c) as int,
        q as int,
        (r * c) as int,
    );
    assert(2 * r < d <==> 2 * (r * c) < d * c) by (nonlinear_arith)
        requires
            c > 0,
    ;
    assert(2 * r > d <==> 2 * (r * c) > d * c) by (nonlinear_arith)
        requires
            c > 0,
    ;
}

/// Rounding from the leading bits `m` alone and whether anything follows them.
proof fn lemma_nearest_bracket(n: nat, b: nat, m: nat, s: nat, sticky: bool)
    requires
        b > 0,
        s > 0,
        m * b <= n < (m + 1) * b,
        (n == m * b) == !sticky,
    ensures
        nearest(n, b * pow2(s)) == ({
            let q = m / pow2(s);
            let r = m % pow2(s);
            let h = pow2((s - 1) as nat);
            if r > h || (r == h && (sticky || q % 2 == 1)) {
                q + 1
            } else {
                q
            }
        }),
{
    lemma_pow2_pos(s);
    lemma_pow2_unfold(s);
    let p = pow2(s);
    let h = pow2((s - 1) as nat);
    let q = m / p;
    let r = m % p;
    let t = (n - m * b) as nat;
    vstd::arithmetic::div_mod::lemma_fundamental_div_mod(m as int, p as int);
    assert(m == q * p + r) by {
        assert(p * q == q * p) by (nonlinear_arith);
    }
    assert((m + 1) * b == m * b + b) by (nonlinear_arith);
    assert(t < b);
    let rr = r * b + t;
    assert(n == q * (b * p) + rr) by (nonlinear_arith)
        requires
            n == m * b + t,
            m == q * p + r,
            rr == r * b + t,
    ;
    assert(rr < b * p) by (nonlinear_arith)
        requires
            rr == r * b + t,
            t < b,
            r < p,
    ;
    assert(b * p > 0) by (nonlinear_arith)
        requires
            b > 0,
            p > 0,
    ;
    vstd::arithmetic::div_mod::lemma_fundamental_div_mod_converse(
        n as int,
        (b * p) as int,
        q as int,
        rr as int,
    );
    assert(b * p == 2 * (h * b)) by (nonlinear_arith)
        requires
            p == 2 * h,
    ;
    if r > h {
        assert(r * b >= h * b + b) by (nonlinear_arith)
            requires
                r >= h + 1,
        ;
        assert(2 * rr > b * p);
    } else if r == h {
        assert(2 * rr == b * p + 2 * t);
    } else {
        assert(r * b + b <= h * b) by (nonlinear_arith)
            requires
                r + 1 <= h,
        ;
        assert(2 * rr < b * p);
    }
}

/// `round_units` in one step, once the distance between doubles is known.
pub(crate) proof fn lemma_round_at(n: nat, d: nat, k: nat)
    requires
        d > 0,
        n < d * pow2(53 + k),
        k == 0 || n >= d * pow2(52 + k),
    ensures
        round_units(n, d) == k * FRACTION + nearest(n, d * pow2(k)),
    decreases k,
{
    lemma2_to64();
    lemma2_to64_rest();
    if k == 0 {
        assert(d * pow2(0) == d);
    } else {
        let j = (k - 1) as nat;
        lemma_pow2_unfold(53 + k);
        lemma_pow2_unfold(52 + k);
        lemma_pow2_unfold(k);
        lemma_pow2_adds(53, j);
        lemma_pow2_pos(j);
        assert(pow2(52 + k) == pow2(53) * pow2(j));
        assert(d * (pow2(53) * pow2(j)) >= d * 0x20_0000_0000_0000) by (nonlinear_arith)
            requires
                pow2(53) == 0x20_0000_0000_0000,
                pow2(j) >= 1,
        ;
        assert(d * pow2(53 + k) == (2 * d) * pow2(53 + j)) by (nonlinear_arith)
            requires
                pow2(53 + k) == 2 * pow2(53 + j),
        ;
        assert(d * pow2(52 + k) == (2 * d) * pow2(52 + j)) by (nonlinear_arith)
            requires
                pow2(52 + k) == 2 * pow2(52 + j),
        ;
        assert(d * pow2(k) == (2 * d) * pow2(j)) by (nonlinear_arith)
            requires
                pow2(k) == 2 * pow2(j),
        ;
        lemma_round_at(n, 2 * d, j);
        assert(k * FRACTION == FRACTION + j * FRACTION) by (nonlinear_arith)
            requires
                k == j + 1,
        ;
    }
}

/// What the leading bits `n`, standing for `n * 2^e` units, say of the exact value
/// `num / den`: it lies at `n` or, where something follows, between `n` and the next.
spec fn bracketed(n: nat, e: int, sticky: bool, num: nat, den: nat) -> bool {
    if e >= 0 {
        let b = den * pow2(e as nat);
        &&& n * b <= num < (n + 1) * b
        &&& (num == n * b) == !sticky
    } else {
        let t = num * pow2((-e) as nat);
        &&& n * den <= t < (n + 1) * den
        &&& (t == n * den) == !sticky
    }
}

/// The leading bits place the exact value within one binary order.
proof fn lemma_bracket_range(n: nat, e: int, sticky: bool, num: nat, den: nat, len: nat, k: nat)
    requires
        den > 0,
        bracketed(n, e, sticky, num, den),
        len > 0,
        pow2((len - 1) as nat) <= n < pow2(len),
        len + e <= 53 + k,
        k == 0 || len + e == 53 + k,
    ensures
        num < den * pow2(53 + k),
        k == 0 || num >= den * pow2(52 + k),
{
    let p = pow2(len);
    let l = pow2((len - 1) as nat);
    if e >= 0 {
        let w = pow2(e as nat);
        let b = den * w;
        lemma_pow2_pos(e as nat);
        lemma_pow2_adds(len, e as nat);
        lemma_pow2_adds((len - 1) as nat, e as nat);
        assert((n + 1) * b <= den * (p * w)) by (nonlinear_arith)
            requires
                n + 1 <= p,
                b == den * w,
        ;
        if len + e < 53 + k {
            lemma_pow2_strictly_increases((len + e) as nat, 53 + k);
        }
        assert(den * pow2((len + e) as nat) <= den * pow2(53 + k)) by (nonlinear_arith)
            requires
                pow2((len + e) as nat) <= pow2(53 + k),
        ;
        assert(n * b >= den * (l * w)) by (nonlinear_arith)
            requires
                n >= l,
                b == den * w,
        ;
        if k > 0 {
            assert((len - 1) as nat + e as nat == 52 + k);
        }
    } else {
        let g = (-e) as nat;
        let w = pow2(g);
        lemma_pow2_pos(g);
        assert((n + 1) * den <= den * p) by (nonlinear_arith)
            requires
                n + 1 <= p,
        ;
        lemma_pow2_adds(53 + k, g);
        if len < 53 + k + g {
            lemma_pow2_strictly_increases(len, 53 + k + g);
        }
        assert(den * p <= den * (pow2(53 + k) * w)) by (nonlinear_arith)
            requires
                p <= pow2(53 + k) * w,
        ;
        assert(num < den * pow2(53 + k)) by (nonlinear_arith)
            requires
                num * w < den * (pow2(53 + k) * w),
                w > 0,
        ;
        if k > 0 {
            lemma_pow2_adds(52 + k, g);
            assert((len - 1) as nat == 52 + k + g);
            assert(num >= den * pow2(52 + k)) by (nonlinear_arith)
                requires
                    num * w >= n * den,
                    n >= pow2(52 + k) * w,
                    w > 0,
            ;
        }
    }
}

/// The number of bits of `n`.
fn bit_length(n: u128) -> (len: u32)
    requires
        0 < n < 0x8000_0000_0000_0000_0000_0000_0000_0000,
    ensures
        0 < len <= 127,
        pow2((len - 1) as nat) <= n < pow2(len as nat),
{
    let mut x: u128 = n;
    let mut len: u32 = 0;
    proof {
        lemma2_to64();
    }
    while x > 0
        invariant
            x * pow2(len as nat) <= n < (x + 1) * pow2(len as nat),
            x == 0 ==> len > 0 && pow2((len - 1) as nat) <= n,
            0 < n < 0x8000_0000_0000_0000_0000_0000_0000_0000,
            len <= 127,
            x > 0 ==> len < 127,
        decreases x,
    {
        proof {
            let y = x / 2;
            let p = pow2(len as nat);
            lemma_pow2_unfold((len + 1) as nat);
            lemma_pow2_pos(len as nat);
            assert(y * (2 * p) <= x * p) by (nonlinear_arith)
                requires
                    2 * y <= x,
                    p > 0,
            ;
            assert((x + 1) * p <= (y + 1) * (2 * p)) by (nonlinear_arith)
                requires
                    x <= 2 * y + 1,
                    p > 0,
            ;
            assert(p <= x * p) by (nonlinear_arith)
                requires
                    x >= 1,
                    p > 0,
            ;
            lemma_two_to_the_127();
            if y > 0 && len + 1 >= 127 {
                assert(y * (2 * p) >= 2 * p) by (nonlinear_arith)
                    requires
                        y >= 1,
                        p > 0,
                ;
                assert(2 * p == pow2((len + 1) as nat));
            }
        }
        x = x / 2;
        len = len + 1;
    }
    proof {
        let p = pow2(len as nat);
        assert((x + 1) * p == p) by (nonlinear_arith)
            requires
                x == 0,
        ;
    }
    len
}

proof fn lemma_two_to_the_127()
    ensures
        pow2(127) == 0x8000_0000_0000_0000_0000_0000_0000_0000,
{
    lemma2_to64();
    lemma2_to64_rest();
    lemma_pow2_adds(63, 64);
}

/// Two to the power `s`.
fn power_of_two(s: u32) -> (p: u128)
    requires
        s < 128,
    ensures
        p == pow2(s as nat),
{
    let mut p: u128 = 1;
    let mut i: u32 = 0;
    proof {
        lemma2_to64();
    }
    while i < s
        invariant
            i <= s < 128,
            p == pow2(i as nat),
        decreases s - i,
    {
        proof {
            lemma_two_to_the_127();
            lemma_pow2_unfold((i + 1) as nat);
            if i + 1 < 127 {
                lemma_pow2_strictly_increases((i + 1) as nat, 127);
            }
        }
        p = p * 2;
        i = i + 1;
    }
    p
}

/// The magnitude of the double nearest to the exact value `num / den` units, found from
/// its leading bits.
fn round_bracketed(
    n: u128,
    e: i32,
    sticky: bool,
    Ghost(num): Ghost<nat>,
    Ghost(den): Ghost<nat>,
) -> (r: u64)
    requires
        den > 0,
        n < 0x8000_0000_0000_0000_0000_0000_0000_0000,
        -10000 <= e <= 10000,
        bracketed(n as nat, e as int, sticky, num, den),
        sticky ==> n >= 0x40_0000_0000_0000,
    ensures
        r == clamp(round_units(num, den)),
{
    if n == 0 {
        proof {
            if e >= 0 {
                let b = den * pow2(e as nat);
                assert(n * b == 0) by (nonlinear_arith)
                    requires
                        n == 0,
                ;
            } else {
                lemma_pow2_pos((-e) as nat);
                assert(n * den == 0) by (nonlinear_arith)
                    requires
                        n == 0,
                ;
                assert(num == 0) by (nonlinear_arith)
                    requires
                        num * pow2((-e) as nat) == 0,
                        pow2((-e) as nat) > 0,
                ;
            }
            assert(num == 0);
            assert(0 < den * 0x20_0000_0000_0000) by (nonlinear_arith)
                requires
                    den > 0,
            ;
            assert(nearest(0, den) == 0);
        }
        return 0;
    }
    let len: u32 = bit_length(n);
    let over: i32 = len as i32 + e - 53;
    let k: i32 = if over > 0 {
        over
    } else {
        0
    };
    let s: i32 = k - e;
    let ghost nk = k as nat;
    let ghost full = den * pow2(nk);
    proof {
        lemma_bracket_range(n as nat, e as int, sticky, num, den, len as nat, nk);
        lemma_round_at(num, den, nk);
        lemma_pow2_pos(nk);
        lemma2_to64();
        lemma2_to64_rest();
        assert(full > 0) by (nonlinear_arith)
            requires
                full == den * pow2(nk),
                den > 0,
                pow2(nk) > 0,
        ;
        if sticky {
            if len <= 54 {
                if len < 54 {
                    lemma_pow2_strictly_increases(len as nat, 54);
                }
            }
            assert(len >= 55);
        }
    }
    if k >= 2046 {
        proof {
            lemma_pow2_adds(52, nk);
            let q = num / full;
            assert(num >= 0x10_0000_0000_0000 * full) by (nonlinear_arith)
                requires
                    num >= den * (0x10_0000_0000_0000 * pow2(nk)),
                    full == den * pow2(nk),
            ;
            assert(q >= 0x10_0000_0000_0000) by {
                vstd::arithmetic::div_mod::lemma_div_is_ordered(
                    (0x10_0000_0000_0000 * full) as int,
                    num as int,
                    full as int,
                );
                vstd::arithmetic::div_mod::lemma_div_by_multiple(
                    0x10_0000_0000_0000,
                    full as int,
                );
            }
        }
        return INFINITE;
    }
    let base: u64 = (k as u64) * FRACTION;
    if s <= 0 {
        let w: u128 = power_of_two((-s) as u32);
        let ghost g = (-s) as nat;
        proof {
            // `e >= k >= 0`, and nothing follows the leading bits.
            let b = den * pow2(e as nat);
            lemma_pow2_adds(nk, g);
            assert(b == full * pow2(g)) by (nonlinear_arith)
                requires
                    b == den * (pow2(nk) * pow2(g)),
                    full == den * pow2(nk),
            ;
            assert(num == (n * pow2(g)) * full) by (nonlinear_arith)
                requires
                    num == n * b,
                    b == full * pow2(g),
            ;
            vstd::arithmetic::div_mod::lemma_fundamental_div_mod_converse(
                num as int,
                full as int,
                (n * pow2(g)) as int,
                0,
            );
            lemma_pow2_adds(len as nat, g);
            if len + g < 53 {
                lemma_pow2_strictly_increases((len + g) as nat, 53);
            }
            lemma_pow2_pos(g);
            assert(n * pow2(g) < pow2(len as nat) * pow2(g)) by (nonlinear_arith)
                requires
                    n < pow2(len as nat),
                    pow2(g) > 0,
            ;
        }
        let m: u128 = n * w;
        return base + m as u64;
    }
    let ghost ns = s as nat;
    let ghost n1 = if e >= 0 {
        num
    } else {
        num * pow2((-e) as nat)
    };
    let ghost b1 = if e >= 0 {
        den * pow2(e as nat)
    } else {
        den
    };
    proof {
        if e >= 0 {
            lemma_pow2_pos(e as nat);
            lemma_pow2_adds(e as nat, ns);
            assert(full == b1 * pow2(ns)) by (nonlinear_arith)
                requires
                    full == den * (pow2(e as nat) * pow2(ns)),
                    b1 == den * pow2(e as nat),
            ;
            assert(b1 > 0) by (nonlinear_arith)
                requires
                    b1 == den * pow2(e as nat),
                    den > 0,
                    pow2(e as nat) > 0,
            ;
        } else {
            let g = (-e) as nat;
            lemma_pow2_pos(g);
            lemma_nearest_scale(num, full, pow2(g));
            lemma_pow2_adds(nk, g);
            assert(full * pow2(g) == b1 * pow2(ns)) by (nonlinear_arith)
                requires
                    full == den * pow2(nk),
                    pow2(ns) == pow2(nk) * pow2(g),
                    b1 == den,
            ;
        }
        assert(nearest(num, full) == nearest(n1, b1 * pow2(ns)));
        lemma_nearest_bracket(n1, b1, n as nat, ns, sticky);
    }
    if s >= 128 {
        proof {
            lemma_two_to_the_127();
            lemma_pow2_unfold(ns);
            if ns > 128 {
                lemma_pow2_strictly_increases(127, (ns - 1) as nat);
            }
            vstd::arithmetic::div_mod::lemma_fundamental_div_mod_converse(
                n as int,
                pow2(ns) as int,
                0,
                n as int,
            );
            assert(k == 0);
        }
        return 0;
    }
    let p: u128 = power_of_two(s as u32);
    let half: u128 = power_of_two((s - 1) as u32);
    proof {
        lemma_pow2_pos(ns);
    }
    let q: u128 = n / p;
    let rem: u128 = n % p;
    proof {
        lemma_pow2_adds(53, ns);
        if len < 53 + ns {
            lemma_pow2_strictly_increases(len as nat, 53 + ns);
        }
        assert(q < 0x20_0000_0000_0000) by {
            vstd::arithmetic::div_mod::lemma_fundamental_div_mod(n as int, p as int);
            assert(q < 0x20_0000_0000_0000) by (nonlinear_arith)
                requires
                    n == p * q + rem,
                    0 <= rem,
                    n < 0x20_0000_0000_0000 * p,
                    p > 0,
            ;
        }
    }
    let m: u64 = q as u64;
    if rem > half || (rem == half && (sticky || q % 2 == 1)) {
        base + (m + 1)
    } else {
        base + m
    }
}

// ---------------------------------------------------------------------------------
// Magnitudes
// ---------------------------------------------------------------------------------

/// The units of a magnitude, from its exponent field and its fraction.
pub(crate) proof fn lemma_units_of_fields(field: nat, fraction: nat)
    requires
        field > 0,
        fraction < FRACTION,
    ensures
        units((field * FRACTION + fraction) as nat) == (FRACTION + fraction) * pow2((field - 1) as nat),
    decreases field,
{
    lemma2_to64();
    let m = (field * FRACTION + fraction) as nat;
    if field == 1 {
        assert(m == FRACTION + fraction);
        assert((FRACTION + fraction) * pow2(0) == FRACTION + fraction) by (nonlinear_arith)
            requires
                pow2(0) == 1,
        ;
    } else {
        let f = (field - 1) as nat;
        assert(m == f * FRACTION + fraction + FRACTION) by (nonlinear_arith)
            requires
                m == field * FRACTION + fraction,
                field == f + 1,
        ;
        assert(m >= 2 * FRACTION) by (nonlinear_arith)
            requires
                m == f * FRACTION + fraction + FRACTION,
                f >= 1,
        ;
        lemma_units_of_fields(f, fraction);
        lemma_pow2_unfold(f);
        let w = pow2((f - 1) as nat);
        assert((FRACTION + fraction) * (2 * w) == 2 * ((FRACTION + fraction) * w))
            by (nonlinear_arith);
    }
}

/// A finite magnitude is what its own value rounds to.
pub(crate) proof fn lemma_round_is_exact(m: nat, d: nat)
    requires
        d > 0,
    ensures
        round_units(units(m) * d, d) == m,
    decreases m,
{
    if m < 0x20_0000_0000_0000 {
        assert(m * d < d * 0x20_0000_0000_0000) by (nonlinear_arith)
            requires
                m < 0x20_0000_0000_0000,
                d > 0,
        ;
        vstd::arithmetic::div_mod::lemma_fundamental_div_mod_converse(
            (m * d) as int,
            d as int,
            m as int,
            0,
        );
    } else {
        let l = (m - FRACTION) as nat;
        lemma_units_at_least(l);
        lemma_round_is_exact(l, 2 * d);
        let u = units(l);
        assert((2 * u) * d == u * (2 * d)) by (nonlinear_arith);
        assert((2 * u) * d >= d * 0x20_0000_0000_0000) by (nonlinear_arith)
            requires
                u >= 0x10_0000_0000_0000,
        ;
    }
}

pub(crate) proof fn lemma_units_at_least(m: nat)
    ensures
        m >= FRACTION ==> units(m) >= FRACTION,
        m > 0 ==> units(m) > 0,
        m == 0 ==> units(m) == 0,
    decreases m,
{
    if m >= 0x20_0000_0000_0000 {
        lemma_units_at_least((m - FRACTION) as nat);
    }
}

/// A larger magnitude stands for more units.
pub proof fn units_increase(a: nat, b: nat)
    requires
        a < b,
    ensures
        units(a) < units(b),
    decreases b,
{
    if b >= 0x20_0000_0000_0000 {
        let c = (b - FRACTION) as nat;
        lemma_units_at_least(c);
        if a < 0x20_0000_0000_0000 {
            if c < 0x20_0000_0000_0000 {
                // `units(b) == 2 * c`, and `c >= FRACTION`.
                assert(2 * units(c) >= 0x20_0000_0000_0000);
            } else {
                units_increase(a, c);
            }
        } else {
            units_increase((a - FRACTION) as nat, c);
        }
    }
}

impl Binary64 {
    /// The pattern without its sign bit.
    pub open spec fn magnitude(self) -> nat {
        (self.bits % SIGN) as nat
    }

    pub open spec fn negative(self) -> bool {
        self.bits >= SIGN
    }

    pub open spec fn nan(self) -> bool {
        self.magnitude() > INFINITE
    }

    pub open spec fn infinite(self) -> bool {
        self.magnitude() == INFINITE
    }

    pub open spec fn finite(self) -> bool {
        self.magnitude() < INFINITE
    }

    pub open spec fn zero(self) -> bool {
        self.magnitude() == 0
    }

    /// The value of a finite double, in units.
    pub open spec fn value(self) -> int {
        if self.negative() {
            -(units(self.magnitude()) as int)
        } else {
            units(self.magnitude()) as int
        }
    }

    /// The place of a number in the order of the doubles, infinities at the ends.
    pub open spec fn rank(self) -> int {
        if self.negative() {
            -(self.magnitude() as int)
        } else {
            self.magnitude() as int
        }
    }

    /// `self > other`, false where either is not a number.
    pub open spec fn above(self, other: Binary64) -> bool {
        !self.nan() && !other.nan() && self.rank() > other.rank()
    }

    /// The exact sum, rounded.
    pub open spec fn sum(self, other: Binary64) -> Binary64 {
        if self.nan() || other.nan() {
            Binary64 { bits: QUIET_NAN }
        } else if self.infinite() {
            if other.infinite() && self.negative() != other.negative() {
                Binary64 { bits: QUIET_NAN }
            } else {
                self
            }
        } else if other.infinite() {
            other
        } else {
            let s = self.value() + other.value();
            if s == 0 {
                make(self.negative() && other.negative(), 0)
            } else if s > 0 {
                make(false, clamp(round_units(s as nat, 1)))
            } else {
                make(true, clamp(round_units((-s) as nat, 1)))
            }
        }
    }

    /// The same number with the other sign.
    pub open spec fn opposite(self) -> Binary64 {
        make(!self.negative(), self.magnitude())
    }

    /// The exact product, rounded.
    pub open spec fn product(self, other: Binary64) -> Binary64 {
        let sign = self.negative() != other.negative();
        if self.nan() || other.nan() {
            Binary64 { bits: QUIET_NAN }
        } else if self.infinite() || other.infinite() {
            if self.zero() || other.zero() {
                Binary64 { bits: QUIET_NAN }
            } else {
                make(sign, INFINITE as nat)
            }
        } else {
            make(
                sign,
                clamp(
                    round_units(
                        units(self.magnitude()) * units(other.magnitude()),
                        pow2(UNIT_PLACES as nat),
                    ),
                ),
            )
        }
    }

    /// The exact quotient, rounded.
    pub open spec fn quotient(self, other: Binary64) -> Binary64 {
        let sign = self.negative() != other.negative();
        if self.nan() || other.nan() {
            Binary64 { bits: QUIET_NAN }
        } else if self.infinite() {
            if other.infinite() {
                Binary64 { bits: QUIET_NAN }
            } else {
                make(sign, INFINITE as nat)
            }
        } else if other.infinite() {
            make(sign, 0)
        } else if other.zero() {
            if self.zero() {
                Binary64 { bits: QUIET_NAN }
            } else {
                make(sign, INFINITE as nat)
            }
        } else {
            make(
                sign,
                clamp(
                    round_units(
                        units(self.magnitude()) * pow2(UNIT_PLACES as nat),
                        units(other.magnitude()),
                    ),
                ),
            )
        }
    }

    /// The double nearest to a whole number.
    pub open spec fn of_nat(n: nat) -> Binary64 {
        make(false, clamp(round_units(n * pow2(UNIT_PLACES as nat), 1)))
    }

    /// The whole part, within the range of the result; zero for what is not a number.
    pub open spec fn whole_part(self) -> u64 {
        if self.nan() || self.negative() {
            0
        } else if self.infinite() || units(self.magnitude()) / pow2(UNIT_PLACES as nat)
            > u64::MAX {
            u64::MAX
        } else {
            (units(self.magnitude()) / pow2(UNIT_PLACES as nat)) as u64
        }
    }

    /// The lesser of the two, and of a number and something that is none, the number.
    pub open spec fn lesser(self, other: Binary64) -> Binary64 {
        if self.nan() {
            other
        } else if other.nan() {
            self
        } else if self.above(other) {
            other
        } else {
            self
        }
    }

    /// The sign bit and the rest of the pattern.
    fn split(self) -> (r: (bool, u64))
        ensures
            r.0 == self.negative(),
            r.1 == self.magnitude(),
            r.1 < SIGN,
    {
        if self.bits >= SIGN {
            (true, self.bits - SIGN)
        } else {
            (false, self.bits)
        }
    }

    fn join(negative: bool, magnitude: u64) -> (r: Binary64)
        requires
            magnitude <= INFINITE,
        ensures
            r == make(negative, magnitude as nat),
    {
        if negative {
            Binary64 { bits: magnitude + SIGN }
        } else {
            Binary64 { bits: magnitude }
        }
    }
}

/// The significand and the number of doublings of a finite magnitude.
fn parts(magnitude: u64) -> (r: (u64, u32))
    requires
        magnitude < INFINITE,
    ensures
        units(magnitude as nat) == r.0 * pow2(r.1 as nat),
        r.0 < 0x20_0000_0000_0000,
        r.1 <= 2045,
        r.1 > 0 ==> r.0 >= FRACTION,
        (r.0 == 0) == (magnitude == 0),
{
    proof {
        lemma2_to64();
    }
    if magnitude < 0x20_0000_0000_0000 {
        assert(magnitude * pow2(0) == magnitude) by (nonlinear_arith)
            requires
                pow2(0) == 1,
        ;
        (magnitude, 0)
    } else {
        let field: u64 = magnitude / FRACTION;
        let fraction: u64 = magnitude % FRACTION;
        proof {
            lemma_units_of_fields(field as nat, fraction as nat);
            assert(magnitude == field * FRACTION + fraction);
        }
        (FRACTION + fraction, (field - 1) as u32)
    }
}

/// `parts` of a magnitude that is not zero, with all fifty-three bits in use.
fn full_parts(magnitude: u64) -> (r: (u64, i32))
    requires
        0 < magnitude < INFINITE,
    ensures
        FRACTION <= r.0 < 0x20_0000_0000_0000,
        -52 <= r.1 <= 2045,
        r.1 >= 0 ==> units(magnitude as nat) == r.0 * pow2(r.1 as nat),
        r.1 < 0 ==> units(magnitude as nat) * pow2((-r.1) as nat) == r.0,
{
    let (m0, k0) = parts(magnitude);
    let mut m: u64 = m0;
    let mut z: u32 = 0;
    proof {
        lemma2_to64();
        lemma2_to64_rest();
        assert(m0 * pow2(0) == m0) by (nonlinear_arith)
            requires
                pow2(0) == 1,
        ;
    }
    while m < FRACTION
        invariant
            z > 0 ==> m0 < FRACTION,
            0 < m < 0x20_0000_0000_0000,
            m == m0 * pow2(z as nat),
            z <= 52,
            m0 > 0,
            pow2(52) == FRACTION,
        decreases 53 - z,
    {
        proof {
            lemma_pow2_unfold((z + 1) as nat);
            lemma_pow2_pos(z as nat);
            assert(m0 <= m) by (nonlinear_arith)
                requires
                    m == m0 * pow2(z as nat),
                    pow2(z as nat) >= 1,
            ;
            if z >= 52 {
                assert(m0 * pow2(52) >= FRACTION) by (nonlinear_arith)
                    requires
                        m0 >= 1,
                        pow2(52) == FRACTION,
                ;
            }
            let w = pow2(z as nat);
            assert(m0 * (2 * w) == 2 * (m0 * w)) by (nonlinear_arith);
        }
        m = m * 2;
        z = z + 1;
    }
    proof {
        if k0 == 0 {
            assert(m0 * pow2(0) == m0) by (nonlinear_arith)
                requires
                    pow2(0) == 1,
            ;
            assert(m * pow2(0) == m) by (nonlinear_arith)
                requires
                    pow2(0) == 1,
            ;
        }
    }
    (m, k0 as i32 - z as i32)
}

pub(crate) proof fn lemma_round_scale(n: nat, d: nat, c: nat)
    requires
        d > 0,
        c > 0,
    ensures
        round_units(n * c, d * c) == round_units(n, d),
    decreases n - d,
{
    assert(d * c > 0) by (nonlinear_arith)
        requires
            d > 0,
            c > 0,
    ;
    assert(n < d * 0x20_0000_0000_0000 <==> n * c < (d * c) * 0x20_0000_0000_0000)
        by (nonlinear_arith)
        requires
            c > 0,
    ;
    if n < d * 0x20_0000_0000_0000 {
        lemma_nearest_scale(n, d, c);
    } else {
        lemma_round_scale(n, 2 * d, c);
        assert((2 * d) * c == 2 * (d * c)) by (nonlinear_arith);
    }
}

/// The rounded sum of two magnitudes.
fn add_magnitudes(x: u64, y: u64) -> (r: u64)
    requires
        x < INFINITE,
        y < INFINITE,
    ensures
        r == clamp(round_units(units(x as nat) + units(y as nat), 1)),
{
    let (a, b) = if x >= y {
        (x, y)
    } else {
        (y, x)
    };
    let ghost num = units(x as nat) + units(y as nat);
    let (ma, ka) = parts(a);
    let (mb, kb) = parts(b);
    if mb == 0 {
        proof {
            lemma_round_is_exact(a as nat, 1);
            assert(units(a as nat) * 1 == units(a as nat));
        }
        return a;
    }
    proof {
        lemma_parts_ordered(a as nat, ma as nat, ka as nat, b as nat, mb as nat, kb as nat);
        lemma2_to64();
        lemma2_to64_rest();
    }
    let diff: u32 = ka - kb;
    if diff <= 73 {
        let w: u128 = power_of_two(diff);
        proof {
            lemma_power_at_most_73(diff as nat);
            assert(ma * w <= 0x20_0000_0000_0000 * 0x2_0000_0000_0000_0000_00) by (nonlinear_arith)
                requires
                    0 <= ma <= 0x20_0000_0000_0000,
                    0 <= w <= 0x2_0000_0000_0000_0000_00,
            ;
        }
        let n: u128 = ma as u128 * w + mb as u128;
        proof {
            let u = pow2(kb as nat);
            let v = pow2(diff as nat);
            lemma_pow2_adds(diff as nat, kb as nat);
            lemma_pow2_pos(kb as nat);
            assert(1 * u == u);
            assert(n * u == ma * (v * u) + mb * u) by (nonlinear_arith)
                requires
                    n == ma * v + mb,
            ;
            assert((n + 1) * u > n * u) by (nonlinear_arith)
                requires
                    u > 0,
            ;
        }
        round_bracketed(n, kb as i32, false, Ghost(num), Ghost(1))
    } else {
        let n: u128 = ma as u128 * 2048;
        let e: u32 = ka - 11;
        proof {
            let u = pow2(e as nat);
            lemma_pow2_adds(11, e as nat);
            assert(1 * u == u);
            assert(n * u == ma * pow2(ka as nat)) by (nonlinear_arith)
                requires
                    n == ma * 2048,
                    pow2(ka as nat) == 2048 * u,
            ;
            lemma_low_part(mb as nat, kb as nat, e as nat);
            assert((n + 1) * u == n * u + u) by (nonlinear_arith);
        }
        round_bracketed(n, e as i32, true, Ghost(num), Ghost(1))
    }
}

proof fn lemma_power_at_most_73(e: nat)
    requires
        e <= 73,
    ensures
        pow2(e) <= 0x2_0000_0000_0000_0000_00,
{
    lemma2_to64();
    lemma2_to64_rest();
    lemma_pow2_adds(64, 9);
    if e < 73 {
        lemma_pow2_strictly_increases(e, 73);
    }
}

/// The significand of a far smaller number lies below the last leading bit.
proof fn lemma_low_part(m: nat, k: nat, e: nat)
    requires
        0 < m < 0x20_0000_0000_0000,
        k + 53 < e,
    ensures
        0 < m * pow2(k) < pow2(e),
{
    lemma2_to64();
    lemma2_to64_rest();
    lemma_pow2_pos(k);
    lemma_pow2_adds(53, k);
    lemma_pow2_strictly_increases(53 + k, e);
    assert(0 < m * pow2(k) < 0x20_0000_0000_0000 * pow2(k)) by (nonlinear_arith)
        requires
            0 < m < 0x20_0000_0000_0000,
            pow2(k) > 0,
    ;
}

proof fn lemma_parts_ordered(a: nat, ma: nat, ka: nat, b: nat, mb: nat, kb: nat)
    requires
        b <= a,
        units(a) == ma * pow2(ka),
        units(b) == mb * pow2(kb),
        ma < 0x20_0000_0000_0000,
        kb > 0 ==> mb >= FRACTION,
    ensures
        kb <= ka,
        units(b) <= units(a),
{
    if b < a {
        units_increase(b, a);
    }
    if ka < kb {
        let g = (kb - ka - 1) as nat;
        lemma_pow2_unfold(kb);
        lemma_pow2_adds(ka, g);
        lemma_pow2_pos(g);
        lemma_pow2_pos(ka);
        let u = pow2(ka);
        let v = pow2(g);
        assert(pow2((kb - 1) as nat) == u * v);
        assert(mb * (2 * (u * v)) >= 0x20_0000_0000_0000 * u) by (nonlinear_arith)
            requires
                mb >= 0x10_0000_0000_0000,
                v >= 1,
                u > 0,
        ;
        assert(ma * u < 0x20_0000_0000_0000 * u) by (nonlinear_arith)
            requires
                ma < 0x20_0000_0000_0000,
                u > 0,
        ;
    }
}

/// The rounded difference of two magnitudes.
fn sub_magnitudes(a: u64, b: u64) -> (r: u64)
    requires
        b < a < INFINITE,
    ensures
        r == clamp(round_units((units(a as nat) - units(b as nat)) as nat, 1)),
{
    let ghost num = (units(a as nat) - units(b as nat)) as nat;
    let (ma, ka) = parts(a);
    let (mb, kb) = parts(b);
    proof {
        units_increase(b as nat, a as nat);
        lemma_parts_ordered(a as nat, ma as nat, ka as nat, b as nat, mb as nat, kb as nat);
        lemma2_to64();
        lemma2_to64_rest();
    }
    if mb == 0 {
        proof {
            lemma_units_at_least(b as nat);
            lemma_round_is_exact(a as nat, 1);
            assert(units(a as nat) * 1 == units(a as nat));
        }
        return a;
    }
    let diff: u32 = ka - kb;
    if diff <= 73 {
        let w: u128 = power_of_two(diff);
        let ghost u = pow2(kb as nat);
        let ghost v = pow2(diff as nat);
        proof {
            lemma_power_at_most_73(diff as nat);
            assert(ma * w <= 0x20_0000_0000_0000 * 0x2_0000_0000_0000_0000_00) by (nonlinear_arith)
                requires
                    0 <= ma <= 0x20_0000_0000_0000,
                    0 <= w <= 0x2_0000_0000_0000_0000_00,
            ;
            lemma_pow2_adds(diff as nat, kb as nat);
            lemma_pow2_pos(kb as nat);
            assert(ma * v >= mb) by (nonlinear_arith)
                requires
                    ma * (v * u) >= mb * u,
                    u > 0,
            ;
        }
        let n: u128 = ma as u128 * w - mb as u128;
        proof {
            assert(1 * u == u);
            assert(n * u == ma * (v * u) - mb * u) by (nonlinear_arith)
                requires
                    n == ma * v - mb,
            ;
            assert((n + 1) * u > n * u) by (nonlinear_arith)
                requires
                    u > 0,
            ;
        }
        round_bracketed(n, kb as i32, false, Ghost(num), Ghost(1))
    } else {
        let n: u128 = ma as u128 * 2048 - 1;
        let e: u32 = ka - 11;
        proof {
            let u = pow2(e as nat);
            lemma_pow2_adds(11, e as nat);
            assert(1 * u == u);
            assert((n + 1) * u == ma * pow2(ka as nat)) by (nonlinear_arith)
                requires
                    n + 1 == ma * 2048,
                    pow2(ka as nat) == 2048 * u,
            ;
            lemma_low_part(mb as nat, kb as nat, e as nat);
            assert((n + 1) * u == n * u + u) by (nonlinear_arith);
        }
        round_bracketed(n, e as i32, true, Ghost(num), Ghost(1))
    }
}

/// The rounded product of two magnitudes.
fn mul_magnitudes(a: u64, b: u64) -> (r: u64)
    requires
        a < INFINITE,
        b < INFINITE,
    ensures
        r == clamp(
            round_units(units(a as nat) * units(b as nat), pow2(UNIT_PLACES as nat)),
        ),
{
    let ghost num = units(a as nat) * units(b as nat);
    let ghost den = pow2(UNIT_PLACES as nat);
    let (ma, ka) = parts(a);
    let (mb, kb) = parts(b);
    proof {
        assert(ma * mb <= 0x20_0000_0000_0000 * 0x20_0000_0000_0000) by (nonlinear_arith)
            requires
                0 <= ma <= 0x20_0000_0000_0000,
                0 <= mb <= 0x20_0000_0000_0000,
        ;
    }
    let n: u128 = ma as u128 * mb as u128;
    let e: i32 = ka as i32 + kb as i32 - UNIT_PLACES as i32;
    proof {
        let u = pow2(ka as nat);
        let v = pow2(kb as nat);
        lemma_pow2_adds(ka as nat, kb as nat);
        lemma_pow2_pos(UNIT_PLACES as nat);
        assert(num == n * (u * v)) by (nonlinear_arith)
            requires
                num == (ma * u) * (mb * v),
                n == ma * mb,
        ;
        if e >= 0 {
            let w = pow2(e as nat);
            lemma_pow2_adds(UNIT_PLACES as nat, e as nat);
            lemma_pow2_pos(e as nat);
            let b1 = den * w;
            assert(b1 == u * v);
            assert(b1 > 0) by (nonlinear_arith)
                requires
                    b1 == den * w,
                    den > 0,
                    w > 0,
            ;
            assert((n + 1) * b1 == n * b1 + b1) by (nonlinear_arith);
        } else {
            let g = (-e) as nat;
            let w = pow2(g);
            lemma_pow2_adds((ka + kb) as nat, g);
            assert(num * w == n * ((u * v) * w)) by (nonlinear_arith)
                requires
                    num == n * (u * v),
            ;
            assert((u * v) * w == den);
            assert((n + 1) * den == n * den + den) by (nonlinear_arith);
        }
    }
    round_bracketed(n, e, false, Ghost(num), Ghost(den))
}

/// The units of a magnitude, scaled so that its full significand is a whole multiple.
proof fn lemma_full_parts_scaled(u: nat, m: nat, k: int)
    requires
        -52 <= k,
        k >= 0 ==> u == m * pow2(k as nat),
        k < 0 ==> u * pow2((-k) as nat) == m,
    ensures
        u * pow2(52) == m * pow2((k + 52) as nat),
{
    if k >= 0 {
        lemma_pow2_adds(k as nat, 52);
        assert((m * pow2(k as nat)) * pow2(52) == m * (pow2(k as nat) * pow2(52)))
            by (nonlinear_arith);
    } else {
        let g = (-k) as nat;
        lemma_pow2_adds(g, (k + 52) as nat);
        assert(u * (pow2(g) * pow2((k + 52) as nat)) == (u * pow2(g)) * pow2((k + 52) as nat))
            by (nonlinear_arith);
    }
}

/// The rounded quotient of two magnitudes.
fn div_magnitudes(a: u64, b: u64) -> (r: u64)
    requires
        a < INFINITE,
        0 < b < INFINITE,
    ensures
        r == clamp(
            round_units(units(a as nat) * pow2(UNIT_PLACES as nat), units(b as nat)),
        ),
{
    let ghost ua = units(a as nat);
    let ghost ub = units(b as nat);
    let ghost one = pow2(UNIT_PLACES as nat);
    proof {
        lemma_units_at_least(a as nat);
        lemma_units_at_least(b as nat);
        lemma2_to64();
        lemma2_to64_rest();
    }
    if a == 0 {
        proof {
            assert(ua * one == 0) by (nonlinear_arith)
                requires
                    ua == 0,
            ;
            assert(nearest(0, ub) == 0);
        }
        return 0;
    }
    let (ma, ka) = full_parts(a);
    let (mb, kb) = full_parts(b);
    let top: u128 = ma as u128 * 0x1_0000_0000_0000_0000;
    let n: u128 = top / mb as u128;
    let rem: u128 = top % mb as u128;
    let e: i32 = ka - kb + 1010;
    let ghost num = (ua * one) * pow2(52);
    let ghost den = ub * pow2(52);
    proof {
        lemma_full_parts_scaled(ua, ma as nat, ka as int);
        lemma_full_parts_scaled(ub, mb as nat, kb as int);
        lemma_round_scale(ua * one, ub, pow2(52));
        let pa = (ka + 52) as nat;
        let pb = (kb + 52) as nat;
        let va = pow2(pa);
        let vb = pow2(pb);
        lemma_pow2_pos(pa);
        lemma_pow2_pos(pb);
        assert(den > 0) by (nonlinear_arith)
            requires
                den == ub * pow2(52),
                ub > 0,
                pow2(52) > 0,
        ;
        assert(num == (ma * va) * one) by (nonlinear_arith)
            requires
                num == (ua * one) * pow2(52),
                ua * pow2(52) == ma * va,
        ;
        vstd::arithmetic::div_mod::lemma_fundamental_div_mod(top as int, mb as int);
        assert(top == n * mb + rem) by {
            assert(mb * n == n * mb) by (nonlinear_arith);
        }
        assert(n >= 0x40_0000_0000_0000) by (nonlinear_arith)
            requires
                top == n * mb + rem,
                0 <= rem < mb,
                mb < 0x20_0000_0000_0000,
                top >= 0x10_0000_0000_0000 * 0x1_0000_0000_0000_0000,
                n >= 0,
        ;
        assert(n <= top) by (nonlinear_arith)
            requires
                top == n * mb + rem,
                0 <= rem,
                mb >= 1,
                n >= 0,
        ;
        lemma_pow2_adds(64, 1010);
        if e >= 0 {
            let w = pow2(e as nat);
            let b1 = den * w;
            lemma_pow2_adds(pb, e as nat);
            lemma_pow2_adds(pa, 1010);
            let x = pow2(1010);
            lemma_pow2_pos(1010);
            assert(vb * w == va * x);
            let y = va * x;
            assert(y > 0) by (nonlinear_arith)
                requires
                    y == va * x,
                    va > 0,
                    x > 0,
            ;
            assert(b1 == mb * y) by (nonlinear_arith)
                requires
                    b1 == (mb * vb) * w,
                    vb * w == y,
            ;
            assert(num == top * y) by (nonlinear_arith)
                requires
                    num == (ma * va) * one,
                    one == pow2(64) * x,
                    top == ma * pow2(64),
                    y == va * x,
            ;
            lemma_division_bracket(top as nat, mb as nat, n as nat, rem as nat, y);
        } else {
            let g = (-e) as nat;
            let w = pow2(g);
            // (ka + 52) + 1074 + g == (kb + 52) + 64
            lemma_pow2_adds(pa, UNIT_PLACES as nat);
            lemma_pow2_adds(pa + UNIT_PLACES as nat, g);
            lemma_pow2_adds(pb, 64);
            assert((va * one) * w == vb * pow2(64));
            assert(num * w == top * vb) by (nonlinear_arith)
                requires
                    num == (ma * va) * one,
                    (va * one) * w == vb * pow2(64),
                    top == ma * pow2(64),
            ;
            lemma_division_bracket(top as nat, mb as nat, n as nat, rem as nat, vb);
        }
    }
    round_bracketed(n, e, rem != 0, Ghost(num), Ghost(den))
}

proof fn lemma_division_bracket(top: nat, d: nat, q: nat, r: nat, y: nat)
    requires
        top == q * d + r,
        r < d,
        y > 0,
    ensures
        q * (d * y) <= top * y < (q + 1) * (d * y),
        (top * y == q * (d * y)) == (r == 0),
{
    assert(top * y == q * (d * y) + r * y) by (nonlinear_arith)
        requires
            top == q * d + r,
    ;
    assert((q + 1) * (d * y) == q * (d * y) + d * y) by (nonlinear_arith);
    assert(0 <= r * y < d * y) by (nonlinear_arith)
        requires
            0 <= r < d,
            y > 0,
    ;
    assert((r * y == 0) == (r == 0)) by (nonlinear_arith)
        requires
            y > 0,
    ;
}

// ---------------------------------------------------------------------------------
// Square roots
// ---------------------------------------------------------------------------------

/// The whole part of the square root.
pub open spec fn whole_root(x: nat) -> nat {
    choose|q: nat| #[trigger] (q * q) <= x < (q + 1) * (q + 1)
}

/// The whole number nearest to `sqrt(n) / d`, the even one of two equally near.
pub open spec fn nearest_root(n: nat, d: nat) -> nat {
    let q = whole_root(n / (d * d));
    let h = (2 * q + 1) * d;
    if 4 * n < h * h {
        q
    } else if 4 * n > h * h {
        q + 1
    } else {
        q + q % 2
    }
}

/// The magnitude of the double nearest to `sqrt(n) / d` units.
pub open spec fn round_root(n: nat, d: nat) -> nat
    decreases n - d * d,
{
    let top = d * 0x20_0000_0000_0000;
    if d == 0 || n < top * top {
        nearest_root(n, d)
    } else {
        proof {
            assert(4 * (d * d) <= top * top) by (nonlinear_arith)
                requires
                    top == d * 0x20_0000_0000_0000,
                    d > 0,
            ;
            assert((2 * d) * (2 * d) == 4 * (d * d)) by (nonlinear_arith);
            assert(d * d > 0) by (nonlinear_arith)
                requires
                    d > 0,
            ;
        }
        FRACTION as nat + round_root(n, 2 * d)
    }
}

pub(crate) proof fn lemma_whole_root(x: nat, q: nat)
    requires
        q * q <= x < (q + 1) * (q + 1),
    ensures
        whole_root(x) == q,
{
    let p = whole_root(x);
    assert(p * p <= x < (p + 1) * (p + 1));
    if p < q {
        assert((p + 1) * (p + 1) <= q * q) by (nonlinear_arith)
            requires
                p + 1 <= q,
        ;
    }
    if q < p {
        assert((q + 1) * (q + 1) <= p * p) by (nonlinear_arith)
            requires
                q + 1 <= p,
        ;
    }
}

proof fn lemma_square_order(a: nat, b: nat)
    ensures
        a <= b ==> a * a <= b * b,
        a < b ==> a * a < b * b,
{
    if a <= b {
        assert(a * a <= b * b) by (nonlinear_arith)
            requires
                a <= b,
        ;
    }
    if a < b {
        assert(a * a < b * b) by (nonlinear_arith)
            requires
                a < b,
        ;
    }
}

proof fn lemma_round_root_at(n: nat, d: nat, k: nat)
    requires
        d > 0,
        n < (d * pow2(53 + k)) * (d * pow2(53 + k)),
        k == 0 || n >= (d * pow2(52 + k)) * (d * pow2(52 + k)),
    ensures
        round_root(n, d) == k * FRACTION + nearest_root(n, d * pow2(k)),
    decreases k,
{
    lemma2_to64();
    lemma2_to64_rest();
    if k == 0 {
        assert(d * pow2(0) == d);
        assert(d * pow2(53) == d * 0x20_0000_0000_0000);
    } else {
        let j = (k - 1) as nat;
        lemma_pow2_unfold(53 + k);
        lemma_pow2_unfold(52 + k);
        lemma_pow2_unfold(k);
        lemma_pow2_adds(53, j);
        lemma_pow2_pos(j);
        let top = d * 0x20_0000_0000_0000;
        assert(d * pow2(52 + k) >= top) by (nonlinear_arith)
            requires
                top == d * 0x20_0000_0000_0000,
                pow2(52 + k) == 0x20_0000_0000_0000 * pow2(j),
                pow2(j) >= 1,
        ;
        lemma_square_order(top, d * pow2(52 + k));
        assert(d * pow2(53 + k) == (2 * d) * pow2(53 + j)) by (nonlinear_arith)
            requires
                pow2(53 + k) == 2 * pow2(53 + j),
        ;
        assert(d * pow2(52 + k) == (2 * d) * pow2(52 + j)) by (nonlinear_arith)
            requires
                pow2(52 + k) == 2 * pow2(52 + j),
        ;
        assert(d * pow2(k) == (2 * d) * pow2(j)) by (nonlinear_arith)
            requires
                pow2(k) == 2 * pow2(j),
        ;
        lemma_round_root_at(n, 2 * d, j);
        assert(k * FRACTION == FRACTION + j * FRACTION) by (nonlinear_arith)
            requires
                k == j + 1,
        ;
    }
}

/// The whole part of the square root, found bit by bit.
fn integer_root(m: u128) -> (r: u128)
    requires
        m < 0x4000_0000_0000_0000_0000_0000_0000_0000,
    ensures
        r < 0x8000_0000_0000_0000,
        r * r <= m < (r + 1) * (r + 1),
{
    let mut r: u128 = 0;
    let mut b: u128 = 0x4000_0000_0000_0000;
    let mut i: u32 = 63;
    let ghost mut step: nat = 0x8000_0000_0000_0000;
    proof {
        lemma2_to64();
        lemma2_to64_rest();
        assert(step * step == 0x4000_0000_0000_0000_0000_0000_0000_0000) by (nonlinear_arith)
            requires
                step == 0x8000_0000_0000_0000,
        ;
    }
    while b > 0
        invariant
            i <= 63,
            b == (if i == 0 { 0 } else { pow2((i - 1) as nat) as int }),
            step == pow2(i as nat),
            r * r <= m < (r + step) * (r + step),
            r + step <= 0x8000_0000_0000_0000,
        decreases i,
    {
        proof {
            lemma2_to64();
            lemma_pow2_unfold(i as nat);
        }
        let c: u128 = r + b;
        proof {
            if i > 1 {
                lemma_pow2_unfold((i - 1) as nat);
            }
            assert(c * c <= 0x8000_0000_0000_0000 * 0x8000_0000_0000_0000) by (nonlinear_arith)
                requires
                    0 <= c <= 0x8000_0000_0000_0000,
            ;
        }
        if c * c <= m {
            r = c;
        }
        proof {
            step = b as nat;
        }
        b = b / 2;
        i = i - 1;
    }
    proof {
        lemma2_to64();
        assert(i == 0) by {
            if i > 0 {
                lemma_pow2_pos((i - 1) as nat);
            }
        }
    }
    r
}

/// The square root of a positive magnitude, rounded.
fn root_magnitude(a: u64) -> (r: u64)
    requires
        0 < a < INFINITE,
    ensures
        r == round_root(units(a as nat) * pow2(UNIT_PLACES as nat), 1),
        r < INFINITE,
{
    let (m, k) = full_parts(a);
    let p: i32 = k + UNIT_PLACES as i32;
    let t: u32 = if p % 2 == 0 {
        72
    } else {
        73
    };
    let w: u128 = power_of_two(t);
    let ghost n = units(a as nat) * pow2(UNIT_PLACES as nat);
    proof {
        lemma2_to64();
        lemma2_to64_rest();
        lemma_power_at_most_73(t as nat);
        lemma_pow2_adds(64, 8);
        if t == 73 {
            lemma_pow2_strictly_increases(72, 73);
        }
        assert(m * w < 0x20_0000_0000_0000 * 0x2_0000_0000_0000_0000_00) by (nonlinear_arith)
            requires
                0 <= m < 0x20_0000_0000_0000,
                0 < w <= 0x2_0000_0000_0000_0000_00,
        ;
        assert(m * w >= 0x10_0000_0000_0000 * 0x1_0000_0000_0000_0000_00) by (nonlinear_arith)
            requires
                m >= 0x10_0000_0000_0000,
                w >= 0x1_0000_0000_0000_0000_00,
        ;
    }
    let big: u128 = m as u128 * w;
    let r: u128 = integer_root(big);
    let exact: bool = {
        proof {
            assert(r * r <= 0x8000_0000_0000_0000 * 0x8000_0000_0000_0000) by (nonlinear_arith)
                requires
                    0 <= r < 0x8000_0000_0000_0000,
            ;
        }
        r * r == big
    };
    let f: u32 = (p as u32 - t) / 2;
    let q: u128 = r / 1024;
    let rem: u128 = r % 1024;
    let up: bool = rem > 512 || (rem == 512 && (!exact || q % 2 == 1));
    proof {
        assert(r >= 0x4000_0000_0000_0000) by {
            if r < 0x4000_0000_0000_0000 {
                lemma_square_order((r + 1) as nat, 0x4000_0000_0000_0000);
                assert(0x4000_0000_0000_0000nat * 0x4000_0000_0000_0000nat
                    == 0x1000_0000_0000_0000_0000_0000_0000_0000) by (nonlinear_arith);
            }
        }
        // n == m * 2^p == big * 2^(2f)
        let g = pow2(f as nat);
        lemma_pow2_pos(f as nat);
        assert(n == m * pow2(p as nat)) by {
            if k >= 0 {
                lemma_pow2_adds(k as nat, UNIT_PLACES as nat);
                assert((m * pow2(k as nat)) * pow2(UNIT_PLACES as nat) == m * (pow2(k as nat)
                    * pow2(UNIT_PLACES as nat))) by (nonlinear_arith);
            } else {
                lemma_pow2_adds((-k) as nat, p as nat);
                assert(units(a as nat) * (pow2((-k) as nat) * pow2(p as nat)) == (units(a as nat)
                    * pow2((-k) as nat)) * pow2(p as nat)) by (nonlinear_arith);
            }
        }
        assert(f + f + t == p);
        lemma_pow2_adds(f as nat, f as nat);
        lemma_pow2_adds(t as nat, (f + f) as nat);
        assert(n == big * (g * g)) by (nonlinear_arith)
            requires
                n == m * (w * (g * g)),
                big == m * w,
        ;
        lemma_root_bracket(n, big as nat, r as nat, g);
        let ko = (f + 10) as nat;
        lemma_pow2_adds(10, f as nat);
        let dd = pow2(ko);
        assert(dd == 1024 * g);
        // The root has sixty-three bits before the last `f` places.
        lemma_pow2_adds(63, f as nat);
        lemma_pow2_adds(62, f as nat);
        assert((r + 1) * g <= pow2(53 + ko)) by (nonlinear_arith)
            requires
                r + 1 <= 0x8000_0000_0000_0000,
                pow2(53 + ko) == 0x8000_0000_0000_0000 * g,
        ;
        assert(r * g >= pow2(52 + ko)) by (nonlinear_arith)
            requires
                r >= 0x4000_0000_0000_0000,
                pow2(52 + ko) == 0x4000_0000_0000_0000 * g,
        ;
        lemma_square_order(((r + 1) * g) as nat, pow2(53 + ko));
        lemma_square_order(pow2(52 + ko), (r * g) as nat);
        lemma_round_root_at(n, 1, ko);
        assert(1 * dd == dd);
        assert(1 * pow2(53 + ko) == pow2(53 + ko));
        assert(1 * pow2(52 + ko) == pow2(52 + ko));
        lemma_nearest_root_bracket(n, big as nat, r as nat, g, q as nat, rem as nat);
    }
    let base: u64 = (f as u64 + 10) * FRACTION;
    if up {
        base + (q as u64 + 1)
    } else {
        base + q as u64
    }
}

proof fn lemma_root_bracket(n: nat, big: nat, r: nat, g: nat)
    requires
        n == big * (g * g),
        g > 0,
        r * r <= big < (r + 1) * (r + 1),
    ensures
        (r * g) * (r * g) <= n < ((r + 1) * g) * ((r + 1) * g),
        (n == (r * g) * (r * g)) == (big == r * r),
{
    let gg = g * g;
    assert(gg > 0) by (nonlinear_arith)
        requires
            gg == g * g,
            g > 0,
    ;
    assert((r * g) * (r * g) == (r * r) * gg) by (nonlinear_arith)
        requires
            gg == g * g,
    ;
    assert(((r + 1) * g) * ((r + 1) * g) == ((r + 1) * (r + 1)) * gg) by (nonlinear_arith)
        requires
            gg == g * g,
    ;
    let a = r * r;
    let b = (r + 1) * (r + 1);
    assert(a * gg <= big * gg < b * gg) by (nonlinear_arith)
        requires
            a <= big < b,
            gg > 0,
    ;
    assert((big * gg == a * gg) == (big == a)) by (nonlinear_arith)
        requires
            gg > 0,
    ;
}

proof fn lemma_nearest_root_bracket(n: nat, big: nat, r: nat, g: nat, q: nat, rem: nat)
    requires
        g > 0,
        (r * g) * (r * g) <= n < ((r + 1) * g) * ((r + 1) * g),
        r == q * 1024 + rem,
        rem < 1024,
    ensures
        nearest_root(n, 1024 * g) == ({
            let exact = n == (r * g) * (r * g);
            if rem > 512 || (rem == 512 && (!exact || q % 2 == 1)) {
                q + 1
            } else {
                q
            }
        }),
{
    let d = 1024 * g;
    let dd = d * d;
    assert(dd > 0) by (nonlinear_arith)
        requires
            dd == d * d,
            d > 0,
    ;
    assert(q * d <= r * g) by (nonlinear_arith)
        requires
            d == 1024 * g,
            r == q * 1024 + rem,
            rem >= 0,
            g > 0,
    ;
    assert((r + 1) * g <= (q + 1) * d) by (nonlinear_arith)
        requires
            d == 1024 * g,
            r == q * 1024 + rem,
            rem < 1024,
            g > 0,
    ;
    lemma_square_order(q * d, r * g);
    lemma_square_order((r + 1) * g, (q + 1) * d);
    let x = n / dd;
    assert((q * d) * (q * d) == (q * q) * dd) by (nonlinear_arith)
        requires
            dd == d * d,
    ;
    assert(((q + 1) * d) * ((q + 1) * d) == ((q + 1) * (q + 1)) * dd) by (nonlinear_arith)
        requires
            dd == d * d,
    ;
    vstd::arithmetic::div_mod::lemma_fundamental_div_mod(n as int, dd as int);
    let a = q * q;
    let b = (q + 1) * (q + 1);
    assert(a <= x < b) by (nonlinear_arith)
        requires
            a * dd <= n < b * dd,
            n == dd * x + n % dd,
            0 <= n % dd < dd,
            dd > 0,
    ;
    lemma_whole_root(x, q);
    let h = q * 1024 + 512;
    let hh = (2 * q + 1) * d;
    assert(hh == 2 * (h * g)) by (nonlinear_arith)
        requires
            hh == (2 * q + 1) * d,
            d == 1024 * g,
            h == q * 1024 + 512,
    ;
    let mid = h * g;
    assert(hh * hh == 4 * (mid * mid)) by (nonlinear_arith)
        requires
            hh == 2 * mid,
    ;
    if rem > 512 {
        assert(mid < r * g) by (nonlinear_arith)
            requires
                mid == h * g,
                h < r,
                g > 0,
        ;
        lemma_square_order(mid, r * g);
    } else if rem == 512 {
        assert(mid == r * g);
    } else {
        assert((r + 1) * g <= mid) by (nonlinear_arith)
            requires
                mid == h * g,
                r + 1 <= h,
                g > 0,
        ;
        lemma_square_order((r + 1) * g, mid);
    }
}

// ---------------------------------------------------------------------------------
// Operations
// ---------------------------------------------------------------------------------

impl Binary64 {
    /// The square root, rounded; of a negative number there is none.
    pub open spec fn root(self) -> Binary64 {
        if self.nan() || (self.negative() && !self.zero()) {
            Binary64 { bits: QUIET_NAN }
        } else if self.zero() || self.infinite() {
            self
        } else {
            make(
                false,
                round_root(units(self.magnitude()) * pow2(UNIT_PLACES as nat), 1),
            )
        }
    }

    /// The distance from zero.
    pub open spec fn size(self) -> Binary64 {
        make(false, self.magnitude())
    }

    /// The double with this bit pattern.
    pub fn from_bits(bits: u64) -> (r: Binary64)
        ensures
            r.bits == bits,
    {
        Binary64 { bits }
    }

    pub fn to_bits(self) -> (r: u64)
        ensures
            r == self.bits,
    {
        self.bits
    }

    pub fn is_nan(self) -> (r: bool)
        ensures
            r == self.nan(),
    {
        let (_, m) = self.split();
        m > INFINITE
    }

    pub fn greater_than(self, other: Binary64) -> (r: bool)
        ensures
            r == self.above(other),
    {
        let (sa, a) = self.split();
        let (sb, b) = other.split();
        if a > INFINITE || b > INFINITE {
            false
        } else if sa {
            sb && a < b
        } else if sb {
            a > 0 || b > 0
        } else {
            a > b
        }
    }

    /// `self >= other`, false where either is not a number.
    pub fn at_least(self, other: Binary64) -> (r: bool)
        ensures
            r == (!self.nan() && !other.nan() && !other.above(self)),
    {
        !self.is_nan() && !other.is_nan() && !other.greater_than(self)
    }

    /// Equality of numbers, to which the two zeros are one.
    pub fn equals(self, other: Binary64) -> (r: bool)
        ensures
            r == (!self.nan() && !other.nan() && self.rank() == other.rank()),
    {
        !self.is_nan() && !other.is_nan() && !other.greater_than(self) && !self.greater_than(other)
    }

    pub fn min(self, other: Binary64) -> (r: Binary64)
        ensures
            r == self.lesser(other),
    {
        if self.is_nan() {
            other
        } else if other.is_nan() {
            self
        } else if self.greater_than(other) {
            other
        } else {
            self
        }
    }

    pub fn abs(self) -> (r: Binary64)
        ensures
            r == self.size(),
    {
        let (_, m) = self.split();
        Binary64 { bits: m }
    }

    pub fn negate(self) -> (r: Binary64)
        ensures
            r == self.opposite(),
    {
        let (s, m) = self.split();
        if s {
            Binary64 { bits: m }
        } else {
            Binary64 { bits: m + SIGN }
        }
    }

    pub fn plus(self, other: Binary64) -> (r: Binary64)
        ensures
            r == self.sum(other),
    {
        let (sa, a) = self.split();
        let (sb, b) = other.split();
        if a > INFINITE || b > INFINITE {
            Binary64 { bits: QUIET_NAN }
        } else if a == INFINITE {
            if b == INFINITE && sa != sb {
                Binary64 { bits: QUIET_NAN }
            } else {
                self
            }
        } else if b == INFINITE {
            other
        } else {
            proof {
                lemma_units_at_least(a as nat);
                lemma_units_at_least(b as nat);
            }
            if sa == sb {
                let m: u64 = add_magnitudes(a, b);
                proof {
                    if a == 0 && b == 0 {
                        assert(nearest(0, 1) == 0);
                    }
                }
                Self::join(sa, m)
            } else if a == b {
                Binary64 { bits: 0 }
            } else if a > b {
                proof {
                    units_increase(b as nat, a as nat);
                }
                let m: u64 = sub_magnitudes(a, b);
                Self::join(sa, m)
            } else {
                proof {
                    units_increase(a as nat, b as nat);
                }
                let m: u64 = sub_magnitudes(b, a);
                Self::join(sb, m)
            }
        }
    }

    pub fn minus(self, other: Binary64) -> (r: Binary64)
        ensures
            r == self.sum(other.opposite()),
    {
        self.plus(other.negate())
    }

    pub fn times(self, other: Binary64) -> (r: Binary64)
        ensures
            r == self.product(other),
    {
        let (sa, a) = self.split();
        let (sb, b) = other.split();
        if a > INFINITE || b > INFINITE {
            Binary64 { bits: QUIET_NAN }
        } else if a == INFINITE || b == INFINITE {
            if a == 0 || b == 0 {
                Binary64 { bits: QUIET_NAN }
            } else {
                Self::join(sa != sb, INFINITE)
            }
        } else {
            let m: u64 = mul_magnitudes(a, b);
            Self::join(sa != sb, m)
        }
    }

    pub fn over(self, other: Binary64) -> (r: Binary64)
        ensures
            r == self.quotient(other),
    {
        let (sa, a) = self.split();
        let (sb, b) = other.split();
        if a > INFINITE || b > INFINITE {
            Binary64 { bits: QUIET_NAN }
        } else if a == INFINITE {
            if b == INFINITE {
                Binary64 { bits: QUIET_NAN }
            } else {
                Self::join(sa != sb, INFINITE)
            }
        } else if b == INFINITE {
            Self::join(sa != sb, 0)
        } else if b == 0 {
            if a == 0 {
                Binary64 { bits: QUIET_NAN }
            } else {
                Self::join(sa != sb, INFINITE)
            }
        } else {
            let m: u64 = div_magnitudes(a, b);
            Self::join(sa != sb, m)
        }
    }

    pub fn sqrt(self) -> (r: Binary64)
        ensures
            r == self.root(),
    {
        let (s, a) = self.split();
        if a > INFINITE || (s && a > 0) {
            Binary64 { bits: QUIET_NAN }
        } else if a == 0 || a == INFINITE {
            self
        } else {
            let m: u64 = root_magnitude(a);
            Self::join(false, m)
        }
    }

    /// The double nearest to `n`.
    pub fn from_u64(n: u64) -> (r: Binary64)
        ensures
            r == Binary64::of_nat(n as nat),
    {
        let ghost one = pow2(UNIT_PLACES as nat);
        proof {
            lemma_pow2_pos(UNIT_PLACES as nat);
            assert(1 * one == one);
            assert((n + 1) * one == n * one + one) by (nonlinear_arith);
        }
        let m: u64 = round_bracketed(
            n as u128,
            UNIT_PLACES as i32,
            false,
            Ghost((n * one) as nat),
            Ghost(1),
        );
        Self::join(false, m)
    }

    /// The whole part, as a number converts to an unsigned integer.
    pub fn to_u64(self) -> (r: u64)
        ensures
            r == self.whole_part(),
    {
        let (s, a) = self.split();
        if a > INFINITE || s {
            return 0;
        }
        if a == INFINITE {
            return u64::MAX;
        }
        let (m, k) = parts(a);
        let ghost u = units(a as nat);
        let ghost one = pow2(UNIT_PLACES as nat);
        proof {
            lemma_pow2_pos(UNIT_PLACES as nat);
            lemma2_to64();
            lemma2_to64_rest();
        }
        if k >= UNIT_PLACES {
            let g: u32 = k - UNIT_PLACES;
            proof {
                lemma_pow2_adds(UNIT_PLACES as nat, g as nat);
                assert(u == (m * pow2(g as nat)) * one) by (nonlinear_arith)
                    requires
                        u == m * (one * pow2(g as nat)),
                ;
                vstd::arithmetic::div_mod::lemma_div_by_multiple(
                    (m * pow2(g as nat)) as int,
                    one as int,
                );
            }
            if g >= 12 {
                proof {
                    if g > 12 {
                        lemma_pow2_strictly_increases(12, g as nat);
                    }
                    assert(m * pow2(g as nat) > u64::MAX) by (nonlinear_arith)
                        requires
                            m >= 0x10_0000_0000_0000,
                            pow2(g as nat) >= 0x1000,
                    ;
                }
                return u64::MAX;
            }
            let w: u128 = power_of_two(g);
            proof {
                if g < 11 {
                    lemma_pow2_strictly_increases(g as nat, 11);
                }
                assert(m * w <= 0x1F_FFFF_FFFF_FFFF * 0x800) by (nonlinear_arith)
                    requires
                        0 <= m <= 0x1F_FFFF_FFFF_FFFF,
                        0 <= w <= 0x800,
                ;
            }
            m * w as u64
        } else {
            let g: u32 = UNIT_PLACES - k;
            let ghost w = pow2(g as nat);
            proof {
                lemma_pow2_adds(k as nat, g as nat);
                lemma_pow2_pos(k as nat);
                lemma_pow2_pos(g as nat);
                let v = pow2(k as nat);
                vstd::arithmetic::div_mod::lemma_div_denominator(
                    (m * v) as int,
                    v as int,
                    w as int,
                );
                vstd::arithmetic::div_mod::lemma_div_by_multiple(m as int, v as int);
                assert(u / one == m as nat / w);
            }
            if g >= 53 {
                proof {
                    if g > 53 {
                        lemma_pow2_strictly_increases(53, g as nat);
                    }
                    vstd::arithmetic::div_mod::lemma_basic_div(m as int, w as int);
                }
                return 0;
            }
            let p: u128 = power_of_two(g);
            proof {
                if g < 53 {
                    lemma_pow2_strictly_increases(g as nat, 53);
                }
            }
            m / (p as u64)
        }
    }
}

/// `r` times `base` to the power `n`, by repeated squaring, rounded at every step.
pub open spec fn raise(r: Binary64, base: Binary64, n: nat) -> Binary64
    decreases n,
{
    let next = if n % 2 == 1 {
        r.product(base)
    } else {
        r
    };
    if n < 2 {
        next
    } else {
        raise(next, base.product(base), n / 2)
    }
}

impl Binary64 {
    /// The number one.
    pub open spec fn one() -> Binary64 {
        Binary64 { bits: 0x3FF0_0000_0000_0000 }
    }

    /// A whole power; that of a negative exponent is the reciprocal.
    pub open spec fn whole_power(self, n: int) -> Binary64 {
        if n >= 0 {
            raise(Self::one(), self, n as nat)
        } else {
            Self::one().quotient(raise(Self::one(), self, (-n) as nat))
        }
    }

    /// A whole power.
    pub fn powi(self, n: i64) -> (r: Binary64)
        requires
            n > i64::MIN,
        ensures
            r == self.whole_power(n as int),
    {
        let one: Binary64 = Binary64 { bits: 0x3FF0_0000_0000_0000 };
        let mut left: u64 = if n >= 0 {
            n as u64
        } else {
            (-n) as u64
        };
        let ghost whole = raise(one, self, left as nat);
        let mut r: Binary64 = one;
        let mut base: Binary64 = self;
        while left >= 2
            invariant
                raise(r, base, left as nat) == whole,
            decreases left,
        {
            if left % 2 == 1 {
                r = r.times(base);
            }
            base = base.times(base);
            left = left / 2;
        }
        if left == 1 {
            r = r.times(base);
        }
        if n >= 0 {
            r
        } else {
            one.over(r)
        }
    }
}

// ---------------------------------------------------------------------------------
// Laws
// ---------------------------------------------------------------------------------

proof fn lemma_nearest_keeps_order(a: nat, b: nat, d: nat)
    requires
        d > 0,
        a <= b,
    ensures
        nearest(a, d) <= nearest(b, d),
{
    let (p, q) = (a / d, b / d);
    vstd::arithmetic::div_mod::lemma_div_is_ordered(a as int, b as int, d as int);
    if p == q {
        vstd::arithmetic::div_mod::lemma_fundamental_div_mod(a as int, d as int);
        vstd::arithmetic::div_mod::lemma_fundamental_div_mod(b as int, d as int);
    }
}

/// Past two to the fifty-second units, rounding gives at least that magnitude.
pub(crate) proof fn lemma_round_at_least(n: nat, d: nat)
    requires
        d > 0,
        n >= d * 0x10_0000_0000_0000,
    ensures
        round_units(n, d) >= 0x10_0000_0000_0000,
{
    if n < d * 0x20_0000_0000_0000 {
        vstd::arithmetic::div_mod::lemma_div_is_ordered(
            (d * 0x10_0000_0000_0000) as int,
            n as int,
            d as int,
        );
        vstd::arithmetic::div_mod::lemma_div_multiples_vanish(0x10_0000_0000_0000, d as int);
    }
}

/// Rounding keeps the order of what is rounded.
pub proof fn rounding_keeps_order(a: nat, b: nat, d: nat)
    requires
        d > 0,
        a <= b,
    ensures
        round_units(a, d) <= round_units(b, d),
    decreases a - d,
{
    let limit = d * 0x20_0000_0000_0000;
    if b < limit {
        lemma_nearest_keeps_order(a, b, d);
    } else if a < limit {
        assert(nearest(a, d) <= 0x20_0000_0000_0000) by {
            let q = a / d;
            vstd::arithmetic::div_mod::lemma_fundamental_div_mod(a as int, d as int);
            assert(q < 0x20_0000_0000_0000) by (nonlinear_arith)
                requires
                    d * q <= a,
                    a < d * 0x20_0000_0000_0000,
                    d > 0,
            ;
        }
        lemma_round_at_least(b, 2 * d);
    } else {
        rounding_keeps_order(a, b, 2 * d);
    }
}

/// A whole number up to two to the fifty-third, doubled any number of times, is a double.
proof fn lemma_doubled_is_exact(n: nat, e: nat)
    requires
        n <= 0x20_0000_0000_0000,
    ensures
        units(round_units(n * pow2(e), 1)) == n * pow2(e),
    decreases e,
{
    lemma2_to64();
    if e == 0 {
        assert(n * pow2(0) == n) by (nonlinear_arith)
            requires
                pow2(0) == 1,
        ;
        if n == 0x20_0000_0000_0000 {
            assert(round_units(n, 2) == nearest(n, 2));
            assert(round_units(n, 1) == 0x20_0000_0000_0000);
            assert(units(FRACTION as nat) == FRACTION);
        }
    } else {
        let half = n * pow2((e - 1) as nat);
        lemma_doubled_is_exact(n, (e - 1) as nat);
        lemma_pow2_unfold(e);
        assert(n * pow2(e) == half * 2) by (nonlinear_arith)
            requires
                pow2(e) == 2 * pow2((e - 1) as nat),
                half == n * pow2((e - 1) as nat),
        ;
        if half * 2 >= 0x20_0000_0000_0000 {
            lemma_round_scale(half, 1, 2);
            lemma_round_at_least(half, 1);
            let m = round_units(half, 1);
            assert(round_units(half * 2, 1) == FRACTION + m);
            assert(units((FRACTION + m) as nat) == 2 * units(m));
        } else {
            assert(nearest(half * 2, 1) == half * 2);
        }
    }
}

/// The whole numbers up to two to the fifty-third are doubles.
pub proof fn whole_numbers_are_exact(n: nat)
    requires
        n <= 0x20_0000_0000_0000,
    ensures
        Binary64::of_nat(n).finite(),
        !Binary64::of_nat(n).negative(),
        Binary64::of_nat(n).value() == n * pow2(UNIT_PLACES as nat),
        Binary64::of_nat(n).whole_part() == n,
{
    let one = pow2(UNIT_PLACES as nat);
    let m = round_units(n * one, 1);
    lemma_pow2_pos(UNIT_PLACES as nat);
    lemma_doubled_is_exact(n, UNIT_PLACES as nat);
    if m >= INFINITE {
        lemma2_to64();
        lemma2_to64_rest();
        lemma_units_of_fields(2047, 0);
        if m > INFINITE {
            units_increase(INFINITE as nat, m);
        }
        lemma_pow2_adds(52, 2046);
        lemma_pow2_adds(53, 1074);
        lemma_pow2_strictly_increases(1127, 2098);
        assert(n * one <= pow2(53) * one) by (nonlinear_arith)
            requires
                n <= pow2(53),
        ;
        assert(false);
    }
    vstd::arithmetic::div_mod::lemma_div_by_multiple(n as int, one as int);
}

/// One less than a whole number, in doubles, up to two to the fifty-third.
pub proof fn whole_numbers_count_down(n: nat)
    requires
        0 < n <= 0x20_0000_0000_0000,
    ensures
        Binary64::of_nat(n).sum(Binary64::one().opposite()) == Binary64::of_nat((n - 1) as nat),
{
    let unit = pow2(UNIT_PLACES as nat);
    lemma_pow2_pos(UNIT_PLACES as nat);
    whole_numbers_are_exact(n);
    lemma_one();
    let s = Binary64::of_nat(n).value() + Binary64::one().opposite().value();
    assert(s == (n - 1) * unit) by (nonlinear_arith)
        requires
            s == n * unit - unit,
    ;
    if n == 1 {
        assert(0 * unit == 0);
        assert(nearest(0, 1) == 0);
    } else {
        assert(s > 0) by (nonlinear_arith)
            requires
                s == (n - 1) * unit,
                n > 1,
                unit > 0,
        ;
    }
}

/// The number one is as many units as the unit has places.
pub(crate) proof fn lemma_one()
    ensures
        units(Binary64::one().magnitude()) == pow2(UNIT_PLACES as nat),
        Binary64::one().opposite().negative(),
        Binary64::one().opposite().magnitude() == Binary64::one().magnitude(),
        !Binary64::one().negative(),
        Binary64::one().finite(),
{
    lemma2_to64();
    lemma2_to64_rest();
    lemma_units_of_fields(1023, 0);
    lemma_pow2_adds(52, 1022);
}

/// Of two numbers in order, the whole parts are in order.
pub proof fn whole_parts_keep_order(a: Binary64, b: Binary64)
    requires
        !a.nan(),
        !b.nan(),
        !a.above(b),
    ensures
        a.whole_part() <= b.whole_part(),
{
    lemma_pow2_pos(UNIT_PLACES as nat);
    if !a.negative() && b.finite() {
        if a.magnitude() < b.magnitude() {
            units_increase(a.magnitude(), b.magnitude());
        }
        vstd::arithmetic::div_mod::lemma_div_is_ordered(
            units(a.magnitude()) as int,
            units(b.magnitude()) as int,
            pow2(UNIT_PLACES as nat) as int,
        );
    }
}

/// Finite numbers are ordered as their values are.
pub proof fn order_is_that_of_values(a: Binary64, b: Binary64)
    requires
        a.finite(),
        b.finite(),
    ensures
        a.above(b) <==> a.value() > b.value(),
{
    let (x, y) = (a.magnitude(), b.magnitude());
    lemma_units_at_least(x);
    lemma_units_at_least(y);
    if x < y {
        units_increase(x, y);
    } else if y < x {
        units_increase(y, x);
    }
}

/// The number one is the double of the whole number one.
pub proof fn one_is_one()
    ensures
        Binary64::of_nat(1) == Binary64::one(),
        Binary64::one().value() == pow2(UNIT_PLACES as nat),
{
    lemma_one();
    let m = Binary64::one().magnitude();
    lemma_round_is_exact(m, 1);
    assert(1 * pow2(UNIT_PLACES as nat) == pow2(UNIT_PLACES as nat));
    assert(units(m) * 1 == units(m));
}

/// The double of the whole number zero is zero.
pub proof fn zero_is_zero()
    ensures
        Binary64::of_nat(0) == (Binary64 { bits: 0 }),
{
    assert(0 * pow2(UNIT_PLACES as nat) == 0);
    assert(nearest(0, 1) == 0);
}

/// Adding zero changes nothing.
pub proof fn adding_zero_changes_nothing(x: Binary64)
    requires
        x.finite(),
        !x.negative(),
    ensures
        x.sum((Binary64 { bits: 0 })) == x,
{
    lemma_units_at_least(x.magnitude());
    lemma_round_is_exact(x.magnitude(), 1);
    assert(units(x.magnitude()) * 1 == units(x.magnitude()));
}

/// Zero times a finite number, or over one that is not zero, is zero.
pub proof fn zero_stays_zero(x: Binary64)
    requires
        x.finite(),
        !x.negative(),
    ensures
        (Binary64 { bits: 0 }).product(x) == (Binary64 { bits: 0 }),
        !x.zero() ==> (Binary64 { bits: 0 }).quotient(x) == (Binary64 { bits: 0 }),
{
    let one = pow2(UNIT_PLACES as nat);
    let u = units(x.magnitude());
    lemma_pow2_pos(UNIT_PLACES as nat);
    lemma_units_at_least(x.magnitude());
    assert(0 * u == 0);
    assert(0 * one == 0);
    assert(round_units(0, one) == 0) by {
        assert(0 < one * 0x20_0000_0000_0000);
        assert(nearest(0, one) == 0);
    }
    if u > 0 {
        assert(round_units(0, u) == 0) by {
            assert(0 < u * 0x20_0000_0000_0000);
            assert(nearest(0, u) == 0);
        }
    }
}

/// Taking one from a number that is at least one leaves a number from zero up to it.
pub proof fn taking_one_lowers(x: Binary64)
    requires
        x.finite(),
        !x.negative(),
        !Binary64::one().above(x),
    ensures
        x.sum(Binary64::one().opposite()).finite(),
        !x.sum(Binary64::one().opposite()).negative(),
        !x.sum(Binary64::one().opposite()).above(x),
{
    lemma_one();
    one_is_one();
    order_is_that_of_values(Binary64::one(), x);
    let m = x.magnitude();
    let s = x.value() - pow2(UNIT_PLACES as nat);
    lemma_round_is_exact(m, 1);
    assert(units(m) * 1 == units(m));
    if s > 0 {
        rounding_keeps_order(s as nat, units(m), 1);
    }
}

/// Sums and products of finite numbers from zero up are numbers from zero up.
pub proof fn no_sign_stays_no_sign(x: Binary64, y: Binary64)
    requires
        !x.nan(),
        !x.negative(),
        !y.nan(),
        !y.negative(),
    ensures
        !x.sum(y).nan(),
        !x.sum(y).negative(),
        x.finite() && y.finite() ==> !x.product(y).nan() && !x.product(y).negative(),
{
    lemma_units_at_least(x.magnitude());
    lemma_units_at_least(y.magnitude());
}

/// A number over one that is no less is one at most.
pub proof fn shares_are_at_most_one(x: Binary64, y: Binary64)
    requires
        x.finite(),
        !x.negative(),
        y.finite(),
        !y.negative(),
        !y.zero(),
        !x.above(y),
    ensures
        x.quotient(y).finite(),
        !x.quotient(y).negative(),
        !x.quotient(y).above(Binary64::one()),
{
    let one = pow2(UNIT_PLACES as nat);
    let (u, v) = (units(x.magnitude()), units(y.magnitude()));
    let m = Binary64::one().magnitude();
    lemma_one();
    lemma_units_at_least(y.magnitude());
    order_is_that_of_values(x, y);
    assert(u * one <= v * one) by (nonlinear_arith)
        requires
            u <= v,
    ;
    assert(v * one == one * v) by (nonlinear_arith);
    lemma_round_is_exact(m, v);
    rounding_keeps_order(u * one, v * one, v);
}

/// The whole numbers up to two to the sixty-eighth are in the range of the doubles.
pub proof fn whole_numbers_are_finite(n: nat)
    requires
        n <= 0x10_0000_0000_0000_0000,
    ensures
        Binary64::of_nat(n).finite(),
        !Binary64::of_nat(n).negative(),
        n > 0 ==> !Binary64::of_nat(n).zero(),
{
    let unit = pow2(UNIT_PLACES as nat);
    let top = 0x10_0000_0000_0000_0000nat;
    lemma2_to64();
    lemma2_to64_rest();
    lemma_pow2_pos(UNIT_PLACES as nat);
    lemma_pow2_adds(15, UNIT_PLACES as nat);
    lemma_doubled_is_exact(0x20_0000_0000_0000, 15 + UNIT_PLACES as nat);
    assert(top * unit == 0x20_0000_0000_0000 * (0x8000 * unit)) by (nonlinear_arith)
        requires
            top == 0x20_0000_0000_0000 * 0x8000,
    ;
    let m = round_units(top * unit, 1);
    if m >= INFINITE {
        lemma_units_of_fields(2047, 0);
        if m > INFINITE {
            units_increase(INFINITE as nat, m);
        }
        lemma_pow2_adds(52, 2046);
        lemma_pow2_adds(53, 15 + UNIT_PLACES as nat);
        lemma_pow2_strictly_increases(1142, 2098);
        assert(false);
    }
    assert(n * unit <= top * unit) by (nonlinear_arith)
        requires
            n <= top,
    ;
    rounding_keeps_order(n * unit, top * unit, 1);
    if n > 0 {
        assert(unit <= n * unit) by (nonlinear_arith)
            requires
                n >= 1,
        ;
        rounding_keeps_order(unit, n * unit, 1);
        one_is_one();
        assert(1 * unit == unit);
    }
}

/// Sums and products of whole numbers that are doubles are those of the numbers, rounded.
pub proof fn whole_numbers_add_and_multiply(a: nat, b: nat)
    requires
        a <= 0x20_0000_0000_0000,
        b <= 0x20_0000_0000_0000,
    ensures
        Binary64::of_nat(a).sum(Binary64::of_nat(b)) == Binary64::of_nat(a + b),
        Binary64::of_nat(a).product(Binary64::of_nat(b)) == Binary64::of_nat(a * b),
{
    let unit = pow2(UNIT_PLACES as nat);
    lemma_pow2_pos(UNIT_PLACES as nat);
    whole_numbers_are_exact(a);
    whole_numbers_are_exact(b);
    assert(a * unit + b * unit == (a + b) * unit) by (nonlinear_arith);
    if (a + b) * unit == 0 {
        assert(nearest(0, 1) == 0);
    }
    assert((a * unit) * (b * unit) == (a * b * unit) * unit) by (nonlinear_arith);
    lemma_round_scale(a * b * unit, 1, unit);
    assert(1 * unit == unit);
}

/// Whole numbers keep their order as doubles.
pub proof fn whole_numbers_keep_order(a: nat, b: nat)
    requires
        a <= b <= 0x10_0000_0000_0000_0000,
    ensures
        !Binary64::of_nat(a).above(Binary64::of_nat(b)),
{
    let unit = pow2(UNIT_PLACES as nat);
    whole_numbers_are_finite(a);
    whole_numbers_are_finite(b);
    assert(a * unit <= b * unit) by (nonlinear_arith)
        requires
            a <= b,
    ;
    rounding_keeps_order(a * unit, b * unit, 1);
}

/// Adding a number that is not negative does not make less.
pub proof fn adding_does_not_lower(x: Binary64, y: Binary64)
    requires
        x.finite(),
        !x.negative(),
        y.finite(),
        !y.negative(),
    ensures
        !x.above(x.sum(y)),
        !y.above(x.sum(y)),
        !x.sum(y).nan(),
{
    no_sign_stays_no_sign(x, y);
    let (m, k) = (x.magnitude(), y.magnitude());
    lemma_units_at_least(m);
    lemma_units_at_least(k);
    lemma_round_is_exact(m, 1);
    lemma_round_is_exact(k, 1);
    assert(units(m) * 1 == units(m));
    assert(units(k) * 1 == units(k));
    rounding_keeps_order(units(m), units(m) + units(k), 1);
    rounding_keeps_order(units(k), units(m) + units(k), 1);
}

/// Repeated squaring of whole numbers is exact as long as it stays below two to the
/// fifty-third.
proof fn lemma_raise_whole(r: nat, q: nat, n: nat)
    requires
        r >= 1,
        q >= 1,
        r * pow(q as int, n) <= 0x20_0000_0000_0000,
    ensures
        raise(Binary64::of_nat(r), Binary64::of_nat(q), n) == Binary64::of_nat(
            (r * pow(q as int, n)) as nat,
        ),
    decreases n,
{
    let p = pow(q as int, n);
    lemma_pow_positive(q as int, n);
    assert(r <= r * p && p <= r * p) by (nonlinear_arith)
        requires
            r >= 1,
            p >= 1,
    ;
    if n == 0 {
        lemma_pow0(q as int);
        assert(r * 1 == r);
    } else if n == 1 {
        lemma_pow1(q as int);
        whole_numbers_add_and_multiply(r, q);
    } else {
        let half = n / 2;
        let square = q * q;
        lemma_pow_multiplies(q as int, 2, half);
        lemma_pow1(q as int);
        lemma_pow_adds(q as int, 1, 1);
        assert(pow(q as int, 2) == square);
        assert(pow(square as int, half) == pow(q as int, 2 * half));
        assert(q <= square && square >= 1) by (nonlinear_arith)
            requires
                square == q * q,
                q >= 1,
        ;
        lemma_pow_positive(square as int, half);
        lemma_pow_positive(q as int, (n - 2) as nat);
        lemma_pow_adds(q as int, 2, (n - 2) as nat);
        assert(square <= p) by (nonlinear_arith)
            requires
                p == square * pow(q as int, (n - 2) as nat),
                pow(q as int, (n - 2) as nat) >= 1,
                square >= 0,
        ;
        whole_numbers_add_and_multiply(q, q);
        if n % 2 == 1 {
            lemma_pow_adds(q as int, 1, 2 * half);
            let rest = pow(square as int, half);
            assert((r * q) * rest == r * p) by (nonlinear_arith)
                requires
                    p == q * rest,
            ;
            assert(r * q >= 1) by (nonlinear_arith)
                requires
                    r >= 1,
                    q >= 1,
            ;
            whole_numbers_add_and_multiply(r, q);
            lemma_raise_whole(r * q, square, half);
        } else {
            lemma_raise_whole(r, square, half);
        }
    }
}

/// The powers of a whole number are exact up to two to the fifty-third.
pub proof fn whole_powers_are_exact(q: nat, n: nat)
    requires
        q >= 1,
        pow(q as int, n) <= 0x20_0000_0000_0000,
    ensures
        Binary64::of_nat(q).whole_power(n as int) == Binary64::of_nat(pow(q as int, n) as nat),
{
    one_is_one();
    lemma_raise_whole(1, q, n);
    assert(1 * pow(q as int, n) == pow(q as int, n));
}

/// Of numbers without a sign: the difference of equals is zero, zero taken away or added
/// to changes nothing, one divides nothing, and zero makes zero.
pub proof fn neutral_numbers(x: Binary64)
    requires
        x.finite(),
        !x.negative(),
    ensures
        x.sum(x.opposite()) == (Binary64 { bits: 0 }),
        x.sum((Binary64 { bits: 0 }).opposite()) == x,
        (Binary64 { bits: 0 }).sum(x) == x,
        x.quotient(Binary64::one()) == x,
        x.product((Binary64 { bits: 0 })) == (Binary64 { bits: 0 }),
        (Binary64 { bits: 0 }).root() == (Binary64 { bits: 0 }),
{
    let unit = pow2(UNIT_PLACES as nat);
    let m = x.magnitude();
    lemma_pow2_pos(UNIT_PLACES as nat);
    lemma_units_at_least(m);
    lemma_round_is_exact(m, 1);
    lemma_round_is_exact(m, unit);
    lemma_one();
    assert(units(m) * 1 == units(m));
    assert(units(m) * 0 == 0);
    assert(round_units(0, unit) == 0) by {
        assert(0 < unit * 0x20_0000_0000_0000);
        assert(nearest(0, unit) == 0);
    }
}

} // verus!
