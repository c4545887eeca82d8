//! Double-precision numbers in the IEEE 754 binary64 format, on their bit patterns.
//!
//! Every finite double is a whole number of units of 2^-1074, so a magnitude is
//! modelled as a natural number of units, and each operation is stated as the exact
//! result in units, rounded to the nearest double (ties to even).

use vstd::arithmetic::div_mod::lemma_fundamental_div_mod;
use vstd::arithmetic::div_mod::lemma_fundamental_div_mod_converse;
use vstd::prelude::*;
use vstd::std_specs::cmp::PartialEqSpecImpl;

use crate::natural::lemma_pow2_monotone;
use crate::natural::lemma_pow2_pos;
use crate::natural::lemma_pow2_sum;
use crate::natural::lemma_pow2_values;
use crate::natural::pow2;
use crate::natural::Natural;

verus! {

/// The magnitude of infinity.
pub const INFINITE: u64 = 0x7ff0_0000_0000_0000;

/// The magnitude of the quiet NaN.
pub const NOT_A_NUMBER: u64 = 0x7ff8_0000_0000_0000;

/// The sign bit.
pub const SIGN: u64 = 0x8000_0000_0000_0000;

/// 2 to the power 52: the weight of the implicit bit of a mantissa.
pub const HIDDEN: u64 = 0x10_0000_0000_0000;

// ---------------------------------------------------------------------------
// The model
// ---------------------------------------------------------------------------

/// The mantissa of a finite magnitude, with its implicit bit.
pub open spec fn mantissa(m: nat) -> nat {
    if m < HIDDEN {
        m
    } else {
        m % (HIDDEN as nat) + HIDDEN as nat
    }
}

/// The exponent of a finite magnitude: its units are the mantissa times 2 to this
/// power.
pub open spec fn exponent(m: nat) -> nat {
    if m < HIDDEN {
        0
    } else {
        (m / (HIDDEN as nat) - 1) as nat
    }
}

/// The value of a finite magnitude, in units of 2^-1074.
pub open spec fn units(m: nat) -> nat {
    mantissa(m) * pow2(exponent(m))
}

/// The quotient `q` with the remainder `r` of a division by `d`, rounded to the
/// nearest whole number, ties to the even one.
pub open spec fn rounded(q: nat, r: nat, d: nat) -> nat {
    if 2 * r < d {
        q
    } else if 2 * r > d {
        q + 1
    } else if q % 2 == 0 {
        q
    } else {
        q + 1
    }
}

/// The smallest exponent from `k` on at which the mantissa of `n / d` units fits in
/// 53 bits.
pub open spec fn fit(n: nat, d: nat, k: nat) -> nat
    decreases n - k,
{
    if d == 0 || k >= n || n < d * pow2(k + 53) {
        k
    } else {
        fit(n, d, k + 1)
    }
}

/// The magnitude that the rounded mantissa `q` at the exponent `k` makes, which is
/// infinite where it is too large.
pub open spec fn packed(q: nat, k: nat) -> nat {
    let m = k * HIDDEN as nat + q;
    if m > INFINITE {
        INFINITE as nat
    } else {
        m
    }
}

/// The magnitude nearest to `n / d` units; of two that are equally near, the even
/// one.
pub open spec fn nearest(n: nat, d: nat) -> nat {
    let k = fit(n, d, 0);
    let step = d * pow2(k);
    packed(rounded(n / step, n % step, step), k)
}

/// Two to the power 1074: the units that make one.
pub open spec fn one() -> nat {
    pow2(1074)
}

// ---------------------------------------------------------------------------
// Lemmas on rounding
// ---------------------------------------------------------------------------

proof fn lemma_pow2_exceeds(k: nat)
    ensures
        pow2(k) > k,
    decreases k,
{
    if k > 0 {
        lemma_pow2_exceeds((k - 1) as nat);
    }
}

proof fn lemma_fit(n: nat, d: nat, from: nat, k: nat)
    requires
        d > 0,
        from <= k,
        n < d * pow2(k + 53),
        k > 0 ==> n >= d * pow2((k + 52) as nat),
    ensures
        fit(n, d, from) == k,
    decreases k - from,
{
    if from < k {
        lemma_pow2_exceeds(from + 53);
        lemma_pow2_monotone(from + 53, (k + 52) as nat);
        let p = pow2(from + 53);
        let q = pow2((k + 52) as nat);
        assert(d * p <= d * q) by (nonlinear_arith)
            requires
                p <= q,
        ;
        assert(p <= d * p) by (nonlinear_arith)
            requires
                d >= 1,
        ;
        lemma_fit(n, d, from + 1, k);
    }
}

/// How a quotient at the right exponent gives the nearest magnitude.
pub proof fn lemma_nearest(n: nat, d: nat, k: nat, q: nat, r: nat)
    requires
        d > 0,
        n < d * pow2(k + 53),
        k > 0 ==> n >= d * pow2((k + 52) as nat),
        n == q * (d * pow2(k)) + r,
        r < d * pow2(k),
    ensures
        nearest(n, d) == packed(rounded(q, r, d * pow2(k)), k),
{
    lemma_fit(n, d, 0, k);
    lemma_fundamental_div_mod_converse(n as int, (d * pow2(k)) as int, q as int, r as int);
}

/// Scaling both sides of a ratio leaves its quotient and scales its remainder.
pub proof fn lemma_nearest_scaled(n: nat, d: nat, c: nat)
    requires
        d > 0,
        c > 0,
    ensures
        nearest(n * c, d * c) == nearest(n, d),
{
    let k = fit(n, d, 0);
    lemma_fit_bounds(n, d, 0);
    lemma_pow2_pos(k);
    let step = d * pow2(k);
    assert(step > 0) by (nonlinear_arith)
        requires
            d > 0,
            pow2(k) > 0,
            step == d * pow2(k),
    ;
    let q = n / step;
    let r = n % step;
    lemma_fundamental_div_mod(n as int, step as int);
    assert(q * step == step * q) by (nonlinear_arith);
    lemma_nearest(n, d, k, q, r);
    let p = pow2(k);
    let top = pow2(k + 53);
    assert(n * c < (d * c) * top) by (nonlinear_arith)
        requires
            n < d * top,
            c > 0,
    ;
    if k > 0 {
        let low = pow2((k + 52) as nat);
        assert(n * c >= (d * c) * low) by (nonlinear_arith)
            requires
                n >= d * low,
                c > 0,
        ;
    }
    assert((d * c) * p == step * c) by (nonlinear_arith)
        requires
            step == d * p,
    ;
    assert(n * c == q * (step * c) + r * c) by (nonlinear_arith)
        requires
            n == q * step + r,
    ;
    assert(r * c < step * c) by (nonlinear_arith)
        requires
            r < step,
            c > 0,
    ;
    lemma_nearest(n * c, d * c, k, q, r * c);
    assert(2 * r < step ==> 2 * (r * c) < step * c) by (nonlinear_arith)
        requires
            c > 0,
    ;
    assert(2 * r > step ==> 2 * (r * c) > step * c) by (nonlinear_arith)
        requires
            c > 0,
    ;
    assert(2 * r == step ==> 2 * (r * c) == step * c) by (nonlinear_arith);
}

pub proof fn lemma_fit_bounds(n: nat, d: nat, from: nat)
    requires
        d > 0,
        from > 0 ==> n >= d * pow2((from + 52) as nat),
    ensures
        ({
            let k = fit(n, d, from);
            &&& n < d * pow2(k + 53)
            &&& k > 0 ==> n >= d * pow2((k + 52) as nat)
        }),
    decreases n - from,
{
    lemma_pow2_exceeds(from + 53);
    let p = pow2(from + 53);
    assert(p <= d * p) by (nonlinear_arith)
        requires
            d >= 1,
    ;
    if !(from >= n || n < d * pow2(from + 53)) {
        lemma_fit_bounds(n, d, from + 1);
    }
}

/// A finite magnitude is its exponent and its mantissa, which is full but for the
/// smallest exponent.
pub proof fn lemma_decode(m: nat)
    requires
        m < INFINITE,
    ensures
        mantissa(m) < 2 * HIDDEN,
        exponent(m) <= 2045,
        exponent(m) > 0 ==> mantissa(m) >= HIDDEN,
        m == exponent(m) * HIDDEN as nat + mantissa(m),
{
}

/// A ratio at most a quarter of a step above a double rounds to that double.
proof fn lemma_close_above(q: nat, k: nat, n: nat, d: nat)
    requires
        q < 2 * HIDDEN,
        k > 0 ==> q >= HIDDEN,
        d > 0,
        n >= q * (d * pow2(k)),
        4 * (n - q * (d * pow2(k))) < d * pow2(k),
    ensures
        nearest(n, d) == packed(q, k),
{
    let p = pow2(k);
    let step = d * p;
    let h = HIDDEN as nat;
    lemma_pow2_sum(k, 53);
    lemma_pow2_sum(k, 52);
    lemma_pow2_values();
    assert(d * (p * (2 * h)) == (2 * h) * step) by (nonlinear_arith)
        requires
            step == d * p,
    ;
    assert(d * (p * h) == h * step) by (nonlinear_arith)
        requires
            step == d * p,
    ;
    assert(q * step + step <= (2 * h) * step) by (nonlinear_arith)
        requires
            q + 1 <= 2 * h,
    ;
    if k > 0 {
        assert(q * step >= h * step) by (nonlinear_arith)
            requires
                q >= h,
        ;
    }
    lemma_nearest(n, d, k, q, (n - q * step) as nat);
}

/// A ratio less than a quarter of a step below a double rounds to that double.
proof fn lemma_close_below(q: nat, k: nat, n: nat, d: nat)
    requires
        1 <= q < 2 * HIDDEN,
        k > 0 ==> q > HIDDEN,
        d > 0,
        n < q * (d * pow2(k)),
        4 * (q * (d * pow2(k)) - n) < d * pow2(k),
    ensures
        nearest(n, d) == packed(q, k),
{
    let p = pow2(k);
    let step = d * p;
    let h = HIDDEN as nat;
    lemma_pow2_sum(k, 53);
    lemma_pow2_sum(k, 52);
    lemma_pow2_values();
    assert(d * (p * (2 * h)) == (2 * h) * step) by (nonlinear_arith)
        requires
            step == d * p,
    ;
    assert(d * (p * h) == h * step) by (nonlinear_arith)
        requires
            step == d * p,
    ;
    assert(q * step <= (2 * h) * step) by (nonlinear_arith)
        requires
            q <= 2 * h,
    ;
    let low = (q - 1) as nat;
    assert(low * step + step == q * step) by (nonlinear_arith)
        requires
            low + 1 == q,
    ;
    if k > 0 {
        assert(low * step >= h * step) by (nonlinear_arith)
            requires
                low >= h,
        ;
    }
    lemma_nearest(n, d, k, low, (n - low * step) as nat);
}

/// The same just below a power of two, where the steps are half as wide.
proof fn lemma_close_below_power(k: nat, n: nat, d: nat)
    requires
        k > 0,
        d > 0,
        n < HIDDEN as nat * (d * pow2(k)),
        4 * (HIDDEN as nat * (d * pow2(k)) - n) < d * pow2(k),
    ensures
        nearest(n, d) == packed(HIDDEN as nat, k),
{
    let j = (k - 1) as nat;
    let p = pow2(j);
    let step = d * p;
    let h = HIDDEN as nat;
    lemma_pow2_sum(j, 53);
    lemma_pow2_sum(j, 52);
    lemma_pow2_values();
    assert(d * pow2(k) == 2 * step) by (nonlinear_arith)
        requires
            step == d * p,
            pow2(k) == 2 * p,
    ;
    assert(h * (2 * step) == (2 * h) * step) by (nonlinear_arith);
    assert(d * (p * (2 * h)) == (2 * h) * step) by (nonlinear_arith)
        requires
            step == d * p,
    ;
    assert(d * (p * h) == h * step) by (nonlinear_arith)
        requires
            step == d * p,
    ;
    let low = (2 * h - 1) as nat;
    assert(low * step + step == (2 * h) * step) by (nonlinear_arith)
        requires
            low + 1 == 2 * h,
    ;
    assert(low * step >= h * step) by (nonlinear_arith)
        requires
            low >= h,
    ;
    lemma_nearest(n, d, j, low, (n - low * step) as nat);
}

/// A ratio that is less than a quarter of a step away from a double rounds to that
/// double.
pub proof fn lemma_nearest_close(m: nat, n: nat, d: nat)
    requires
        0 < m < INFINITE,
        d > 0,
        4 * (n - units(m) * d) < d * pow2(exponent(m)),
        4 * (units(m) * d - n) < d * pow2(exponent(m)),
    ensures
        nearest(n, d) == m,
{
    lemma_decode(m);
    let q = mantissa(m);
    let k = exponent(m);
    let u = units(m);
    let p = pow2(k);
    assert(u * d == q * (d * p)) by (nonlinear_arith)
        requires
            u == q * p,
    ;
    if n >= u * d {
        lemma_close_above(q, k, n, d);
    } else if k > 0 && q == HIDDEN {
        lemma_close_below_power(k, n, d);
    } else {
        lemma_close_below(q, k, n, d);
    }
}

/// A double is its own nearest double.
pub proof fn law_nearest_exact(m: nat)
    requires
        m < INFINITE,
    ensures
        nearest(units(m), 1) == m,
{
    lemma_decode(m);
    let u = units(m);
    if m == 0 {
        assert(pow2(0) == 1);
        assert(0 * pow2(0) == 0) by (nonlinear_arith);
        lemma_nearest_zero(1);
    } else {
        lemma_pow2_pos(exponent(m));
        lemma_nearest_close(m, u, 1);
    }
}

pub proof fn lemma_nearest_zero(d: nat)
    requires
        d > 0,
    ensures
        nearest(0, d) == 0,
{
    lemma_pow2_pos(53);
    assert(pow2(0) == 1);
    assert(0 < d * pow2(0 + 53)) by (nonlinear_arith)
        requires
            d > 0,
            pow2(53) > 0,
    ;
    assert(0 * (d * pow2(0)) == 0);
    lemma_nearest(0, d, 0, 0, 0);
}

// ---------------------------------------------------------------------------
// Machine arithmetic behind the rounding
// ---------------------------------------------------------------------------

/// 2 to the power `k`.
fn pow2_u128(k: u32) -> (r: u128)
    requires
        k < 128,
    ensures
        r == pow2(k as nat),
{
    let mut r: u128 = 1;
    let mut i: u32 = 0;
    while i < k
        invariant
            i <= k < 128,
            r == pow2(i as nat),
        decreases k - i,
    {
        proof {
            lemma_pow2_monotone(i as nat, 126);
            lemma_pow2_values();
        }
        r = 2 * r;
        i += 1;
    }
    r
}

/// The number of bits of `n`.
fn bit_length(n: u128) -> (r: u32)
    ensures
        r <= 128,
        n < pow2(r as nat),
        r > 0 ==> pow2((r - 1) as nat) <= n,
        r == 0 ==> n == 0,
{
    let mut t: u128 = n;
    let mut k: u32 = 0;
    let ghost mut scale: nat = 1;
    assert(t as nat * 1 == t) by (nonlinear_arith);
    assert((t as nat + 1) * 1 == t + 1) by (nonlinear_arith);
    while t > 0
        invariant
            scale == pow2(k as nat),
            t as nat * scale <= n,
            n < (t as nat + 1) * scale,
            k <= 128,
            k == 128 ==> t == 0,
            k > 0 ==> pow2((k - 1) as nat) <= n,
            k == 0 ==> t == n,
        decreases t,
    {
        proof {
            let h = t / 2;
            assert((h as nat) * (2 * scale) <= t as nat * scale) by (nonlinear_arith)
                requires
                    h == t / 2,
            ;
            assert((t as nat + 1) * scale <= (h as nat + 1) * (2 * scale)) by (nonlinear_arith)
                requires
                    h == t / 2,
            ;
            if k == 127 {
                lemma_pow2_values();
                assert(t < 2) by (nonlinear_arith)
                    requires
                        t as nat * 0x8000_0000_0000_0000_0000_0000_0000_0000 <= n,
                        n <= 0xffff_ffff_ffff_ffff_ffff_ffff_ffff_ffff,
                ;
            }
            assert(scale <= t as nat * scale) by (nonlinear_arith)
                requires
                    t >= 1,
            ;
            scale = 2 * scale;
        }
        t = t / 2;
        k += 1;
    }
    assert((0 + 1) * scale == scale) by (nonlinear_arith);
    k
}

fn round_up(q: u64, r: u128, d: u128) -> (m: u64)
    requires
        q < 2 * HIDDEN,
        r < d,
    ensures
        m == rounded(q as nat, r as nat, d as nat),
        m <= 2 * HIDDEN,
{
    let rest: u128 = d - r;
    if r < rest || (r == rest && q % 2 == 0) {
        q
    } else {
        q + 1
    }
}

fn pack(q: u64, k: u64) -> (m: u64)
    requires
        q <= 2 * HIDDEN,
    ensures
        m == packed(q as nat, k as nat),
        m <= INFINITE,
{
    if k >= 2047 {
        INFINITE
    } else {
        let m: u64 = k * HIDDEN + q;
        if m > INFINITE {
            INFINITE
        } else {
            m
        }
    }
}

/// The ratio that stands for `n * 2^s` units.
pub open spec fn dyadic(n: nat, s: int) -> (nat, nat) {
    if s >= 0 {
        (n * pow2(s as nat), 1)
    } else {
        (n, pow2((-s) as nat))
    }
}

/// The magnitude nearest to `n * 2^s` units.
fn nearest_dyadic(n: u128, s: i32) -> (r: u64)
    requires
        -4000 <= s <= 4000,
    ensures
        r == nearest(dyadic(n as nat, s as int).0, dyadic(n as nat, s as int).1),
        r <= INFINITE,
{
    let ghost (num, den) = dyadic(n as nat, s as int);
    if n == 0 {
        proof {
            lemma_pow2_pos((if s < 0 { -s } else { 0 }) as nat);
            lemma_nearest_zero(den);
            if s >= 0 {
                assert(0 * pow2(s as nat) == 0);
            }
        }
        return 0;
    }
    let len: i32 = bit_length(n) as i32;
    let k: i32 = if len + s > 53 {
        len + s - 53
    } else {
        0
    };
    let t: i32 = k - s;
    proof {
        lemma_dyadic_bounds(n as nat, s as int, len as nat, k as nat);
    }
    let q: u64 = if t <= 0 {
        shifted_up(n, len, -t)
    } else {
        shifted_down(n, len, t)
    };
    proof {
        lemma_dyadic_nearest(n as nat, s as int, k as nat, q as nat);
    }
    pack(q, k as u64)
}

/// `n * 2^t`, where that fits in 53 bits.
fn shifted_up(n: u128, len: i32, t: i32) -> (q: u64)
    requires
        0 < len,
        0 <= t,
        len + t <= 53,
        n < pow2(len as nat),
    ensures
        q == n * pow2(t as nat),
        q < 2 * HIDDEN,
{
    let f: u128 = pow2_u128(t as u32);
    proof {
        lemma_pow2_sum(len as nat, t as nat);
        lemma_pow2_monotone((len + t) as nat, 53);
        lemma_pow2_pos(t as nat);
        lemma_pow2_values();
        assert(n * f < pow2(len as nat) * f) by (nonlinear_arith)
            requires
                n < pow2(len as nat),
                f > 0,
        ;
    }
    (n * f) as u64
}

/// `n / 2^t`, rounded, where it fits in 53 bits.
fn shifted_down(n: u128, len: i32, t: i32) -> (q: u64)
    requires
        0 < len <= 128,
        0 < t,
        len - t <= 53,
        n < pow2(len as nat),
    ensures
        q == rounded(n as nat / pow2(t as nat), n as nat % pow2(t as nat), pow2(t as nat)),
        q <= 2 * HIDDEN,
{
    proof {
        lemma_pow2_pos(t as nat);
        lemma_pow2_values();
    }
    if t >= 128 {
        proof {
            lemma_pow2_monotone(128, t as nat);
            lemma_fundamental_div_mod_converse(n as int, pow2(t as nat) as int, 0, n as int);
            if t > 128 {
                lemma_pow2_monotone(128, (t - 1) as nat);
                assert(pow2(t as nat) == 2 * pow2((t - 1) as nat));
            }
        }
        return if t == 128 && n > 0x8000_0000_0000_0000_0000_0000_0000_0000 {
            1
        } else {
            0
        };
    }
    let d: u128 = pow2_u128(t as u32);
    let q: u128 = n / d;
    let r: u128 = n % d;
    proof {
        lemma_fundamental_div_mod(n as int, d as int);
        if len > t {
            lemma_pow2_sum(t as nat, (len - t) as nat);
            let top = pow2((len - t) as nat);
            assert(q < top) by (nonlinear_arith)
                requires
                    n == d * q + r,
                    n < d * top,
                    d > 0,
            ;
            lemma_pow2_monotone((len - t) as nat, 53);
        } else {
            lemma_pow2_monotone(len as nat, t as nat);
            assert(q == 0) by (nonlinear_arith)
                requires
                    n == d * q + r,
                    n < d,
                    d > 0,
            ;
        }
    }
    round_up(q as u64, r, d)
}

/// The nearest magnitude of a dyadic number from its mantissa at the exponent `k`.
proof fn lemma_dyadic_nearest(n: nat, s: int, k: nat, q: nat)
    requires
        dyadic(n, s).1 > 0,
        dyadic(n, s).0 < dyadic(n, s).1 * pow2(k + 53),
        k > 0 ==> dyadic(n, s).0 >= dyadic(n, s).1 * pow2((k + 52) as nat),
        k - s <= 0 ==> q == n * pow2((s - k) as nat),
        k - s > 0 ==> q == rounded(
            n / pow2((k - s) as nat),
            n % pow2((k - s) as nat),
            pow2((k - s) as nat),
        ),
    ensures
        nearest(dyadic(n, s).0, dyadic(n, s).1) == packed(q, k),
{
    let (num, den) = dyadic(n, s);
    lemma_pow2_pos(k);
    if k - s <= 0 {
        lemma_dyadic_step(n, s, k, q, 0, 0);
        let step = den * pow2(k);
        assert(step > 0) by (nonlinear_arith)
            requires
                den > 0,
                pow2(k) > 0,
                step == den * pow2(k),
        ;
        let c: nat = if s >= 0 { pow2(s as nat) } else { 1 };
        assert(0 * c == 0);
        lemma_nearest(num, den, k, q, 0);
    } else {
        let d = pow2((k - s) as nat);
        lemma_pow2_pos((k - s) as nat);
        let c: nat = if s >= 0 { pow2(s as nat) } else { 1 };
        lemma_fundamental_div_mod(n as int, d as int);
        let a = n / d;
        let r = n % d;
        assert(d * a == a * d) by (nonlinear_arith);
        lemma_dyadic_step(n, s, k, a, r, d);
        lemma_nearest(num, den, k, a, r * c);
        lemma_rounded_scaled(a, r, d, c);
    }
}

proof fn lemma_rounded_scaled(q: nat, r: nat, d: nat, c: nat)
    requires
        c > 0,
    ensures
        rounded(q, r * c, d * c) == rounded(q, r, d),
{
    assert(2 * r < d ==> 2 * (r * c) < d * c) by (nonlinear_arith)
        requires
            c > 0,
    ;
    assert(2 * r > d ==> 2 * (r * c) > d * c) by (nonlinear_arith)
        requires
            c > 0,
    ;
    assert(2 * r == d ==> 2 * (r * c) == d * c) by (nonlinear_arith);
}

proof fn lemma_dyadic_bounds(n: nat, s: int, len: nat, k: nat)
    requires
        n < pow2(len),
        len > 0,
        pow2((len - 1) as nat) <= n,
        k == (if len + s > 53 { len + s - 53 } else { 0 }),
    ensures
        dyadic(n, s).1 > 0,
        dyadic(n, s).0 < dyadic(n, s).1 * pow2(k + 53),
        k > 0 ==> dyadic(n, s).0 >= dyadic(n, s).1 * pow2((k + 52) as nat),
{
    let (num, den) = dyadic(n, s);
    if s >= 0 {
        let p = pow2(s as nat);
        lemma_pow2_pos(s as nat);
        lemma_pow2_sum(len, s as nat);
        lemma_pow2_monotone((len + s) as nat, k + 53);
        assert(n * p < pow2(len) * p) by (nonlinear_arith)
            requires
                n < pow2(len),
                p > 0,
        ;
        if k > 0 {
            lemma_pow2_sum((len - 1) as nat, s as nat);
            assert(pow2((len - 1) as nat) * p <= n * p) by (nonlinear_arith)
                requires
                    pow2((len - 1) as nat) <= n,
            ;
            assert((len - 1) as nat + s as nat == (k + 52) as nat);
        }
    } else {
        let t = (-s) as nat;
        lemma_pow2_pos(t);
        lemma_pow2_sum(t, k + 53);
        lemma_pow2_monotone(len, t + (k + 53));
        if k > 0 {
            lemma_pow2_sum(t, (k + 52) as nat);
            assert(t + (k + 52) as nat == (len - 1) as nat);
        }
    }
}

/// How a quotient by `2^(k - s)` makes one of the ratio.
proof fn lemma_dyadic_step(n: nat, s: int, k: nat, q: nat, r: nat, d: nat)
    requires
        k - s > 0 ==> d == pow2((k - s) as nat) && n == q * d + r && r < d,
        k - s <= 0 ==> q == n * pow2((s - k) as nat) && r == 0,
    ensures
        ({
            let (num, den) = dyadic(n, s);
            let c: nat = if s >= 0 { pow2(s as nat) } else { 1 };
            let step = den * pow2(k);
            &&& c > 0
            &&& num == q * step + r * c
            &&& k - s > 0 ==> step == d * c
            &&& k - s > 0 ==> r * c < step
        }),
{
    let (num, den) = dyadic(n, s);
    let c: nat = if s >= 0 { pow2(s as nat) } else { 1 };
    let step = den * pow2(k);
    if s >= 0 {
        lemma_pow2_pos(s as nat);
        assert(step == pow2(k)) by (nonlinear_arith)
            requires
                step == den * pow2(k),
                den == 1,
        ;
        if k - s > 0 {
            lemma_pow2_sum((k - s) as nat, s as nat);
            assert(n * c == q * (d * c) + r * c) by (nonlinear_arith)
                requires
                    n == q * d + r,
            ;
        } else {
            lemma_pow2_sum((s - k) as nat, k);
            let a = pow2((s - k) as nat);
            assert(n * (a * pow2(k)) == (n * a) * pow2(k)) by (nonlinear_arith);
            assert(0 * c == 0);
        }
    } else {
        let t = (-s) as nat;
        lemma_pow2_sum(t, k);
        assert(d * c == d) by (nonlinear_arith)
            requires
                c == 1,
        ;
        assert(r * c == r) by (nonlinear_arith)
            requires
                c == 1,
        ;
    }
    if k - s > 0 {
        assert(r * c < d * c) by (nonlinear_arith)
            requires
                r < d,
                c > 0,
        ;
    }
}

/// The nearest magnitude of `n * 2^k / d`, from the quotient of `n` by `d`.
proof fn lemma_at_exponent(n: nat, d: nat, k: nat)
    requires
        d > 0,
        n < d * pow2(53),
        k > 0 ==> n >= d * pow2(52),
    ensures
        nearest(n * pow2(k), d) == packed(rounded(n / d, n % d, d), k),
{
    let p = pow2(k);
    lemma_pow2_pos(k);
    lemma_pow2_sum(k, 53);
    lemma_pow2_sum(k, 52);
    let q = n / d;
    let r = n % d;
    lemma_fundamental_div_mod(n as int, d as int);
    let (top, low) = (pow2(53), pow2(52));
    assert(n * p < d * (p * top)) by (nonlinear_arith)
        requires
            n < d * top,
            p > 0,
    ;
    if k > 0 {
        assert(n * p >= d * (p * low)) by (nonlinear_arith)
            requires
                n >= d * low,
                p > 0,
        ;
    }
    assert(n * p == q * (d * p) + r * p) by (nonlinear_arith)
        requires
            n == d * q + r,
    ;
    assert(r * p < d * p) by (nonlinear_arith)
        requires
            r < d,
            p > 0,
    ;
    lemma_nearest(n * p, d, k, q, r * p);
    lemma_rounded_scaled(q, r, d, p);
}

/// The ratio that stands for `n * 2^e / d` units.
pub open spec fn ratio(n: nat, d: nat, e: int) -> (nat, nat) {
    if e >= 0 {
        (n * pow2(e as nat), d)
    } else {
        (n, d * pow2((-e) as nat))
    }
}

/// A ratio taken apart at the exponent `k`.
proof fn lemma_ratio_at(n: nat, d: nat, e: int, k: nat)
    requires
        d > 0,
    ensures
        ({
            let (rn, rd) = ratio(n, d, e);
            let (bn, bd) = ratio(n, d, e - k);
            nearest(rn, rd) == nearest(bn * pow2(k), bd) && bd > 0
        }),
{
    let b = e - k;
    let p = pow2(k);
    lemma_pow2_pos(k);
    if b >= 0 {
        lemma_pow2_sum(b as nat, k);
        let a = pow2(b as nat);
        assert(n * (a * p) == (n * a) * p) by (nonlinear_arith);
    } else {
        let a = pow2((-b) as nat);
        lemma_pow2_pos((-b) as nat);
        assert(d * a > 0) by (nonlinear_arith)
            requires
                d > 0,
                a > 0,
        ;
        if e >= 0 {
            lemma_pow2_sum(e as nat, (-b) as nat);
            let f = pow2(e as nat);
            assert(n * (f * a) == (n * f) * a) by (nonlinear_arith);
            lemma_nearest_scaled(n * f, d, a);
        } else {
            lemma_pow2_sum((-e) as nat, k);
            let f = pow2((-e) as nat);
            lemma_pow2_pos((-e) as nat);
            assert(d * (f * p) == (d * f) * p) by (nonlinear_arith);
            assert(d * f > 0) by (nonlinear_arith)
                requires
                    d > 0,
                    f > 0,
            ;
            lemma_nearest_scaled(n, d * f, p);
        }
    }
}

/// The power of two that brings `n / d` between 2^52 and 2^53.
fn ratio_shift(n: u64, d: u64) -> (a: i32)
    requires
        n > 0,
        d > 0,
    ensures
        -12 <= a <= 116,
        d * pow2(64) <= n * pow2((a + 12) as nat) < d * pow2(65),
{
    let bn: i32 = bit_length(n as u128) as i32;
    let bd: i32 = bit_length(d as u128) as i32;
    proof {
        lemma_pow2_values();
        if bn > 64 {
            lemma_pow2_monotone(64, (bn - 1) as nat);
        }
        if bd > 64 {
            lemma_pow2_monotone(64, (bd - 1) as nat);
        }
    }
    let s: i32 = 64 - bn + bd;
    let f: u128 = pow2_u128(s as u32);
    let ghost ni = n as nat;
    let ghost di = d as nat;
    proof {
        lemma_pow2_pos(s as nat);
        lemma_pow2_sum(bn as nat, s as nat);
        lemma_pow2_sum((bn - 1) as nat, s as nat);
        lemma_pow2_sum((bn - 1) as nat, (s + 1) as nat);
        lemma_pow2_sum(bd as nat, 64);
        lemma_pow2_sum((bd - 1) as nat, 65);
        lemma_pow2_monotone((bd + 64) as nat, 128);
        assert(bn + s == bd + 64);
        let top = pow2(bn as nat);
        let low = pow2((bn - 1) as nat);
        assert(ni * f < top * f) by (nonlinear_arith)
            requires
                ni < top,
                f > 0,
        ;
        let f2 = pow2((s + 1) as nat);
        assert(low * f2 <= ni * f2) by (nonlinear_arith)
            requires
                low <= ni,
        ;
        assert(ni * f2 == 2 * (ni * f)) by (nonlinear_arith)
            requires
                f2 == 2 * f,
        ;
        let dl = pow2((bd - 1) as nat);
        let dt = pow2(bd as nat);
        assert(dl * pow2(65) <= di * pow2(65)) by (nonlinear_arith)
            requires
                dl <= di,
        ;
        assert(di * pow2(64) < dt * pow2(64)) by (nonlinear_arith)
            requires
                di < dt,
                pow2(64) > 0,
        ;
        assert(pow2(65) == 2 * pow2(64));
        assert(di * pow2(65) == 2 * (di * pow2(64))) by (nonlinear_arith)
            requires
                pow2(65) == 2 * pow2(64),
        ;
    }
    let left: u128 = (n as u128) * f;
    let right: u128 = (d as u128) * 0x1_0000_0000_0000_0000;
    if left >= right {
        s - 12
    } else {
        s - 11
    }
}

/// The magnitude nearest to `n * 2^e / d` units.
pub fn nearest_ratio(n: u64, d: u64, e: i32) -> (r: u64)
    requires
        n > 0,
        d > 0,
        -4000 <= e <= 4000,
    ensures
        r == nearest(ratio(n as nat, d as nat, e as int).0, ratio(n as nat, d as nat, e as int).1),
        r <= INFINITE,
{
    let a: i32 = ratio_shift(n, d);
    let b: i32 = if e < a {
        e
    } else {
        a
    };
    let k: i32 = e - b;
    let ghost (bn, bd) = ratio(n as nat, d as nat, b as int);
    proof {
        lemma_ratio_at(n as nat, d as nat, e as int, k as nat);
        lemma_ratio_bounds(n as nat, d as nat, a as int, b as int);
        lemma_at_exponent(bn, bd, k as nat);
        lemma_pow2_values();
    }
    let m: u64 = if b >= 0 {
        let f: u128 = pow2_u128(b as u32);
        proof {
            let p = pow2(53);
            assert(d as nat * p < pow2(117)) by (nonlinear_arith)
                requires
                    d <= 0xffff_ffff_ffff_ffff,
                    p == 0x20_0000_0000_0000,
                    pow2(117) == 0x20_0000_0000_0000_0000_0000_0000_0000,
            ;
        }
        let num: u128 = (n as u128) * f;
        let q: u128 = num / (d as u128);
        proof {
            lemma_fundamental_div_mod(num as int, d as int);
            lemma_quotient_bound(num as nat, d as nat);
        }
        round_up(q as u64, num % (d as u128), d as u128)
    } else if b < -64 {
        proof {
            let f = pow2((-b) as nat);
            lemma_pow2_monotone(65, (-b) as nat);
            assert(pow2(65) == 2 * pow2(64));
            assert(bd >= f) by (nonlinear_arith)
                requires
                    bd == d as nat * f,
                    d >= 1,
            ;
            lemma_fundamental_div_mod_converse(bn as int, bd as int, 0, bn as int);
        }
        0
    } else {
        proof {
            lemma_pow2_monotone((-b) as nat, 64);
            lemma_pow2_pos((-b) as nat);
            let f = pow2((-b) as nat);
            assert(d as nat * f <= 0xffff_ffff_ffff_ffff * pow2(64)) by (nonlinear_arith)
                requires
                    d <= 0xffff_ffff_ffff_ffff,
                    f <= pow2(64),
            ;
        }
        let f: u128 = if b == -64 {
            0x1_0000_0000_0000_0000
        } else {
            pow2_u128((-b) as u32)
        };
        let den: u128 = (d as u128) * f;
        proof {
            lemma_fundamental_div_mod(n as int, den as int);
            lemma_quotient_bound(n as nat, den as nat);
        }
        let q: u128 = (n as u128) / den;
        round_up(q as u64, (n as u128) % den, den)
    };
    pack(m, k as u64)
}

proof fn lemma_quotient_bound(n: nat, d: nat)
    requires
        d > 0,
        n < d * pow2(53),
    ensures
        n / d < 2 * HIDDEN,
        n % d < d,
{
    lemma_fundamental_div_mod(n as int, d as int);
    lemma_pow2_values();
    let q = n / d;
    assert(q < pow2(53)) by (nonlinear_arith)
        requires
            d * q <= n,
            n < d * pow2(53),
            d > 0,
    ;
}

proof fn lemma_ratio_bounds(n: nat, d: nat, a: int, b: int)
    requires
        d > 0,
        -12 <= a,
        b <= a,
        d * pow2(64) <= n * pow2((a + 12) as nat) < d * pow2(65),
    ensures
        ratio(n, d, b).0 < ratio(n, d, b).1 * pow2(53),
        b == a ==> ratio(n, d, b).0 >= ratio(n, d, b).1 * pow2(52),
{
    // n * 2^(a+12) < d * 2^65, and so n * 2^(b+12) is.
    let (bn, bd) = ratio(n, d, b);
    lemma_pow2_pos((a + 12) as nat);
    lemma_pow2_sum(53, 12);
    lemma_pow2_sum(52, 12);
    lemma_pow2_pos(12);
    let c = pow2(12);
    if b >= 0 {
        lemma_pow2_monotone((b + 12) as nat, (a + 12) as nat);
        lemma_pow2_sum(b as nat, 12);
        let p = pow2(b as nat);
        let pa = pow2((a + 12) as nat);
        assert(n * (p * c) <= n * pa) by (nonlinear_arith)
            requires
                p * c <= pa,
        ;
        assert((n * p) * c == n * (p * c)) by (nonlinear_arith);
        assert(d * (pow2(53) * c) == (d * pow2(53)) * c) by (nonlinear_arith);
        assert(d * (pow2(52) * c) == (d * pow2(52)) * c) by (nonlinear_arith);
        assert(n * p < d * pow2(53)) by (nonlinear_arith)
            requires
                (n * p) * c < (d * pow2(53)) * c,
                c > 0,
        ;
        if b == a {
            assert(n * p >= d * pow2(52)) by (nonlinear_arith)
                requires
                    (n * p) * c >= (d * pow2(52)) * c,
                    c > 0,
            ;
        }
    } else {
        // n * 2^(a+12) * 2^-b < d * 2^65 * 2^-b.
        let t = (-b) as nat;
        let p = pow2(t);
        lemma_pow2_pos(t);
        let pa = pow2((a + 12) as nat);
        lemma_pow2_sum((a + 12) as nat, t);
        lemma_pow2_monotone(12, (a + 12) as nat + t);
        assert(n * c <= n * (pa * p)) by (nonlinear_arith)
            requires
                c <= pa * p,
        ;
        assert(n * (pa * p) == (n * pa) * p) by (nonlinear_arith);
        assert((n * pa) * p < (d * (pow2(53) * c)) * p) by (nonlinear_arith)
            requires
                n * pa < d * (pow2(53) * c),
                p > 0,
        ;
        assert((d * (pow2(53) * c)) * p == (d * p * pow2(53)) * c) by (nonlinear_arith);
        assert(n < d * p * pow2(53)) by (nonlinear_arith)
            requires
                n * c < (d * p * pow2(53)) * c,
                c > 0,
        ;
        if b == a {
            assert((a + 12) as nat + t == 12);
            assert((n * pa) * p >= (d * (pow2(52) * c)) * p) by (nonlinear_arith)
                requires
                    n * pa >= d * (pow2(52) * c),
                    p > 0,
            ;
            assert((d * (pow2(52) * c)) * p == (d * p * pow2(52)) * c) by (nonlinear_arith);
            assert(n >= d * p * pow2(52)) by (nonlinear_arith)
                requires
                    n * c >= (d * p * pow2(52)) * c,
                    c > 0,
            ;
        }
    }
}

/// The magnitude nearest to `num / den` units.
pub fn nearest_natural(num: &Natural, den: &Natural) -> (m: u64)
    requires
        num.wf(),
        den.wf(),
        den@ > 0,
    ensures
        m == nearest(num@, den@),
        m <= INFINITE,
{
    let bn: u128 = num.bits();
    let bd: u128 = den.bits();
    if bn > bd + 53 + 2047 {
        proof {
            let k = fit(num@, den@, 0);
            lemma_fit_bounds(num@, den@, 0);
            if k < 2047 {
                lemma_pow2_monotone((bd + k + 53) as nat, (bn - 1) as nat);
                lemma_pow2_sum(bd as nat, k + 53);
                let p = pow2(k + 53);
                assert(den@ * p <= pow2(bd as nat) * p) by (nonlinear_arith)
                    requires
                        den@ <= pow2(bd as nat),
                ;
                assert((bd + k + 53) as nat == bd as nat + (k + 53));
                assert(num@ < num@);
            }
            assert(k >= 2047);
            let step = den@ * pow2(k);
            let q = rounded(num@ / step, num@ % step, step);
            lemma_packed_large(q, k);
        }
        return INFINITE;
    }
    let guess: u64 = if bn > bd + 53 {
        (bn - bd - 53) as u64
    } else {
        0
    };
    let mut top = den.copy();
    top.shift_left(guess as usize + 53);
    proof {
        lemma_guess(num@, den@, bn as nat, bd as nat, guess as nat);
    }
    let k: u64 = if num.less(&top) {
        guess
    } else {
        guess + 1
    };
    let mut step = den.copy();
    step.shift_left(k as usize + 52);
    let ghost t = step@;
    let ghost d = den@ * pow2(k as nat);
    proof {
        lemma_pow2_sum(k as nat, 52);
        lemma_pow2_sum(k as nat, 53);
        let (p, a, b) = (pow2(k as nat), pow2(52), pow2(53));
        assert(den@ * (p * a) == (den@ * p) * a) by (nonlinear_arith);
        assert(den@ * (p * b) == (den@ * p) * b) by (nonlinear_arith);
        lemma_pow2_values();
        assert(d * b == 2 * (d * a)) by (nonlinear_arith)
            requires
                b == 2 * a,
        ;
        lemma_pow2_pos(k as nat);
        assert(d > 0) by (nonlinear_arith)
            requires
                d == den@ * pow2(k as nat),
                den@ > 0,
                pow2(k as nat) > 0,
        ;
        assert(d * a > 0) by (nonlinear_arith)
            requires
                d > 0,
                a > 0,
        ;
        assert((k + 53) as nat == k as nat + 53);
    }
    let mut rest = num.copy();
    let mut q: u64 = 0;
    let mut i: u32 = 0;
    proof {
        assert(num@ * pow2(0) == num@) by (nonlinear_arith)
            requires
                pow2(0) == 1,
        ;
        assert(0 * (2 * t) == 0) by (nonlinear_arith);
    }
    while i < 53
        invariant
            i <= 53,
            rest.wf(),
            step.wf(),
            step@ == t,
            t > 0,
            rest@ < 2 * t,
            q < pow2(i as nat),
            num@ * pow2(i as nat) == q * (2 * t) + rest@,
        decreases 53 - i,
    {
        let ghost r0 = rest@;
        let ghost q0 = q as nat;
        let ghost p = pow2(i as nat);
        proof {
            lemma_pow2_monotone((i + 1) as nat, 53);
            lemma_pow2_values();
            assert(num@ * (2 * p) == 2 * (num@ * p)) by (nonlinear_arith);
            assert((2 * q0) * (2 * t) == 2 * (q0 * (2 * t))) by (nonlinear_arith);
            assert((2 * q0 + 1) * (2 * t) == 2 * (q0 * (2 * t)) + 2 * t) by (nonlinear_arith);
        }
        if rest.less(&step) {
            q = 2 * q;
        } else {
            rest.subtract(&step);
            q = 2 * q + 1;
        }
        rest.mul_small(2, 0);
        i += 1;
    }
    let below: bool = rest.less(&step);
    let above: bool = step.less(&rest);
    let up: u64 = if below || (!above && q % 2 == 0) {
        q
    } else {
        q + 1
    };
    proof {
        lemma_pow2_values();
        let b = pow2(53);
        assert(2 * t == d * b) by (nonlinear_arith)
            requires
                t == d * pow2(52),
                b == 2 * pow2(52),
        ;
        // The remainder of num by d, from what is left of num * 2^53.
        let r = num@ - q as nat * d;
        assert(r * b == rest@) by (nonlinear_arith)
            requires
                num@ * b == q as nat * (d * b) + rest@,
                r == num@ - q as nat * d,
        ;
        assert(r >= 0) by (nonlinear_arith)
            requires
                r * b == rest@,
                rest@ >= 0,
                b > 0,
        ;
        assert(r < d) by (nonlinear_arith)
            requires
                r * b == rest@,
                rest@ < d * b,
                b > 0,
        ;
        assert(rest@ < t ==> 2 * r < d) by (nonlinear_arith)
            requires
                r * b == rest@,
                2 * t == d * b,
                b > 0,
        ;
        assert(rest@ > t ==> 2 * r > d) by (nonlinear_arith)
            requires
                r * b == rest@,
                2 * t == d * b,
                b > 0,
        ;
        assert(rest@ == t ==> 2 * r == d) by (nonlinear_arith)
            requires
                r * b == rest@,
                2 * t == d * b,
                b > 0,
        ;
        lemma_nearest(num@, den@, k as nat, q as nat, r as nat);
    }
    pack(up, k)
}

pub proof fn lemma_packed_large(q: nat, k: nat)
    requires
        k >= 2047,
    ensures
        packed(q, k) == INFINITE,
{
    assert(k * HIDDEN as nat >= INFINITE as nat) by (nonlinear_arith)
        requires
            k >= 2047,
    ;
}

/// The exponent of a ratio is one of the two that the sizes of its sides suggest.
proof fn lemma_guess(n: nat, d: nat, bn: nat, bd: nat, k: nat)
    requires
        d > 0,
        n < pow2(bn),
        bn > 0 ==> pow2((bn - 1) as nat) <= n,
        d < pow2(bd),
        bd > 0,
        pow2((bd - 1) as nat) <= d,
        k == (if bn > bd + 53 { bn - bd - 53 } else { 0 }),
    ensures
        k > 0 ==> n >= d * pow2((k + 52) as nat),
        n < d * pow2(k + 1 + 53),
        n >= d * pow2(k + 53) ==> n >= d * pow2((k + 1 + 52) as nat),
{
    lemma_pow2_sum((bd - 1) as nat, k + 54);
    lemma_pow2_monotone(bn, (bd - 1) as nat + (k + 54));
    let p = pow2(k + 54);
    assert(pow2((bd - 1) as nat) * p <= d * p) by (nonlinear_arith)
        requires
            pow2((bd - 1) as nat) <= d,
    ;
    assert(k + 1 + 53 == k + 54);
    if k > 0 {
        lemma_pow2_sum(bd, (k + 52) as nat);
        let r = pow2((k + 52) as nat);
        assert(d * r <= pow2(bd) * r) by (nonlinear_arith)
            requires
                d <= pow2(bd),
        ;
        assert(bd + (k + 52) as nat == (bn - 1) as nat);
    }
}

// ---------------------------------------------------------------------------
// Square roots
// ---------------------------------------------------------------------------

/// The smallest exponent from `k` on at which the root of `w` fits in 53 bits.
pub open spec fn fit_root(w: nat, k: nat) -> nat
    decreases w - k,
{
    if k >= w || w < pow2(k + 53) * pow2(k + 53) {
        k
    } else {
        fit_root(w, k + 1)
    }
}

/// `q` is the whole number nearest to the root of `w / 4^k`.
pub open spec fn is_root(w: nat, k: nat, q: nat) -> bool {
    let s = pow2(k) * pow2(k);
    &&& 4 * w < (2 * q + 1) * (2 * q + 1) * s
    &&& q > 0 ==> 4 * w > (2 * q - 1) * (2 * q - 1) * s
}

/// The magnitude nearest to the square root of `u` units. (No root of a double lies
/// half way between two doubles.)
pub open spec fn nearest_root(u: nat) -> nat {
    let w = u * one();
    let k = fit_root(w, 0);
    packed(choose|q: nat| is_root(w, k, q), k)
}

proof fn lemma_fit_root(w: nat, from: nat, k: nat)
    requires
        from <= k,
        w < pow2(k + 53) * pow2(k + 53),
        k > 0 ==> w >= pow2((k + 52) as nat) * pow2((k + 52) as nat),
    ensures
        fit_root(w, from) == k,
    decreases k - from,
{
    if from < k {
        lemma_pow2_exceeds(from + 53);
        lemma_pow2_monotone(from + 53, (k + 52) as nat);
        let p = pow2(from + 53);
        let q = pow2((k + 52) as nat);
        assert(p * p <= q * q) by (nonlinear_arith)
            requires
                p <= q,
        ;
        assert(p <= p * p) by (nonlinear_arith)
            requires
                p >= 1,
        ;
        lemma_fit_root(w, from + 1, k);
    }
}

proof fn lemma_root_unique(w: nat, k: nat, a: nat, b: nat)
    requires
        is_root(w, k, a),
        is_root(w, k, b),
    ensures
        a == b,
{
    let s = pow2(k) * pow2(k);
    if a < b {
        assert((2 * a + 1) * (2 * a + 1) * s <= (2 * b - 1) * (2 * b - 1) * s) by (nonlinear_arith)
            requires
                a < b,
        ;
    } else if b < a {
        assert((2 * b + 1) * (2 * b + 1) * s <= (2 * a - 1) * (2 * a - 1) * s) by (nonlinear_arith)
            requires
                b < a,
        ;
    }
}

/// The whole part of the square root of `n`.
fn root_floor(n: u128) -> (r: u64)
    requires
        n < pow2(106),
    ensures
        r as nat * r as nat <= n,
        n < (r + 1) * (r + 1),
        r < 2 * HIDDEN,
{
    let mut r: u64 = 0;
    let mut step: u64 = 2 * HIDDEN;
    proof {
        lemma_pow2_values();
        lemma_pow2_sum(53, 53);
        assert(0 * 0 == 0int);
    }
    while step > 1
        invariant
            step >= 1,
            step % 2 == 0 || step == 1,
            r + step <= 2 * HIDDEN,
            r as nat * r as nat <= n,
            n < (r + step) * (r + step),
            step == 1 || exists|j: nat| j <= 53 && step == #[trigger] pow2(j),
        decreases step,
    {
        let half: u64 = step / 2;
        let t: u64 = r + half;
        proof {
            let j = choose|j: nat| j <= 53 && step == #[trigger] pow2(j);
            assert(half == pow2((j - 1) as nat));
            if j >= 2 {
                assert(half == 2 * pow2((j - 2) as nat));
            }
            assert(t * t <= 0x4_0000_0000_0000 * 0x4_0000_0000_0000 * 64) by (nonlinear_arith)
                requires
                    t <= 0x20_0000_0000_0000,
            ;
            assert(t as u128 * t as u128 == t * t);
        }
        if (t as u128) * (t as u128) <= n {
            r = t;
        }
        step = half;
    }
    r
}

/// The magnitude nearest to the square root of `n * 2^s` units.
fn nearest_root_of(n: u64, s: u32) -> (m: u64)
    requires
        0 < n < 2 * HIDDEN,
        s <= 2045,
    ensures
        m == nearest_root(n as nat * pow2(s as nat)),
        m < INFINITE,
{
    let len: u32 = bit_length(n as u128);
    proof {
        lemma_pow2_values();
        if len > 53 {
            lemma_pow2_monotone(53, (len - 1) as nat);
        }
    }
    let e: u32 = if (105 - len) % 2 == s % 2 {
        105 - len
    } else {
        106 - len
    };
    let k: u32 = (s + 1074 - e) / 2;
    let f: u128 = pow2_u128(e);
    let ghost ni = n as nat;
    proof {
        lemma_pow2_pos(e as nat);
        lemma_pow2_sum(len as nat, e as nat);
        lemma_pow2_sum((len - 1) as nat, e as nat);
        lemma_pow2_monotone((len + e) as nat, 106);
        lemma_pow2_monotone(104, (len - 1 + e) as nat);
        let top = pow2(len as nat);
        let low = pow2((len - 1) as nat);
        assert(ni * f < top * f) by (nonlinear_arith)
            requires
                ni < top,
                f > 0,
        ;
        assert(low * f <= ni * f) by (nonlinear_arith)
            requires
                low <= ni,
        ;
        lemma_pow2_sum(53, 53);
        lemma_pow2_sum(52, 52);
    }
    let w: u128 = (n as u128) * f;
    let r: u64 = root_floor(w);
    proof {
        assert(r as nat * r as nat <= 0x40_0000_0000_0000 * 0x40_0000_0000_0000)
            by (nonlinear_arith)
            requires
                r < 0x20_0000_0000_0000,
        ;
    }
    let rest: u128 = w - (r as u128) * (r as u128);
    let q: u64 = if rest > r as u128 {
        r + 1
    } else {
        r
    };
    proof {
        // The units times 2^1074 are w * 4^k.
        let wi = w as nat;
        let p = pow2(k as nat);
        let sq = p * p;
        lemma_pow2_pos(k as nat);
        lemma_pow2_sum(k as nat, k as nat);
        lemma_pow2_sum(s as nat, 1074);
        lemma_pow2_sum(e as nat, (2 * k) as nat);
        assert(s + 1074 == e + 2 * k);
        let full = ni * pow2(s as nat) * one();
        assert(full == wi * sq) by (nonlinear_arith)
            requires
                full == ni * pow2(s as nat) * one(),
                pow2(s as nat) * one() == f * sq,
                wi == ni * f,
        ;
        lemma_pow2_sum(k as nat, 53);
        lemma_pow2_sum(k as nat, 52);
        let (a, b) = (pow2(53), pow2(52));
        assert((p * a) * (p * a) == (a * a) * sq) by (nonlinear_arith)
            requires
                sq == p * p,
        ;
        assert((p * b) * (p * b) == (b * b) * sq) by (nonlinear_arith)
            requires
                sq == p * p,
        ;
        assert(sq > 0) by (nonlinear_arith)
            requires
                p > 0,
                sq == p * p,
        ;
        assert(wi * sq < (a * a) * sq) by (nonlinear_arith)
            requires
                wi < a * a,
                sq > 0,
        ;
        assert(wi * sq >= (b * b) * sq) by (nonlinear_arith)
            requires
                wi >= b * b,
        ;
        assert((k + 52) as nat == k as nat + 52);
        lemma_fit_root(full, 0, k as nat);
        let qi = q as nat;
        let ri = r as nat;
        assert(4 * wi < (2 * qi + 1) * (2 * qi + 1)) by (nonlinear_arith)
            requires
                wi < (ri + 1) * (ri + 1),
                qi == ri + 1 || (qi == ri && wi - ri * ri <= ri),
        ;
        assert(qi > 0) by (nonlinear_arith)
            requires
                wi < (ri + 1) * (ri + 1),
                wi >= 1,
                qi >= ri,
        ;
        assert(4 * wi > (2 * qi - 1) * (2 * qi - 1)) by (nonlinear_arith)
            requires
                ri * ri <= wi,
                qi == ri && qi > 0 || (qi == ri + 1 && wi - ri * ri > ri),
        ;
        assert(4 * (wi * sq) < (2 * qi + 1) * (2 * qi + 1) * sq) by (nonlinear_arith)
            requires
                4 * wi < (2 * qi + 1) * (2 * qi + 1),
                sq > 0,
        ;
        assert(4 * (wi * sq) > (2 * qi - 1) * (2 * qi - 1) * sq) by (nonlinear_arith)
            requires
                4 * wi > (2 * qi - 1) * (2 * qi - 1),
                sq > 0,
        ;
        assert(is_root(full, k as nat, qi));
        let c = choose|q: nat| is_root(full, k as nat, q);
        lemma_root_unique(full, k as nat, c, qi);
    }
    pack(q, k as u64)
}

// ---------------------------------------------------------------------------
// Doubles
// ---------------------------------------------------------------------------

/// A double, held as its bit pattern.
#[derive(Clone, Copy, Debug)]
pub struct Double {
    pub bits: u64,
}

/// The double with the given sign and magnitude.
pub open spec fn signed(negative: bool, m: nat) -> Double {
    if negative {
        Double { bits: (m + SIGN) as u64 }
    } else {
        Double { bits: m as u64 }
    }
}

/// The quiet NaN.
pub open spec fn nan() -> Double {
    Double { bits: NOT_A_NUMBER }
}

/// The sum of two doubles: the exact sum, rounded. Of two infinities that cancel
/// it is NaN; a sum of zero is positive unless both zeros are negative.
pub open spec fn sum_of(a: Double, b: Double) -> Double {
    if a.is_nan() || b.is_nan() {
        nan()
    } else if a.is_infinite() {
        if b.is_infinite() && a.negative() != b.negative() {
            nan()
        } else {
            a
        }
    } else if b.is_infinite() {
        b
    } else {
        let s = a.signed_units() + b.signed_units();
        if s == 0 {
            signed(a.negative() && b.negative(), 0)
        } else if s < 0 {
            signed(true, nearest((-s) as nat, 1))
        } else {
            signed(false, nearest(s as nat, 1))
        }
    }
}

/// The product of two doubles: the exact product, rounded.
pub open spec fn product_of(a: Double, b: Double) -> Double {
    let negative = a.negative() != b.negative();
    if a.is_nan() || b.is_nan() {
        nan()
    } else if a.is_infinite() || b.is_infinite() {
        if a.magnitude() == 0 || b.magnitude() == 0 {
            nan()
        } else {
            signed(negative, INFINITE as nat)
        }
    } else {
        signed(negative, nearest(units(a.magnitude()) * units(b.magnitude()), one()))
    }
}

/// The quotient of two doubles: the exact quotient, rounded.
pub open spec fn quotient_of(a: Double, b: Double) -> Double {
    let negative = a.negative() != b.negative();
    if a.is_nan() || b.is_nan() {
        nan()
    } else if a.is_infinite() {
        if b.is_infinite() {
            nan()
        } else {
            signed(negative, INFINITE as nat)
        }
    } else if b.is_infinite() {
        signed(negative, 0)
    } else if b.magnitude() == 0 {
        if a.magnitude() == 0 {
            nan()
        } else {
            signed(negative, INFINITE as nat)
        }
    } else {
        signed(negative, nearest(units(a.magnitude()) * one(), units(b.magnitude())))
    }
}

/// The square root of a double: the exact root, rounded.
pub open spec fn root_of(a: Double) -> Double {
    if a.is_nan() {
        nan()
    } else if a.magnitude() == 0 {
        a
    } else if a.negative() {
        nan()
    } else if a.is_infinite() {
        a
    } else {
        signed(false, nearest_root(units(a.magnitude())))
    }
}

/// The double nearest to a whole number.
pub open spec fn double_of_int(n: int) -> Double {
    if n < 0 {
        signed(true, nearest((-n) as nat * one(), 1))
    } else {
        signed(false, nearest(n as nat * one(), 1))
    }
}

/// The smaller of two doubles; a NaN gives way to the other one.
pub open spec fn smaller_of(a: Double, b: Double) -> Double {
    if a.is_nan() {
        b
    } else if b.is_nan() || a.key() <= b.key() {
        a
    } else {
        b
    }
}

/// The larger of two doubles; a NaN gives way to the other one.
pub open spec fn larger_of(a: Double, b: Double) -> Double {
    if a.is_nan() {
        b
    } else if b.is_nan() || a.key() >= b.key() {
        a
    } else {
        b
    }
}

impl Double {
    /// The bits without the sign.
    pub open spec fn magnitude(self) -> nat {
        if self.bits >= SIGN {
            (self.bits - SIGN) as nat
        } else {
            self.bits as nat
        }
    }

    pub open spec fn negative(self) -> bool {
        self.bits >= SIGN
    }

    pub open spec fn is_nan(self) -> bool {
        self.magnitude() > INFINITE
    }

    pub open spec fn is_infinite(self) -> bool {
        self.magnitude() == INFINITE
    }

    pub open spec fn is_finite(self) -> bool {
        self.magnitude() < INFINITE
    }

    /// The place of a double that is not NaN among all such doubles. Both zeros have
    /// the place 0.
    pub open spec fn key(self) -> int {
        if self.negative() {
            -(self.magnitude() as int)
        } else {
            self.magnitude() as int
        }
    }

    /// The value of a finite double, in units.
    pub open spec fn signed_units(self) -> int {
        if self.negative() {
            -(units(self.magnitude()) as int)
        } else {
            units(self.magnitude()) as int
        }
    }

    /// `self < other` as numbers; false where either is NaN.
    pub open spec fn is_less(self, other: Double) -> bool {
        !self.is_nan() && !other.is_nan() && self.key() < other.key()
    }

    /// `self == other` as numbers; false where either is NaN.
    pub open spec fn is_equal(self, other: Double) -> bool {
        !self.is_nan() && !other.is_nan() && self.key() == other.key()
    }

    /// A number without a fractional part; infinity counts as one.
    pub open spec fn is_whole(self) -> bool {
        self.is_infinite() || (self.is_finite() && units(self.magnitude()) % one() == 0)
    }

    /// The number without its fractional part as an `i64`: the nearest one where it
    /// is out of range, 0 for NaN.
    pub open spec fn to_int(self) -> int {
        if self.is_nan() {
            0
        } else if self.is_infinite() || units(self.magnitude()) / one() > i64::MAX {
            if self.negative() {
                i64::MIN as int
            } else {
                i64::MAX as int
            }
        } else if self.negative() {
            -((units(self.magnitude()) / one()) as int)
        } else {
            (units(self.magnitude()) / one()) as int
        }
    }

    /// The double with the bit pattern `bits`.
    pub fn from_bits(bits: u64) -> (r: Double)
        ensures
            r.bits == bits,
    {
        Double { bits }
    }

    fn mag(self) -> (m: u64)
        ensures
            m == self.magnitude(),
    {
        if self.bits >= SIGN {
            self.bits - SIGN
        } else {
            self.bits
        }
    }

    fn make(negative: bool, m: u64) -> (r: Double)
        requires
            m < SIGN,
        ensures
            r == signed(negative, m as nat),
    {
        if negative {
            Double { bits: m + SIGN }
        } else {
            Double { bits: m }
        }
    }

    fn place(self) -> (k: i64)
        ensures
            k == self.key(),
    {
        if self.bits >= SIGN {
            -((self.bits - SIGN) as i64)
        } else {
            self.bits as i64
        }
    }

    /// Whether the double is NaN.
    pub fn not_a_number(self) -> (r: bool)
        ensures
            r == self.is_nan(),
    {
        self.mag() > INFINITE
    }

    /// Whether `self < other`.
    pub fn less(self, other: Double) -> (r: bool)
        ensures
            r == self.is_less(other),
    {
        !self.not_a_number() && !other.not_a_number() && self.place() < other.place()
    }

    /// Whether the two are equal as numbers.
    pub fn equal(self, other: Double) -> (r: bool)
        ensures
            r == self.is_equal(other),
    {
        !self.not_a_number() && !other.not_a_number() && self.place() == other.place()
    }

    /// The smaller of the two.
    pub fn smaller(self, other: Double) -> (r: Double)
        ensures
            r == smaller_of(self, other),
    {
        if self.not_a_number() {
            other
        } else if other.not_a_number() || self.place() <= other.place() {
            self
        } else {
            other
        }
    }

    /// The larger of the two.
    pub fn larger(self, other: Double) -> (r: Double)
        ensures
            r == larger_of(self, other),
    {
        if self.not_a_number() {
            other
        } else if other.not_a_number() || self.place() >= other.place() {
            self
        } else {
            other
        }
    }

    /// The number with the other sign.
    pub fn negate(self) -> (r: Double)
        ensures
            r == signed(!self.negative(), self.magnitude()),
    {
        Double::make(self.bits < SIGN, self.mag())
    }

    /// The number without its sign.
    pub fn absolute(self) -> (r: Double)
        ensures
            r == signed(false, self.magnitude()),
    {
        Double::make(false, self.mag())
    }

    /// The double nearest to `n`.
    pub fn from_i64(n: i64) -> (r: Double)
        ensures
            r == double_of_int(n as int),
    {
        let a: u128 = if n < 0 {
            (-(n as i128)) as u128
        } else {
            n as u128
        };
        Double::make(n < 0, nearest_dyadic(a, 1074))
    }

    /// The double nearest to `n`.
    pub fn from_u64(n: u64) -> (r: Double)
        ensures
            r == double_of_int(n as int),
    {
        Double::make(false, nearest_dyadic(n as u128, 1074))
    }

    /// The sum of the two.
    pub fn plus(self, other: Double) -> (r: Double)
        ensures
            r == sum_of(self, other),
    {
        let a: u64 = self.mag();
        let b: u64 = other.mag();
        if a > INFINITE || b > INFINITE {
            return Double { bits: NOT_A_NUMBER };
        }
        let na: bool = self.bits >= SIGN;
        let nb: bool = other.bits >= SIGN;
        if a == INFINITE {
            if b == INFINITE && na != nb {
                return Double { bits: NOT_A_NUMBER };
            }
            return self;
        }
        if b == INFINITE {
            return other;
        }
        proof {
            lemma_units_order(a as nat, b as nat);
            lemma_units_order(b as nat, a as nat);
        }
        if a == b && na != nb {
            return Double { bits: 0 };
        }
        if a == 0 && b == 0 {
            proof {
                assert(0 * pow2(0) == 0) by (nonlinear_arith);
            }
            return self;
        }
        let (big, small, negative): (u64, u64, bool) = if a >= b {
            (a, b, na)
        } else {
            (b, a, nb)
        };
        proof {
            lemma_nearest_finite(if na == nb {
                units(big as nat) + units(small as nat)
            } else {
                (units(big as nat) - units(small as nat)) as nat
            });
        }
        Double::make(negative, combined(big, small, na == nb))
    }

    /// The product of the two.
    pub fn times(self, other: Double) -> (r: Double)
        ensures
            r == product_of(self, other),
    {
        let a: u64 = self.mag();
        let b: u64 = other.mag();
        if a > INFINITE || b > INFINITE {
            return Double { bits: NOT_A_NUMBER };
        }
        let negative: bool = (self.bits >= SIGN) != (other.bits >= SIGN);
        if a == INFINITE || b == INFINITE {
            if a == 0 || b == 0 {
                return Double { bits: NOT_A_NUMBER };
            }
            return Double::make(negative, INFINITE);
        }
        let (m1, s1): (u64, u32) = decode(a);
        let (m2, s2): (u64, u32) = decode(b);
        proof {
            assert(m1 * m2 <= 0x20_0000_0000_0000 * 0x20_0000_0000_0000) by (nonlinear_arith)
                requires
                    m1 <= 0x20_0000_0000_0000,
                    m2 <= 0x20_0000_0000_0000,
            ;
            assert(m1 as u128 * m2 as u128 == m1 * m2);
        }
        let n: u128 = (m1 as u128) * (m2 as u128);
        let s: i32 = s1 as i32 + s2 as i32 - 1074;
        proof {
            let p1 = pow2(s1 as nat);
            let p2 = pow2(s2 as nat);
            lemma_pow2_sum(s1 as nat, s2 as nat);
            let u = (m1 as nat * p1) * (m2 as nat * p2);
            assert(u == n as nat * (p1 * p2)) by (nonlinear_arith)
                requires
                    u == (m1 as nat * p1) * (m2 as nat * p2),
                    n as nat == m1 as nat * m2 as nat,
            ;
            lemma_pow2_pos(1074);
            if s >= 0 {
                lemma_pow2_sum(s as nat, 1074);
                let ps = pow2(s as nat);
                assert(n as nat * (ps * one()) == (n as nat * ps) * one()) by (nonlinear_arith);
                lemma_nearest_scaled(n as nat * ps, 1, one());
                assert(1 * one() == one());
            } else {
                let t = (-s) as nat;
                let c = p1 * p2;
                lemma_pow2_pos((s1 + s2) as nat);
                lemma_pow2_pos(t);
                lemma_pow2_sum(t, (s1 + s2) as nat);
                lemma_nearest_scaled(n as nat, pow2(t), c);
            }
        }
        Double::make(negative, nearest_dyadic(n, s))
    }

    /// The quotient of the two.
    pub fn over(self, other: Double) -> (r: Double)
        ensures
            r == quotient_of(self, other),
    {
        let a: u64 = self.mag();
        let b: u64 = other.mag();
        if a > INFINITE || b > INFINITE {
            return Double { bits: NOT_A_NUMBER };
        }
        let negative: bool = (self.bits >= SIGN) != (other.bits >= SIGN);
        if a == INFINITE {
            if b == INFINITE {
                return Double { bits: NOT_A_NUMBER };
            }
            return Double::make(negative, INFINITE);
        }
        if b == INFINITE {
            return Double::make(negative, 0);
        }
        if b == 0 {
            if a == 0 {
                return Double { bits: NOT_A_NUMBER };
            }
            return Double::make(negative, INFINITE);
        }
        let (m1, s1): (u64, u32) = decode(a);
        let (m2, s2): (u64, u32) = decode(b);
        proof {
            lemma_units_positive(b as nat);
            lemma_pow2_pos(s2 as nat);
        }
        if a == 0 {
            proof {
                assert(0 * pow2(0) == 0) by (nonlinear_arith);
                assert(0 * one() == 0) by (nonlinear_arith);
                lemma_nearest_zero(units(b as nat));
            }
            return Double::make(negative, 0);
        }
        let e: i32 = s1 as i32 + 1074 - s2 as i32;
        proof {
            lemma_units_positive(a as nat);
            let p1 = pow2(s1 as nat);
            let p2 = pow2(s2 as nat);
            let (n, d) = (m1 as nat, m2 as nat);
            lemma_pow2_sum(s1 as nat, 1074);
            assert((n * p1) * one() == n * (p1 * one())) by (nonlinear_arith);
            if e >= 0 {
                lemma_pow2_sum(e as nat, s2 as nat);
                let pe = pow2(e as nat);
                assert(n * (pe * p2) == (n * pe) * p2) by (nonlinear_arith);
                lemma_nearest_scaled(n * pe, d, p2);
            } else {
                let t = (-e) as nat;
                let c = pow2((s1 + 1074) as nat);
                lemma_pow2_pos((s1 + 1074) as nat);
                lemma_pow2_pos(t);
                lemma_pow2_sum(t, (s1 + 1074) as nat);
                let pt = pow2(t);
                assert(d * (pt * c) == (d * pt) * c) by (nonlinear_arith);
                assert(d * pt > 0) by (nonlinear_arith)
                    requires
                        d > 0,
                        pt > 0,
                ;
                lemma_nearest_scaled(n, d * pt, c);
            }
        }
        Double::make(negative, nearest_ratio(m1, m2, e))
    }

    /// The square root.
    pub fn root(self) -> (r: Double)
        ensures
            r == root_of(self),
    {
        let a: u64 = self.mag();
        if a > INFINITE {
            return Double { bits: NOT_A_NUMBER };
        }
        if a == 0 {
            return self;
        }
        if self.bits >= SIGN {
            return Double { bits: NOT_A_NUMBER };
        }
        if a == INFINITE {
            return self;
        }
        let (m, s): (u64, u32) = decode(a);
        proof {
            lemma_units_positive(a as nat);
        }
        Double::make(false, nearest_root_of(m, s))
    }

    /// Whether the number has no fractional part.
    pub fn whole(self) -> (r: bool)
        ensures
            r == self.is_whole(),
    {
        let a: u64 = self.mag();
        if a >= INFINITE {
            return a == INFINITE;
        }
        let (q, r) = parts(a);
        r == 0
    }

    /// The number without its fractional part, as an `i64`.
    pub fn truncated(self) -> (r: i64)
        ensures
            r == self.to_int(),
    {
        let a: u64 = self.mag();
        if a > INFINITE {
            return 0;
        }
        let negative: bool = self.bits >= SIGN;
        if a < INFINITE {
            let (q, r) = parts(a);
            if q <= 0x7fff_ffff_ffff_ffff {
                return if negative {
                    -(q as i64)
                } else {
                    q as i64
                };
            }
        }
        if negative {
            i64::MIN
        } else {
            i64::MAX
        }
    }
}

/// The mantissa and the exponent of a finite magnitude.
pub fn decode(m: u64) -> (r: (u64, u32))
    requires
        m < INFINITE,
    ensures
        r.0 == mantissa(m as nat),
        r.1 == exponent(m as nat),
        r.0 < 2 * HIDDEN,
        r.1 <= 2045,
        r.1 > 0 ==> r.0 >= HIDDEN,
        m == r.1 * HIDDEN + r.0,
{
    if m < HIDDEN {
        (m, 0)
    } else {
        (m % HIDDEN + HIDDEN, (m / HIDDEN - 1) as u32)
    }
}

pub proof fn lemma_units_positive(m: nat)
    requires
        0 < m < INFINITE,
    ensures
        mantissa(m) > 0,
        units(m) > 0,
{
    lemma_decode(m);
    lemma_pow2_pos(exponent(m));
    let (a, b) = (mantissa(m), pow2(exponent(m)));
    assert(a * b > 0) by (nonlinear_arith)
        requires
            a > 0,
            b > 0,
    ;
}

/// Larger magnitudes are larger numbers.
pub proof fn lemma_units_order(a: nat, b: nat)
    requires
        a < INFINITE,
        b < INFINITE,
    ensures
        a < b ==> units(a) < units(b),
        a == b ==> units(a) == units(b),
{
    lemma_decode(a);
    lemma_decode(b);
    if a < b {
        let (m1, s1) = (mantissa(a), exponent(a));
        let (m2, s2) = (mantissa(b), exponent(b));
        let p = pow2(s1);
        lemma_pow2_pos(s1);
        if s1 == s2 {
            assert(m1 * p < m2 * p) by (nonlinear_arith)
                requires
                    m1 < m2,
                    p > 0,
            ;
        } else {
            assert(s1 < s2) by {
                if s2 < s1 {
                    assert((s2 + 1) * HIDDEN as nat <= s1 * HIDDEN as nat) by (nonlinear_arith)
                        requires
                            s2 + 1 <= s1,
                    ;
                }
            }
            lemma_pow2_monotone((s1 + 1) as nat, s2);
            let p2 = pow2(s2);
            let h = HIDDEN as nat;
            assert(m1 * p < (2 * h) * p) by (nonlinear_arith)
                requires
                    m1 < 2 * h,
                    p > 0,
            ;
            assert((2 * h) * p == h * (2 * p)) by (nonlinear_arith);
            assert(h * (2 * p) <= m2 * p2) by (nonlinear_arith)
                requires
                    h <= m2,
                    2 * p <= p2,
            ;
        }
    }
}

/// The order of the bit patterns is the order of the numbers.
pub proof fn law_order_of_doubles(a: Double, b: Double)
    requires
        a.is_finite(),
        b.is_finite(),
    ensures
        a.is_less(b) <==> a.signed_units() < b.signed_units(),
        a.is_equal(b) <==> a.signed_units() == b.signed_units(),
{
    lemma_units_order(a.magnitude(), b.magnitude());
    lemma_units_order(b.magnitude(), a.magnitude());
    assert(0 * pow2(0) == 0) by (nonlinear_arith);
    lemma_units_order(0, a.magnitude());
    lemma_units_order(0, b.magnitude());
    assert(units(0) == 0);
}

proof fn lemma_nearest_finite(n: nat)
    ensures
        nearest(n, 1) <= INFINITE,
{
}

/// The nearest magnitude to the sum or the difference of two magnitudes.
fn combined(big: u64, small: u64, sum: bool) -> (r: u64)
    requires
        small <= big < INFINITE,
        big > 0,
        !sum ==> small < big,
    ensures
        sum ==> r == nearest(units(big as nat) + units(small as nat), 1),
        !sum ==> r == nearest((units(big as nat) - units(small as nat)) as nat, 1),
        r <= INFINITE,
{
    let (m1, s1): (u64, u32) = decode(big);
    let (m2, s2): (u64, u32) = decode(small);
    proof {
        lemma_units_order(small as nat, big as nat);
        assert(s2 <= s1) by {
            if s1 < s2 {
                assert((s1 + 1) * HIDDEN as nat <= s2 * HIDDEN as nat) by (nonlinear_arith)
                    requires
                        s1 + 1 <= s2,
                ;
            }
        }
    }
    let gap: u32 = s1 - s2;
    if gap > 70 {
        proof {
            lemma_pow2_sum(s2 as nat, gap as nat);
            lemma_pow2_monotone(56, gap as nat);
            lemma_pow2_sum(53, 3);
            lemma_pow2_values();
            assert(pow2(3) == 8) by {
                reveal_with_fuel(pow2, 4);
            }
            let p = pow2(s2 as nat);
            lemma_pow2_pos(s2 as nat);
            let pg = pow2(gap as nat);
            let us = units(small as nat);
            assert(4 * us < p * pg) by (nonlinear_arith)
                requires
                    us == m2 as nat * p,
                    m2 < 0x20_0000_0000_0000,
                    pg >= 0x20_0000_0000_0000 * 8,
                    p > 0,
            ;
            let u = units(big as nat);
            if sum {
                lemma_nearest_close(big as nat, u + us, 1);
            } else {
                lemma_nearest_close(big as nat, (u - us) as nat, 1);
            }
        }
        return big;
    }
    let f: u128 = pow2_u128(gap);
    proof {
        lemma_pow2_monotone(gap as nat, 70);
        lemma_pow2_sum(64, 6);
        lemma_pow2_values();
        assert(pow2(6) == 64) by {
            reveal_with_fuel(pow2, 7);
        }
        assert(m1 as nat * f <= 0x20_0000_0000_0000 * (64 * 0x1_0000_0000_0000_0000))
            by (nonlinear_arith)
            requires
                m1 <= 0x20_0000_0000_0000,
                f <= 64 * 0x1_0000_0000_0000_0000,
        ;
        lemma_pow2_sum(gap as nat, s2 as nat);
        let p = pow2(s2 as nat);
        lemma_pow2_pos(s2 as nat);
        let n1 = m1 as nat * f as nat;
        assert(m1 as nat * (f as nat * p) == n1 * p) by (nonlinear_arith)
            requires
                n1 == m1 as nat * f as nat,
        ;
        assert((n1 + m2 as nat) * p == n1 * p + m2 as nat * p) by (nonlinear_arith);
        if !sum {
            assert(n1 > m2) by (nonlinear_arith)
                requires
                    m2 as nat * p < n1 * p,
            ;
            assert((n1 - m2 as nat) * p == n1 * p - m2 as nat * p) by (nonlinear_arith);
        }
    }
    let n: u128 = if sum {
        (m1 as u128) * f + m2 as u128
    } else {
        (m1 as u128) * f - m2 as u128
    };
    nearest_dyadic(n, s2 as i32)
}

/// The whole part and the rest of a finite magnitude, in ones; the whole part is
/// capped at `u64::MAX`.
fn parts(m: u64) -> (r: (u64, u64))
    requires
        m < INFINITE,
    ensures
        r.0 == (if units(m as nat) / one() > u64::MAX {
            u64::MAX as nat
        } else {
            units(m as nat) / one()
        }),
        (r.1 == 0) == (units(m as nat) % one() == 0),
{
    let (q, s): (u64, u32) = decode(m);
    let ghost p = pow2(s as nat);
    let ghost u = units(m as nat);
    proof {
        lemma_pow2_pos(1074);
        lemma_pow2_values();
    }
    if s >= 1074 {
        let e: u32 = s - 1074;
        proof {
            lemma_pow2_sum(e as nat, 1074);
            let pe = pow2(e as nat);
            assert(u == (q as nat * pe) * one() + 0) by (nonlinear_arith)
                requires
                    u == q as nat * (pe * one()),
            ;
            lemma_fundamental_div_mod_converse(u as int, one() as int, q as int * pe as int, 0);
            lemma_pow2_pos(e as nat);
        }
        if e >= 64 {
            proof {
                lemma_pow2_monotone(64, e as nat);
                let pe = pow2(e as nat);
                assert(q as nat * pe >= pe) by (nonlinear_arith)
                    requires
                        q >= 1,
                ;
            }
            return (u64::MAX, 0);
        }
        let f: u128 = pow2_u128(e);
        proof {
            lemma_pow2_monotone(e as nat, 64);
            assert(q as nat * f as nat <= 0x20_0000_0000_0000 * 0x1_0000_0000_0000_0000)
                by (nonlinear_arith)
                requires
                    q <= 0x20_0000_0000_0000,
                    f <= 0x1_0000_0000_0000_0000,
            ;
        }
        let w: u128 = (q as u128) * f;
        if w > 0xffff_ffff_ffff_ffff {
            return (u64::MAX, 0);
        }
        return (w as u64, 0);
    }
    let t: u32 = 1074 - s;
    if t >= 64 {
        proof {
            lemma_pow2_sum(s as nat, t as nat);
            lemma_pow2_monotone(64, t as nat);
            let pt = pow2(t as nat);
            lemma_pow2_pos(s as nat);
            assert(q as nat * p < p * pt) by (nonlinear_arith)
                requires
                    q < pt,
                    p > 0,
            ;
            lemma_fundamental_div_mod_converse(u as int, one() as int, 0, u as int);
            if q > 0 {
                assert(q as nat * p > 0) by (nonlinear_arith)
                    requires
                        q > 0,
                        p > 0,
                ;
            } else {
                assert(0 * p == 0) by (nonlinear_arith);
            }
        }
        return (0, q);
    }
    let d: u128 = pow2_u128(t);
    proof {
        lemma_pow2_pos(t as nat);
    }
    let w: u128 = (q as u128) / d;
    let r: u128 = (q as u128) % d;
    proof {
        lemma_pow2_pos(t as nat);
        lemma_pow2_pos(s as nat);
        lemma_pow2_sum(s as nat, t as nat);
        lemma_fundamental_div_mod(q as int, d as int);
        let (dn, wn, rn) = (d as nat, w as nat, r as nat);
        assert(u == wn * one() + rn * p) by (nonlinear_arith)
            requires
                u == q as nat * p,
                q as nat == dn * wn + rn,
                one() == p * dn,
        ;
        assert(rn * p < one()) by (nonlinear_arith)
            requires
                rn < dn,
                one() == p * dn,
                p > 0,
        ;
        lemma_fundamental_div_mod_converse(u as int, one() as int, wn as int, (rn * p) as int);
        if rn > 0 {
            assert(rn * p > 0) by (nonlinear_arith)
                requires
                    rn > 0,
                    p > 0,
            ;
        } else {
            assert(0 * p == 0) by (nonlinear_arith);
        }
        assert(w <= q) by (nonlinear_arith)
            requires
                q as nat == dn * wn + rn,
                dn >= 1,
                w == wn,
        ;
    }
    (w as u64, r as u64)
}

impl PartialEq for Double {
    fn eq(&self, other: &Double) -> (r: bool) {
        self.equal(*other)
    }
}

impl PartialEqSpecImpl for Double {
    open spec fn obeys_eq_spec() -> bool {
        true
    }

    open spec fn eq_spec(&self, other: &Double) -> bool {
        self.is_equal(*other)
    }
}

// ---------------------------------------------------------------------------
// Laws
// ---------------------------------------------------------------------------

/// The bits of one.
pub const ONE: u64 = 0x3ff0_0000_0000_0000;

/// The root of the square of a double is the double, where the square is a double.
pub proof fn law_root_of_square(m: nat, square: nat)
    requires
        0 < m < INFINITE,
        square < INFINITE,
        units(m) * units(m) == units(square) * one(),
    ensures
        nearest_root(units(square)) == m,
{
    lemma_decode(m);
    let q = mantissa(m);
    let k = exponent(m);
    let p = pow2(k);
    let w = units(square) * one();
    lemma_units_positive(m);
    lemma_pow2_pos(k);
    lemma_pow2_values();
    lemma_pow2_sum(k, 53);
    let top = pow2(k + 53);
    let u = units(m);
    assert(u < top) by (nonlinear_arith)
        requires
            u == q * p,
            top == p * 0x20_0000_0000_0000,
            q < 0x20_0000_0000_0000,
            p > 0,
    ;
    assert(u * u < top * top) by (nonlinear_arith)
        requires
            u < top,
    ;
    if k > 0 {
        lemma_pow2_sum(k, 52);
        let low = pow2((k + 52) as nat);
        assert(u >= low) by (nonlinear_arith)
            requires
                u == q * p,
                low == p * 0x10_0000_0000_0000,
                q >= 0x10_0000_0000_0000,
        ;
        assert(u * u >= low * low) by (nonlinear_arith)
            requires
                u >= low,
        ;
    }
    lemma_fit_root(w, 0, k);
    let s = p * p;
    assert(s > 0) by (nonlinear_arith)
        requires
            s == p * p,
            p > 0,
    ;
    assert(w == q * q * s) by (nonlinear_arith)
        requires
            w == u * u,
            u == q * p,
            s == p * p,
    ;
    assert(4 * w < (2 * q + 1) * (2 * q + 1) * s) by (nonlinear_arith)
        requires
            w == q * q * s,
            s > 0,
    ;
    assert(4 * w > (2 * q - 1) * (2 * q - 1) * s) by (nonlinear_arith)
        requires
            w == q * q * s,
            s > 0,
            q > 0,
    ;
    assert(is_root(w, k, q));
    let c = choose|q: nat| is_root(w, k, q);
    lemma_root_unique(w, k, c, q);
}

/// One is one: its bits have the value one.
pub proof fn lemma_one()
    ensures
        units(ONE as nat) == one(),
        double_of_int(1) == (Double { bits: ONE }),
        0 < ONE < INFINITE,
{
    lemma_pow2_values();
    lemma_pow2_sum(52, 1022);
    assert(mantissa(ONE as nat) == HIDDEN);
    assert(exponent(ONE as nat) == 1022);
    law_nearest_exact(ONE as nat);
    assert(1 * one() == one());
}

} // verus!
