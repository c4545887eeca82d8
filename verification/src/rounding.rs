//! What holds of rounding.

use vstd::arithmetic::div_mod::lemma_fundamental_div_mod;
use vstd::prelude::*;

use crate::double::exponent;
use crate::double::fit;
use crate::double::lemma_decode;
use crate::double::lemma_fit_bounds;
use crate::double::mantissa;
use crate::double::nearest;
use crate::double::packed;
use crate::double::rounded;
use crate::double::units;
use crate::double::HIDDEN;
use crate::double::INFINITE;
use crate::natural::lemma_pow2_monotone;
use crate::natural::lemma_pow2_pos;
use crate::natural::lemma_pow2_sum;
use crate::natural::lemma_pow2_values;
use crate::natural::pow2;

verus! {

/// How far apart two numbers are.
pub open spec fn apart(a: int, b: int) -> int {
    if a < b {
        b - a
    } else {
        a - b
    }
}

/// A rounded quotient is at most half a step away.
proof fn lemma_rounded(q: nat, r: nat, d: nat, n: nat, c: int)
    requires
        n == q * d + r,
        r < d,
    ensures
        apart(rounded(q, r, d) * d as int, n as int) <= apart(c * d, n as int),
        2 * apart(rounded(q, r, d) * d as int, n as int) <= d,
        c != rounded(q, r, d) && apart(rounded(q, r, d) * d as int, n as int) == apart(
            c * d,
            n as int,
        ) ==> rounded(q, r, d) % 2 == 0,
{
    let x = rounded(q, r, d) as int;
    assert(q * d as int + d == (q + 1) * d as int) by (nonlinear_arith);
    if c == q {
    } else if c < q {
        assert(c * d + d <= q * d as int) by (nonlinear_arith)
            requires
                c + 1 <= q,
                d > 0,
        ;
    } else if c > q + 1 {
        assert((q + 1) * d as int + d <= c * d) by (nonlinear_arith)
            requires
                c >= q + 2,
                d > 0,
        ;
    } else {
        assert((q + 1) * d as int <= c * d) by (nonlinear_arith)
            requires
                c >= q + 1,
                d > 0,
        ;
    }
}

/// The value of the double that a rounded mantissa makes.
proof fn lemma_packed(q: nat, k: nat)
    requires
        q <= 2 * HIDDEN,
        k > 0 ==> q >= HIDDEN,
        packed(q, k) < INFINITE,
    ensures
        packed(q, k) == k * HIDDEN as nat + q,
        units(packed(q, k)) == q * pow2(k),
{
    let h = HIDDEN as nat;
    let w = k * h + q;
    if q < h {
        assert(k == 0);
    } else if q < 2 * h {
        assert(w == (k + 1) * h + (q - h)) by (nonlinear_arith)
            requires
                w == k * h + q,
        ;
        assert(w / h == k + 1 && w % h == q - h) by (nonlinear_arith)
            requires
                w == (k + 1) * h + (q - h),
                0 <= q - h < h,
        ;
        assert(w >= h);
    } else {
        assert(w == (k + 2) * h) by (nonlinear_arith)
            requires
                w == k * h + q,
                q == 2 * h,
        ;
        assert(w / h == k + 2 && w % h == 0) by (nonlinear_arith)
            requires
                w == (k + 2) * h,
                h > 0,
        ;
        assert(pow2(k + 1) == 2 * pow2(k));
        assert(h * (2 * pow2(k)) == (2 * h) * pow2(k)) by (nonlinear_arith);
    }
}

/// What is known of the exponent at which a ratio is rounded.
proof fn lemma_scale(n: nat, d: nat)
    requires
        d > 0,
    ensures
        ({
            let k = fit(n, d, 0);
            let step = d * pow2(k);
            &&& step > 0
            &&& n == (n / step) * step + n % step
            &&& n % step < step
            &&& n / step < 2 * HIDDEN
            &&& k > 0 ==> n / step >= HIDDEN
        }),
{
    let k = fit(n, d, 0);
    let p = pow2(k);
    let step = d * p;
    lemma_fit_bounds(n, d, 0);
    lemma_pow2_pos(k);
    lemma_pow2_values();
    lemma_pow2_sum(k, 53);
    assert(step > 0) by (nonlinear_arith)
        requires
            step == d * p,
            d > 0,
            p > 0,
    ;
    lemma_fundamental_div_mod(n as int, step as int);
    let q = n / step;
    let r = n % step;
    assert(n == q * step + r) by (nonlinear_arith)
        requires
            n == step * q + r,
    ;
    assert(d * pow2(k + 53) == step * 0x20_0000_0000_0000) by (nonlinear_arith)
        requires
            pow2(k + 53) == p * 0x20_0000_0000_0000,
            step == d * p,
    ;
    assert(q < 0x20_0000_0000_0000) by (nonlinear_arith)
        requires
            n == q * step + r,
            n < step * 0x20_0000_0000_0000,
            r >= 0,
            step > 0,
    ;
    if k > 0 {
        lemma_pow2_sum(k, 52);
        assert(d * pow2((k + 52) as nat) == step * 0x10_0000_0000_0000) by (nonlinear_arith)
            requires
                pow2((k + 52) as nat) == p * 0x10_0000_0000_0000,
                step == d * p,
        ;
        assert(q >= 0x10_0000_0000_0000) by (nonlinear_arith)
            requires
                n == q * step + r,
                n >= step * 0x10_0000_0000_0000,
                r < step,
                step > 0,
        ;
    }
}

/// Rounding gives the double that is nearest: no other is nearer to the ratio, and where
/// another is as near, the one whose last bit is zero is taken.
pub proof fn law_nearest(n: nat, d: nat, m: nat)
    requires
        d > 0,
        nearest(n, d) < INFINITE,
        m < INFINITE,
    ensures
        apart(units(nearest(n, d)) * d as int, n as int) <= apart(units(m) * d as int, n as int),
        m != nearest(n, d) && apart(units(nearest(n, d)) * d as int, n as int) == apart(
            units(m) * d as int,
            n as int,
        ) ==> nearest(n, d) % 2 == 0,
{
    let k = fit(n, d, 0);
    let p = pow2(k);
    let step = d * p;
    let (q, r) = (n / step, n % step);
    lemma_scale(n, d);
    let x = rounded(q, r, step);
    lemma_packed(x, k);
    let w = nearest(n, d);
    assert(units(w) * d == x * step) by (nonlinear_arith)
        requires
            units(w) == x * p,
            step == d * p,
    ;
    assert(w % 2 == x % 2) by (nonlinear_arith)
        requires
            w == k * HIDDEN as nat + x,
            HIDDEN as nat == 0x10_0000_0000_0000nat,
    ;
    lemma_decode(m);
    let e = exponent(m);
    let a = mantissa(m);
    let u = units(m);
    lemma_rounded(q, r, step, n, q as int);
    if e >= k {
        lemma_pow2_sum((e - k) as nat, k);
        let c = a * pow2((e - k) as nat);
        assert(u == c * p) by (nonlinear_arith)
            requires
                u == a * pow2(e),
                pow2(e) == pow2((e - k) as nat) * p,
                c == a * pow2((e - k) as nat),
        ;
        assert(u * d == c * step) by (nonlinear_arith)
            requires
                u == c * p,
                step == d * p,
        ;
        lemma_rounded(q, r, step, n, c as int);
        if c == x && m != w {
            if m < w {
                crate::double::lemma_units_order(m, w);
            } else {
                crate::double::lemma_units_order(w, m);
            }
        }
    } else {
        lemma_pow2_sum((k - 1) as nat, 1);
        lemma_pow2_monotone(e, (k - 1) as nat);
        lemma_pow2_values();
        lemma_pow2_pos(e);
        assert(u < HIDDEN * p) by (nonlinear_arith)
            requires
                u == a * pow2(e),
                a < 2 * HIDDEN,
                0 < pow2(e) <= pow2((k - 1) as nat),
                p == pow2((k - 1) as nat) * 2,
        ;
        assert(u * d < q * step) by (nonlinear_arith)
            requires
                u < HIDDEN * p,
                step == d * p,
                q >= HIDDEN,
                d > 0,
                p > 0,
        ;
    }
}

/// A number that is not greater than a finite double does not round to infinity.
pub proof fn law_finite_rounds(n: nat, m: nat)
    requires
        m < INFINITE,
        n <= units(m),
    ensures
        nearest(n, 1) < INFINITE,
{
    let k = fit(n, 1, 0);
    let p = pow2(k);
    let step = 1 * p;
    let (q, r) = (n / step, n % step);
    lemma_scale(n, 1);
    let x = rounded(q, r, step);
    lemma_decode(m);
    let e = exponent(m);
    let a = mantissa(m);
    lemma_pow2_values();
    lemma_pow2_pos(k);
    lemma_pow2_pos(e);
    if k > e {
        lemma_pow2_monotone((e + 1) as nat, k);
        lemma_pow2_sum(e, 1);
        assert(units(m) < q * step) by (nonlinear_arith)
            requires
                units(m) == a * pow2(e),
                a < 2 * HIDDEN,
                q >= HIDDEN,
                step == p,
                p >= pow2(e) * 2,
                pow2(e) > 0,
        ;
    }
    assert(k <= e);
    let h = HIDDEN as nat;
    if k < e {
        assert(k * h + x < INFINITE) by (nonlinear_arith)
            requires
                k <= 2044,
                x <= 2 * h,
                h == 0x10_0000_0000_0000nat,
                INFINITE == 0x7ff0_0000_0000_0000u64,
        ;
    } else {
        assert(q <= a) by (nonlinear_arith)
            requires
                q * step + r <= a * pow2(e),
                step == pow2(e),
                step > 0,
                r >= 0,
        ;
        if q == a {
            assert(r == 0) by (nonlinear_arith)
                requires
                    q * step + r <= a * pow2(e),
                    step == pow2(e),
                    q == a,
                    r >= 0,
            ;
        }
        assert(x <= a);
        assert(k * h + x <= m) by (nonlinear_arith)
            requires
                k == e,
                x <= a,
                m == e * h + a,
        ;
    }
}

} // verus!
