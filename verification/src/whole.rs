//! Whole numbers as doubles.

use vstd::prelude::*;

use crate::double::double_of_int;
use crate::double::exponent;
use crate::double::law_nearest_exact;
use crate::double::lemma_nearest_zero;
use crate::double::mantissa;
use crate::double::nearest;
use crate::double::one;
use crate::double::units;
use crate::double::HIDDEN;
use crate::double::INFINITE;
use crate::natural::lemma_pow2_pos;
use crate::natural::lemma_pow2_sum;
use crate::natural::lemma_pow2_values;
use crate::natural::pow2;

verus! {

/// 2 to the power 53: a double holds every whole number below it exactly.
pub const MANTISSA_LIMIT: i64 = 0x20_0000_0000_0000;

/// The magnitude of a whole number below 2^53: with `n` in `2^e .. 2^(e+1)`.
proof fn lemma_whole_at(n: nat, e: nat) -> (m: nat)
    requires
        e <= 52,
        pow2(e) <= n < 2 * pow2(e),
    ensures
        0 < m < INFINITE,
        units(m) == n * one(),
{
    let f = (52 - e) as nat;
    let q = n * pow2(f);
    let k = (1022 + e) as nat;
    lemma_pow2_values();
    lemma_pow2_pos(e);
    lemma_pow2_pos(f);
    lemma_pow2_sum(e, f);
    assert(HIDDEN as nat <= q < 2 * HIDDEN as nat) by (nonlinear_arith)
        requires
            q == n * pow2(f),
            pow2(e) <= n < 2 * pow2(e),
            pow2(e) * pow2(f) == HIDDEN as nat,
            pow2(f) > 0,
    ;
    let m = k * HIDDEN as nat + q;
    assert(m / (HIDDEN as nat) == k + 1);
    assert(m % (HIDDEN as nat) == q - HIDDEN);
    assert(mantissa(m) == q);
    assert(exponent(m) == k);
    lemma_pow2_sum(f, k);
    assert(f + k == 1074);
    assert(q * pow2(k) == n * (pow2(f) * pow2(k))) by (nonlinear_arith)
        requires
            q == n * pow2(f),
    ;
    m
}

/// Every positive whole number lies between a power of two and the next.
proof fn lemma_power_below(n: nat, e: nat) -> (r: nat)
    requires
        n > 0,
        n < 2 * pow2(e),
    ensures
        r <= e,
        pow2(r) <= n < 2 * pow2(r),
    decreases e,
{
    if n >= pow2(e) {
        e
    } else if e == 0 {
        0
    } else {
        lemma_power_below(n, (e - 1) as nat)
    }
}

/// A whole number below 2^53 is a double, with that value and no other.
pub proof fn law_whole_number(n: int)
    requires
        -MANTISSA_LIMIT < n < MANTISSA_LIMIT,
    ensures
        double_of_int(n).is_finite(),
        double_of_int(n).signed_units() == n * one(),
        double_of_int(n).negative() <==> n < 0,
        double_of_int(n).magnitude() == 0 <==> n == 0,
        double_of_int(n).is_whole(),
        double_of_int(n).to_int() == n,
{
    lemma_pow2_values();
    lemma_pow2_pos(1074);
    let a = if n < 0 {
        (-n) as nat
    } else {
        n as nat
    };
    if a == 0 {
        assert(0 * one() == 0) by (nonlinear_arith);
        lemma_nearest_zero(1);
        assert(units(0) == 0) by {
            assert(0 * pow2(0) == 0) by (nonlinear_arith);
        }
    } else {
        let e = lemma_power_below(a, 52);
        let m = lemma_whole_at(a, e);
        law_nearest_exact(m);
        assert(nearest(a * one(), 1) == m);
        assert(n < 0 ==> n * one() == -(a * one())) by (nonlinear_arith)
            requires
                n < 0 ==> a == -n,
        ;
        assert((a * one()) / one() == a) by (nonlinear_arith)
            requires
                one() > 0,
        ;
        assert((a * one()) % one() == 0) by (nonlinear_arith)
            requires
                one() > 0,
        ;
    }
}

} // verus!
