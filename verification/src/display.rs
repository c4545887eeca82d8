//! What numbers look like as text.

use vstd::prelude::*;

use crate::decimal::decimal_exponent;
use crate::decimal::digits_at;
use crate::decimal::exponent_up;
use crate::decimal::lemma_shortest;
use crate::decimal::nearest_decimal;
use crate::decimal::over_power;
use crate::decimal::shortest;
use crate::decimal::shortest_from;
use crate::decimal::show_decimal;
use crate::decimal::show_double;
use crate::decimal::without_zeros;
use crate::decimal::zeros;
use crate::double::double_of_int;
use crate::double::law_nearest_exact;
use crate::double::nearest;
use crate::double::one;
use crate::double::units;
use crate::double::Double;
use crate::double::INFINITE;
use crate::natural::lemma_pow10_pos;
use crate::natural::lemma_pow10_sum;
use crate::natural::lemma_pow2_pos;
use crate::natural::pow10;
use crate::number::digit_char;
use crate::number::is_digit;
use crate::number::lemma_show_nat;
use crate::number::show_int;
use crate::number::show_nat;
use crate::rounding::law_nearest;
use crate::whole::law_whole_number;
use crate::whole::MANTISSA_LIMIT;

verus! {

// ---------------------------------------------------------------------------
// Whole numbers
// ---------------------------------------------------------------------------

/// The number of digits of a whole number is found.
proof fn lemma_exponent_up(a: nat, e: nat, from: nat)
    requires
        from <= e <= 16,
        a < pow10(e),
        e > 0 ==> a >= pow10((e - 1) as nat),
    ensures
        exponent_up(a * one(), from) == e,
    decreases e - from,
{
    lemma_pow2_pos(1074);
    let o = one();
    if from < e {
        crate::natural::lemma_pow10_monotone(from, (e - 1) as nat);
        assert(a * o >= o * pow10(from)) by (nonlinear_arith)
            requires
                a >= pow10(from),
                o > 0,
        ;
        lemma_exponent_up(a, e, from + 1);
    } else {
        assert(a * o < o * pow10(e)) by (nonlinear_arith)
            requires
                a < pow10(e),
                o > 0,
        ;
    }
}

/// A whole number rounds to the double of a smaller one only where it is that one.
proof fn lemma_whole_apart(a: nat, b: nat)
    requires
        a < MANTISSA_LIMIT,
    ensures
        nearest(b * one(), 1) == double_of_int(a as int).magnitude() <==> a == b,
{
    lemma_pow2_pos(1074);
    let o = one();
    let m = double_of_int(a as int).magnitude();
    law_whole_number(a as int);
    assert(units(m) == a * o);
    let w = nearest(b * o, 1);
    if a == b {
        law_nearest_exact(m);
    } else if w == m {
        if b < a {
            law_whole_number(b as int);
            let v = double_of_int(b as int).magnitude();
            assert(units(v) == b * o);
            law_nearest(b * o, 1, v);
            assert(a * o > b * o) by (nonlinear_arith)
                requires
                    b < a,
                    o > 0,
            ;
        } else {
            let c = (a + 1) as nat;
            let v = lemma_next(a);
            law_nearest(b * o, 1, v);
            assert(b * o >= c * o && c * o > a * o) by (nonlinear_arith)
                requires
                    b >= c,
                    c == a + 1,
                    o > 0,
            ;
        }
    }
}

/// The whole number behind one below 2^53 is a double too.
proof fn lemma_next(a: nat) -> (v: nat)
    requires
        a < MANTISSA_LIMIT,
    ensures
        v < INFINITE,
        units(v) == (a + 1) * one(),
{
    if a + 1 < MANTISSA_LIMIT {
        law_whole_number(a as int + 1);
        double_of_int(a as int + 1).magnitude()
    } else {
        let h = crate::double::HIDDEN as nat;
        let v = 1076 * h;
        crate::natural::lemma_pow2_values();
        crate::natural::lemma_pow2_sum(53, 1022);
        crate::natural::lemma_pow2_sum(52, 1023);
        crate::natural::lemma_pow2_sum(53, 1074);
        crate::natural::lemma_pow2_sum(52, 1075);
        assert(v / h == 1076 && v % h == 0);
        assert(crate::double::exponent(v) == 1075);
        assert(crate::double::mantissa(v) == h);
        v
    }
}

/// Digits of a whole number that do not give it in full are not taken.
proof fn lemma_digits_whole(a: nat, e: nat, n: nat)
    requires
        0 < a < MANTISSA_LIMIT,
        1 <= n <= e <= 16,
        a < pow10(e),
        a >= pow10((e - 1) as nat),
    ensures
        ({
            let m = double_of_int(a as int).magnitude();
            &&& decimal_exponent(units(m)) == e
            &&& digits_at(m, n) matches Some(c) ==> c * pow10((e - n) as nat) == a
            &&& n == e ==> digits_at(m, n) == Some(a)
        }),
{
    lemma_pow2_pos(1074);
    let o = one();
    let m = double_of_int(a as int).magnitude();
    law_whole_number(a as int);
    assert(units(m) == a * o);
    assert(a * o >= o) by (nonlinear_arith)
        requires
            a >= 1,
            o > 0,
    ;
    lemma_exponent_up(a, e, 0);
    let k = (e - n) as nat;
    let t = pow10(k);
    lemma_pow10_pos(k);
    lemma_pow10_pos(n);
    lemma_pow10_sum(k, n);
    assert(k + n == e);
    let (x, y) = over_power(units(m), e as int);
    let p = pow10(n);
    assert(x * p == a * (o * p)) by (nonlinear_arith)
        requires
            x == a * o,
    ;
    assert(y == t * (o * p)) by (nonlinear_arith)
        requires
            y == o * pow10(e),
            pow10(e) == t * p,
    ;
    let s = o * p;
    assert(s > 0) by (nonlinear_arith)
        requires
            s == o * p,
            o > 0,
            p > 0,
    ;
    let low = a / t;
    let r = a % t;
    vstd::arithmetic::div_mod::lemma_fundamental_div_mod(a as int, t as int);
    assert(x * p == y * low + s * r) by (nonlinear_arith)
        requires
            x * p == a * s,
            y == t * s,
            a == t * low + r,
    ;
    assert(s * r < y) by (nonlinear_arith)
        requires
            y == t * s,
            r < t,
            s > 0,
    ;
    assert(s * r >= 0) by (nonlinear_arith)
        requires
            s > 0,
            r >= 0,
    ;
    assert(x * p == low * y + s * r) by (nonlinear_arith)
        requires
            x * p == y * low + s * r,
    ;
    vstd::arithmetic::div_mod::lemma_fundamental_div_mod_converse(
        (x * p) as int,
        y as int,
        low as int,
        (s * r) as int,
    );
    assert(x * p / y == low);
    assert(low * t <= a < (low + 1) * t) by (nonlinear_arith)
        requires
            a == t * low + r,
            0 <= r < t,
    ;
    lemma_whole_apart(a, low * t);
    lemma_whole_apart(a, (low + 1) * t);
    assert(e - n == k as int);
    assert(nearest_decimal(low, e - n) == nearest(low * t * o, 1));
    assert(nearest_decimal(low + 1, e - n) == nearest((low + 1) * t * o, 1));
    if n == e {
        assert(t == 1);
        assert(low == a && r == 0) by {
            assert(a == 1 * low + r);
            assert(r < 1);
        }
        assert(low * t == a);
        assert(s * r == 0) by (nonlinear_arith)
            requires
                r == 0,
        ;
    }
}

proof fn lemma_shortest_whole(a: nat, e: nat, n: nat)
    requires
        0 < a < MANTISSA_LIMIT,
        1 <= n <= e <= 16,
        a < pow10(e),
        a >= pow10((e - 1) as nat),
    ensures
        ({
            let (c, p) = shortest_from(double_of_int(a as int).magnitude(), n);
            p >= 0 && c * pow10(p as nat) == a
        }),
    decreases e - n,
{
    let m = double_of_int(a as int).magnitude();
    lemma_digits_whole(a, e, n);
    if digits_at(m, n) is None {
        lemma_shortest_whole(a, e, n + 1);
    }
}

proof fn lemma_zeros_kept(c: nat, p: nat)
    requires
        c > 0,
    ensures
        ({
            let (d, q) = without_zeros(c, p as int);
            q >= p && d > 0 && d * pow10(q as nat) == c * pow10(p) && d % 10 != 0
        }),
    decreases c,
{
    if c % 10 == 0 {
        let z = c / 10;
        lemma_zeros_kept(z, p + 1);
        assert(z * (10 * pow10(p)) == c * pow10(p)) by (nonlinear_arith)
            requires
                c == 10 * z,
        ;
    }
}

/// Behind a number each zero is a factor of ten.
proof fn lemma_zeros_behind(c: nat, k: nat)
    requires
        c > 0,
    ensures
        show_nat(c) + zeros(k) == show_nat(c * pow10(k)),
    decreases k,
{
    if k == 0 {
        assert(c * 1 == c);
        assert(show_nat(c) + zeros(0) =~= show_nat(c));
    } else {
        let j = (k - 1) as nat;
        lemma_zeros_behind(c, j);
        lemma_pow10_pos(j);
        let v = c * pow10(j);
        let w = c * pow10(k);
        assert(w == 10 * v) by (nonlinear_arith)
            requires
                w == c * (10 * pow10(j)),
                v == c * pow10(j),
        ;
        assert(v > 0) by (nonlinear_arith)
            requires
                v == c * pow10(j),
                c > 0,
                pow10(j) > 0,
        ;
        assert(w / 10 == v && w % 10 == 0);
        assert(digit_char(0) == '0');
        assert(show_nat(w) == show_nat(v).push('0'));
        assert(show_nat(c) + zeros(k) =~= (show_nat(c) + zeros(j)).push('0'));
    }
}

/// A positive whole number lies between a power of ten and the next.
proof fn lemma_digit_count(a: nat, e: nat) -> (r: nat)
    requires
        0 < a < pow10(e),
    ensures
        1 <= r <= e,
        pow10((r - 1) as nat) <= a < pow10(r),
    decreases e,
{
    if e == 0 {
        assert(pow10(0) == 1);
        0
    } else if a >= pow10((e - 1) as nat) {
        e
    } else {
        lemma_digit_count(a, (e - 1) as nat)
    }
}

/// A whole number below 2^53 looks the same as a double and as an integer.
pub proof fn law_whole_number_shown(n: int)
    requires
        -MANTISSA_LIMIT < n < MANTISSA_LIMIT,
    ensures
        show_double(double_of_int(n)) == show_int(n),
{
    law_whole_number(n);
    let a = if n < 0 {
        (-n) as nat
    } else {
        n as nat
    };
    law_whole_number(a as int);
    let x = double_of_int(n);
    let m = double_of_int(a as int).magnitude();
    assert(x.magnitude() == m) by {
        if n < 0 {
            assert((-n) as nat * one() == a * one());
        }
    }
    let none = Seq::<char>::empty();
    if a == 0 {
        assert(digit_char(0) == '0');
        assert(none + seq!['0'] =~= show_int(0));
    } else {
        assert(pow10(16) == 10_000_000_000_000_000) by {
            reveal_with_fuel(pow10, 17);
        }
        let e = lemma_digit_count(a, 16);
        lemma_shortest_whole(a, e, 1);
        let (c, p) = shortest_from(m, 1);
        assert(c > 0) by {
            if c == 0 {
                assert(c * pow10(p as nat) == 0) by (nonlinear_arith)
                    requires
                        c == 0,
                ;
            }
        }
        lemma_zeros_kept(c, p as nat);
        let (d, q) = without_zeros(c, p);
        lemma_zeros_behind(d, q as nat);
        assert(shortest(m) == (d, q));
        assert(show_decimal(d, q) == show_nat(a));
        if n < 0 {
            assert(seq!['-'] + show_nat(a) =~= show_int(n));
        } else {
            assert(none + show_nat(a) =~= show_int(n));
        }
    }
}

// ---------------------------------------------------------------------------
// The shape of a number
// ---------------------------------------------------------------------------

proof fn lemma_ends(c: nat)
    requires
        c > 0,
    ensures
        show_nat(c).len() > 0,
        show_nat(c)[0] != '0',
        c % 10 != 0 ==> show_nat(c).last() != '0',
    decreases c,
{
    assert(digit_char(c % 10) == '0' ==> c % 10 == 0);
    if c >= 10 {
        lemma_ends(c / 10);
    }
}

proof fn lemma_no_zero(c: nat, p: int)
    requires
        c > 0,
    ensures
        without_zeros(c, p).0 > 0,
        without_zeros(c, p).0 % 10 != 0,
    decreases c,
{
    if c % 10 == 0 {
        lemma_no_zero(c / 10, p + 1);
    }
}

/// A number other than zero is shown without superfluous zeros: it begins with a digit, and
/// with a zero only before the point; it ends with a digit, and behind a point not with a
/// zero. Only a negative number has a sign.
pub proof fn law_number_shape(x: Double)
    requires
        x.is_finite(),
        x.magnitude() != 0,
    ensures
        ({
            let s = show_double(x);
            let t = if x.negative() {
                s.skip(1)
            } else {
                s
            };
            &&& x.negative() ==> s[0] == '-'
            &&& t.len() > 0
            &&& is_digit(t[0])
            &&& is_digit(t.last())
            &&& t[0] == '0' ==> t.len() > 2 && t[1] == '.'
            &&& t.contains('.') ==> t.last() != '0'
        }),
{
    let m = x.magnitude();
    let (c0, p0) = shortest_from(m, 1);
    let (c, p) = shortest(m);
    lemma_shortest(m);
    if c0 == 0 {
        assert(c == 0);
        lemma_zero_decimal(p);
    }
    lemma_no_zero(c0, p0);
    let d = show_nat(c);
    lemma_ends(c);
    lemma_show_nat(c);
    assert(is_digit(d[0]) && is_digit(d[d.len() - 1]));
    let t = show_decimal(c, p);
    let s = show_double(x);
    if x.negative() {
        assert(s == seq!['-'] + t);
        assert(s.skip(1) =~= t);
    } else {
        assert(s =~= t);
    }
    if p >= 0 {
        assert(t[0] == d[0]);
        assert forall|i: int| 0 <= i < t.len() implies is_digit(#[trigger] t[i]) by {
            if i < d.len() {
                assert(is_digit(d[i]));
            }
        }
        assert(is_digit(t[t.len() - 1]));
        if t.contains('.') {
            let i = choose|i: int| 0 <= i < t.len() && t[i] == '.';
            assert(is_digit(t[i]));
        }
    } else if d.len() > -p {
        assert(t[0] == d[0]);
        assert(t.last() == d.last());
    } else {
        assert(t[0] == '0' && t[1] == '.');
        assert(t.last() == d.last());
    }
}

proof fn lemma_zero_decimal(p: int)
    ensures
        nearest_decimal(0, p) == 0,
{
    if p >= 0 {
        assert(0 * pow10(p as nat) * one() == 0) by (nonlinear_arith);
        crate::double::lemma_nearest_zero(1);
    } else {
        lemma_pow10_pos((-p) as nat);
        assert(0 * one() == 0) by (nonlinear_arith);
        crate::double::lemma_nearest_zero(pow10((-p) as nat));
    }
}

} // verus!
