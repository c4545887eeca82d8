//! What holds of the similarity of vectors.

use vstd::prelude::*;

use crate::double::double_of_int;
use crate::double::law_nearest_exact;
use crate::double::law_root_of_square;
use crate::double::lemma_nearest_scaled;
use crate::double::lemma_nearest_zero;
use crate::double::lemma_one;
use crate::double::lemma_units_positive;
use crate::double::nearest;
use crate::double::one;
use crate::double::product_of;
use crate::double::quotient_of;
use crate::double::root_of;
use crate::double::signed;
use crate::double::sum_of;
use crate::double::units;
use crate::double::Double;
use crate::double::INFINITE;
use crate::double::ONE;
use crate::natural::lemma_pow2_pos;
use crate::natural::pow2;
use crate::types::closeness;
use crate::types::cosine;
use crate::types::difference;
use crate::types::dot;
use crate::types::norm;
use crate::types::squared_distance;
use crate::types::zero;
use crate::whole::law_whole_number;
use crate::whole::MANTISSA_LIMIT;

verus! {

// ---------------------------------------------------------------------------
// Turning a vector round
// ---------------------------------------------------------------------------

/// The double with the other sign.
pub open spec fn opposite(x: Double) -> Double {
    signed(!x.negative(), x.magnitude())
}

/// The vector that points the opposite way.
pub open spec fn turned(v: Seq<Double>) -> Seq<Double> {
    v.map_values(|x: Double| opposite(x))
}

/// As numbers, `y` is `x` with the other sign; or neither is a number.
pub open spec fn is_negated(x: Double, y: Double) -> bool {
    if x.is_nan() {
        y.is_nan()
    } else {
        !y.is_nan() && y.key() == -x.key()
    }
}

proof fn lemma_opposite(x: Double)
    ensures
        opposite(x).magnitude() == x.magnitude(),
        opposite(x).negative() == !x.negative(),
        is_negated(x, opposite(x)),
        opposite(x).signed_units() == -x.signed_units(),
{
}

proof fn lemma_signed(negative: bool, m: nat)
    requires
        m <= INFINITE,
    ensures
        signed(negative, m).magnitude() == m,
        m > 0 || !negative ==> signed(negative, m).negative() == negative,
        signed(negative, m).negative() == negative,
        !signed(negative, m).is_nan(),
        signed(negative, m).key() == if negative {
            -(m as int)
        } else {
            m as int
        },
{
}

proof fn lemma_nearest_bound(n: nat, d: nat)
    ensures
        nearest(n, d) <= INFINITE,
{
}

proof fn lemma_product_turns(x: Double, y: Double)
    ensures
        is_negated(product_of(x, y), product_of(x, opposite(y))),
{
    lemma_opposite(y);
    let n = x.negative() != y.negative();
    let m = nearest(units(x.magnitude()) * units(y.magnitude()), one());
    lemma_nearest_bound(units(x.magnitude()) * units(y.magnitude()), one());
    lemma_signed(n, m);
    lemma_signed(!n, m);
    lemma_signed(n, INFINITE as nat);
    lemma_signed(!n, INFINITE as nat);
}

/// The value of a finite double is given by its place.
proof fn lemma_negated_units(x: Double, y: Double)
    requires
        x.is_finite(),
        is_negated(x, y),
    ensures
        y.is_finite(),
        y.signed_units() == -x.signed_units(),
{
    lemma_zero_units();
}

proof fn lemma_zero_units()
    ensures
        units(0) == 0,
{
    assert(0 * pow2(0) == 0) by (nonlinear_arith);
}

proof fn lemma_sum_turns(a: Double, b: Double, c: Double, d: Double)
    requires
        is_negated(a, c),
        is_negated(b, d),
    ensures
        is_negated(sum_of(a, b), sum_of(c, d)),
{
    if a.is_finite() && b.is_finite() {
        lemma_negated_units(a, c);
        lemma_negated_units(b, d);
        let s = a.signed_units() + b.signed_units();
        let t = c.signed_units() + d.signed_units();
        assert(t == -s);
        let m = if s < 0 {
            nearest((-s) as nat, 1)
        } else {
            nearest(s as nat, 1)
        };
        lemma_nearest_bound((-s) as nat, 1);
        lemma_nearest_bound(s as nat, 1);
        lemma_signed(true, m);
        lemma_signed(false, m);
        lemma_signed(true, 0);
        lemma_signed(false, 0);
    }
}

proof fn lemma_dot_turns(a: Seq<Double>, b: Seq<Double>, n: nat)
    requires
        n <= b.len(),
    ensures
        is_negated(dot(a, b, n), dot(a, turned(b), n)),
    decreases n,
{
    if n > 0 {
        lemma_dot_turns(a, b, (n - 1) as nat);
        lemma_product_turns(a[n - 1], b[n - 1]);
        lemma_sum_turns(
            dot(a, b, (n - 1) as nat),
            product_of(a[n - 1], b[n - 1]),
            dot(a, turned(b), (n - 1) as nat),
            product_of(a[n - 1], turned(b)[n - 1]),
        );
    }
}

proof fn lemma_square_turns(b: Seq<Double>, n: nat)
    requires
        n <= b.len(),
    ensures
        dot(turned(b), turned(b), n) == dot(b, b, n),
    decreases n,
{
    if n > 0 {
        lemma_square_turns(b, (n - 1) as nat);
        lemma_opposite(b[n - 1]);
    }
}

proof fn lemma_quotient_turns(a: Double, c: Double, d: Double)
    requires
        is_negated(a, c),
    ensures
        is_negated(quotient_of(a, d), quotient_of(c, d)),
{
    let n = a.negative() != d.negative();
    let m = nearest(units(a.magnitude()) * one(), units(d.magnitude()));
    lemma_nearest_bound(units(a.magnitude()) * one(), units(d.magnitude()));
    lemma_signed(n, m);
    lemma_signed(!n, m);
    lemma_signed(n, INFINITE as nat);
    lemma_signed(!n, INFINITE as nat);
    lemma_signed(n, 0);
    lemma_signed(!n, 0);
    if a.magnitude() == 0 && d.is_finite() && d.magnitude() > 0 {
        lemma_zero_units();
        lemma_units_positive(d.magnitude());
        assert(0 * one() == 0) by (nonlinear_arith);
        lemma_nearest_zero(units(d.magnitude()));
    }
}

/// Turning one of two vectors round turns the sign of their similarity round, and changes
/// nothing else of it.
pub proof fn law_cosine_turns(a: Seq<Double>, b: Seq<Double>)
    ensures
        is_negated(cosine(a, b), cosine(a, turned(b))),
{
    if a.len() == b.len() {
        lemma_dot_turns(a, b, a.len());
        lemma_square_turns(b, a.len());
        lemma_quotient_turns(
            dot(a, b, a.len()),
            dot(a, turned(b), a.len()),
            product_of(norm(a), norm(b)),
        );
    }
}

proof fn lemma_square_positive(a: Seq<Double>, n: nat)
    requires
        n <= a.len(),
    ensures
        dot(a, a, n).is_nan() || dot(a, a, n).key() >= 0,
    decreases n,
{
    if n > 0 {
        lemma_square_positive(a, (n - 1) as nat);
        let x = a[n - 1];
        let m = nearest(units(x.magnitude()) * units(x.magnitude()), one());
        lemma_nearest_bound(units(x.magnitude()) * units(x.magnitude()), one());
        lemma_signed(false, m);
        lemma_signed(false, INFINITE as nat);
        lemma_sum_positive(dot(a, a, (n - 1) as nat), product_of(x, x));
    }
}

proof fn lemma_sum_positive(a: Double, b: Double)
    requires
        a.is_nan() || a.key() >= 0,
        b.is_nan() || b.key() >= 0,
    ensures
        sum_of(a, b).is_nan() || sum_of(a, b).key() >= 0,
{
    if a.is_finite() && b.is_finite() {
        lemma_zero_units();
        let s = a.signed_units() + b.signed_units();
        lemma_nearest_bound(s as nat, 1);
        lemma_signed(false, nearest(s as nat, 1));
        lemma_signed(true, 0);
        lemma_signed(false, 0);
    }
}

/// The similarity of two vectors has the sign of their dot product, where it is a number.
pub proof fn law_cosine_sign(a: Seq<Double>, b: Seq<Double>)
    requires
        a.len() == b.len(),
    ensures
        !cosine(a, b).is_nan() && dot(a, b, a.len()).is_less(zero()) ==> !zero().is_less(
            cosine(a, b),
        ),
        !cosine(a, b).is_nan() && zero().is_less(dot(a, b, a.len())) ==> !cosine(a, b).is_less(
            zero(),
        ),
{
    lemma_square_positive(a, a.len());
    lemma_square_positive(b, b.len());
    lemma_root_positive(dot(a, a, a.len()));
    lemma_root_positive(dot(b, b, b.len()));
    let d = dot(a, b, a.len());
    let n = product_of(norm(a), norm(b));
    if a.len() > 0 && !norm(a).is_equal(zero()) && !norm(b).is_equal(zero()) {
        lemma_product_positive(norm(a), norm(b));
        let m = nearest(units(d.magnitude()) * one(), units(n.magnitude()));
        lemma_nearest_bound(units(d.magnitude()) * one(), units(n.magnitude()));
        lemma_signed(true, m);
        lemma_signed(false, m);
        lemma_signed(true, INFINITE as nat);
        lemma_signed(false, INFINITE as nat);
        lemma_signed(true, 0);
        lemma_signed(false, 0);
    }
}

proof fn lemma_root_positive(x: Double)
    requires
        x.is_nan() || x.key() >= 0,
    ensures
        root_of(x).is_nan() || root_of(x).key() >= 0,
{
    let u = units(x.magnitude());
    lemma_root_bound(u);
    lemma_signed(false, crate::double::nearest_root(u));
}

proof fn lemma_root_bound(u: nat)
    ensures
        crate::double::nearest_root(u) <= INFINITE,
{
}

proof fn lemma_product_positive(x: Double, y: Double)
    requires
        x.is_nan() || x.key() > 0,
        y.is_nan() || y.key() > 0,
    ensures
        product_of(x, y).is_nan() || !product_of(x, y).negative(),
{
    lemma_nearest_bound(units(x.magnitude()) * units(y.magnitude()), one());
    lemma_signed(false, nearest(units(x.magnitude()) * units(y.magnitude()), one()));
    lemma_signed(false, INFINITE as nat);
}

// ---------------------------------------------------------------------------
// Unit vectors
// ---------------------------------------------------------------------------

/// The vector with a one at the place `i` and zeros elsewhere.
pub open spec fn unit(n: nat, i: int) -> Seq<Double> {
    Seq::new(
        n,
        |j: int|
            if j == i {
                double_of_int(1)
            } else {
                double_of_int(0)
            },
    )
}

proof fn lemma_zero_double()
    ensures
        double_of_int(0) == zero(),
{
    assert(0 * one() == 0) by (nonlinear_arith);
    lemma_nearest_zero(1);
}

/// One times a number is the number.
proof fn lemma_times_one(x: Double)
    requires
        x.is_finite(),
    ensures
        product_of(x, double_of_int(1)) == x,
{
    lemma_one();
    lemma_pow2_pos(1074);
    let m = x.magnitude();
    lemma_nearest_scaled(units(m), 1, one());
    assert(1 * one() == one());
    law_nearest_exact(m);
}

/// Zero times a number is zero.
proof fn lemma_times_zero(x: Double)
    requires
        x.is_finite(),
    ensures
        product_of(x, double_of_int(0)).is_finite(),
        product_of(x, double_of_int(0)).key() == 0,
{
    lemma_zero_double();
    lemma_zero_units();
    let m = units(x.magnitude());
    assert(m * 0 == 0) by (nonlinear_arith);
    lemma_pow2_pos(1074);
    lemma_nearest_zero(one());
    lemma_signed(x.negative(), 0);
}

/// A number and a zero add up to the number.
proof fn lemma_plus_zero(x: Double, z: Double)
    requires
        x.is_finite(),
        z.is_finite(),
        z.key() == 0,
    ensures
        sum_of(x, z).is_finite(),
        sum_of(z, x).is_finite(),
        sum_of(x, z).key() == x.key(),
        sum_of(z, x).key() == x.key(),
{
    lemma_zero_units();
    law_nearest_exact(x.magnitude());
    if x.magnitude() > 0 {
        lemma_units_positive(x.magnitude());
    }
    lemma_signed(true, 0);
    lemma_signed(false, 0);
    lemma_signed(x.negative(), x.magnitude());
}

proof fn lemma_dot_unit(a: Seq<Double>, i: int, n: nat)
    requires
        forall|j: int| 0 <= j < a.len() ==> (#[trigger] a[j]).is_finite(),
        0 <= i < a.len(),
        n <= a.len(),
    ensures
        dot(a, unit(a.len(), i), n).is_finite(),
        dot(a, unit(a.len(), i), n).key() == if i < n {
            a[i].key()
        } else {
            0
        },
    decreases n,
{
    if n > 0 {
        lemma_dot_unit(a, i, (n - 1) as nat);
        let x = a[n - 1];
        let before = dot(a, unit(a.len(), i), (n - 1) as nat);
        if n - 1 == i {
            lemma_times_one(x);
            lemma_plus_zero(x, before);
        } else {
            lemma_times_zero(x);
            lemma_plus_zero(before, product_of(x, double_of_int(0)));
        }
    }
}

/// Every component of a vector counts: the dot product with the unit vector of a place is
/// the component at that place.
pub proof fn law_dot_unit(a: Seq<Double>, i: int)
    requires
        forall|j: int| 0 <= j < a.len() ==> (#[trigger] a[j]).is_finite(),
        0 <= i < a.len(),
    ensures
        dot(a, unit(a.len(), i), a.len()).is_equal(a[i]),
{
    lemma_dot_unit(a, i, a.len());
}

proof fn lemma_root_one(x: Double)
    requires
        x.is_finite(),
        x.key() == ONE,
    ensures
        root_of(x) == double_of_int(1),
{
    lemma_one();
    law_root_of_square(ONE as nat, ONE as nat);
}

proof fn lemma_unit_norm(n: nat, i: int)
    requires
        0 <= i < n,
    ensures
        norm(unit(n, i)) == double_of_int(1),
{
    lemma_one();
    lemma_zero_double();
    let u = unit(n, i);
    assert forall|j: int| 0 <= j < u.len() implies (#[trigger] u[j]).is_finite() by {}
    lemma_dot_unit(u, i, n);
    lemma_root_one(dot(u, u, n));
}

/// One divided into a number leaves the number.
proof fn lemma_over_one(x: Double)
    requires
        x.is_finite(),
    ensures
        quotient_of(x, double_of_int(1)) == x,
{
    lemma_one();
    lemma_pow2_pos(1074);
    let m = x.magnitude();
    lemma_nearest_scaled(units(m), 1, one());
    assert(1 * one() == one());
    law_nearest_exact(m);
}

/// The unit vectors of two places are fully similar where the places are the same, and not
/// at all where they differ.
pub proof fn law_cosine_of_units(n: nat, i: int, j: int)
    requires
        0 <= i < n,
        0 <= j < n,
    ensures
        cosine(unit(n, i), unit(n, j)).is_equal(
            double_of_int(
                if i == j {
                    1
                } else {
                    0
                },
            ),
        ),
{
    lemma_one();
    lemma_zero_double();
    let a = unit(n, i);
    let b = unit(n, j);
    lemma_unit_norm(n, i);
    lemma_unit_norm(n, j);
    assert forall|k: int| 0 <= k < a.len() implies (#[trigger] a[k]).is_finite() by {}
    lemma_dot_unit(a, j, n);
    lemma_times_one(double_of_int(1));
    lemma_over_one(dot(a, b, n));
}

/// The similarity of a vector with the unit vector of a place is the component at that
/// place, divided by the vector's length.
pub proof fn law_cosine_with_unit(a: Seq<Double>, i: int)
    requires
        forall|j: int| 0 <= j < a.len() ==> (#[trigger] a[j]).is_finite(),
        0 <= i < a.len(),
        norm(a).is_finite(),
        zero().is_less(norm(a)),
    ensures
        cosine(a, unit(a.len(), i)).is_equal(quotient_of(a[i], norm(a))) || quotient_of(
            a[i],
            norm(a),
        ).is_nan(),
{
    lemma_one();
    lemma_dot_unit(a, i, a.len());
    lemma_unit_norm(a.len(), i);
    lemma_times_one(norm(a));
    let d = dot(a, unit(a.len(), i), a.len());
    let n = norm(a);
    lemma_zero_units();
    lemma_nearest_bound(units(d.magnitude()) * one(), units(n.magnitude()));
    let m = nearest(units(d.magnitude()) * one(), units(n.magnitude()));
    lemma_signed(true, m);
    lemma_signed(false, m);
    if d.magnitude() == 0 {
        lemma_units_positive(n.magnitude());
        assert(0 * one() == 0) by (nonlinear_arith);
        lemma_nearest_zero(units(n.magnitude()));
    }
}

// ---------------------------------------------------------------------------
// Distance
// ---------------------------------------------------------------------------

proof fn lemma_difference_size(x: Double, y: Double)
    ensures
        is_negated(difference(x, y), difference(y, x)),
{
    lemma_opposite(x);
    lemma_opposite(y);
    lemma_sum_turns(x, opposite(y), opposite(x), y);
    lemma_sum_commutes(y, opposite(x));
}

proof fn lemma_sum_commutes(x: Double, y: Double)
    ensures
        sum_of(x, y) == sum_of(y, x),
{
}

proof fn lemma_negated_square(x: Double, y: Double)
    requires
        is_negated(x, y),
    ensures
        product_of(x, x) == product_of(y, y),
{
}

proof fn lemma_distance_commutes(a: Seq<Double>, b: Seq<Double>, n: nat)
    ensures
        squared_distance(a, b, n) == squared_distance(b, a, n),
    decreases n,
{
    if n > 0 {
        lemma_distance_commutes(a, b, (n - 1) as nat);
        lemma_difference_size(a[n - 1], b[n - 1]);
        lemma_negated_square(difference(a[n - 1], b[n - 1]), difference(b[n - 1], a[n - 1]));
    }
}

/// Two vectors are as close one way round as the other, to the last bit.
pub proof fn law_closeness_symmetric(a: Seq<Double>, b: Seq<Double>)
    ensures
        closeness(a, b) == closeness(b, a),
{
    lemma_distance_commutes(a, b, a.len());
}

proof fn lemma_distance_none(a: Seq<Double>, n: nat)
    requires
        n <= a.len(),
        forall|j: int| 0 <= j < a.len() ==> (#[trigger] a[j]).is_finite(),
    ensures
        squared_distance(a, a, n).is_finite(),
        squared_distance(a, a, n).key() == 0,
    decreases n,
{
    if n > 0 {
        lemma_distance_none(a, (n - 1) as nat);
        let x = a[n - 1];
        lemma_opposite(x);
        let d = difference(x, x);
        lemma_zero_units();
        lemma_signed(true, 0);
        lemma_signed(false, 0);
        assert(d.magnitude() == 0);
        assert(0 * 0 == 0int);
        lemma_pow2_pos(1074);
        lemma_nearest_zero(one());
        lemma_plus_zero(squared_distance(a, a, (n - 1) as nat), product_of(d, d));
    }
}

/// A vector is fully close to itself.
pub proof fn law_closeness_of_same(a: Seq<Double>)
    requires
        a.len() > 0,
        forall|j: int| 0 <= j < a.len() ==> (#[trigger] a[j]).is_finite(),
    ensures
        closeness(a, a) == double_of_int(1),
{
    lemma_one();
    lemma_distance_none(a, a.len());
    let d = squared_distance(a, a, a.len());
    lemma_plus_zero(double_of_int(1), root_of(d));
    let s = sum_of(double_of_int(1), root_of(d));
    assert(s.key() == ONE);
    assert(s == double_of_int(1));
    lemma_over_one(double_of_int(1));
}

proof fn lemma_distance_unit(n: nat, i: int, k: nat)
    requires
        0 <= i < n,
        k <= n,
    ensures
        ({
            let d = squared_distance(unit(n, i), unit(n, n as int), k);
            d.is_finite() && d.key() == if i < k {
                ONE as int
            } else {
                0
            }
        }),
    decreases k,
{
    lemma_one();
    lemma_zero_double();
    if k > 0 {
        lemma_distance_unit(n, i, (k - 1) as nat);
        let before = squared_distance(unit(n, i), unit(n, n as int), (k - 1) as nat);
        let x = unit(n, i)[k - 1];
        lemma_opposite(zero());
        let d = difference(x, zero());
        lemma_plus_zero(x, opposite(zero()));
        lemma_zero_units();
        if k - 1 == i {
            assert(d == double_of_int(1));
            lemma_times_one(double_of_int(1));
            lemma_plus_zero(double_of_int(1), before);
        } else {
            assert(d.magnitude() == 0);
            assert(0 * 0 == 0int);
            lemma_pow2_pos(1074);
            lemma_nearest_zero(one());
            lemma_signed(false, 0);
            lemma_plus_zero(before, product_of(d, d));
        }
    }
}

/// A step of one away from the zero vector, in whichever direction, gives a closeness of
/// one half: one over one plus one.
pub proof fn law_closeness_of_unit(n: nat, i: int)
    requires
        0 <= i < n,
    ensures
        closeness(unit(n, i), unit(n, n as int)) == quotient_of(
            double_of_int(1),
            sum_of(double_of_int(1), double_of_int(1)),
        ),
{
    lemma_one();
    lemma_distance_unit(n, i, n);
    let d = squared_distance(unit(n, i), unit(n, n as int), n);
    lemma_root_one(d);
}

// ---------------------------------------------------------------------------
// Vectors of whole numbers
// ---------------------------------------------------------------------------

/// A double whose value is the whole number `n`.
pub open spec fn is_int(x: Double, n: int) -> bool {
    x.is_finite() && x.signed_units() == n * one()
}

/// A whole number below 2^53 in size.
pub open spec fn is_small(n: int) -> bool {
    -MANTISSA_LIMIT < n < MANTISSA_LIMIT
}

proof fn lemma_int_sign(x: Double, n: int)
    requires
        is_int(x, n),
    ensures
        units(x.magnitude()) == if n < 0 {
            -n * one()
        } else {
            n * one()
        },
        n != 0 ==> x.negative() == (n < 0),
        n == 0 <==> x.magnitude() == 0,
{
    lemma_pow2_pos(1074);
    lemma_zero_units();
    assert(n * one() < 0 <==> n < 0) by (nonlinear_arith)
        requires
            one() > 0,
    ;
    assert(n * one() == 0 <==> n == 0) by (nonlinear_arith)
        requires
            one() > 0,
    ;
    assert(-n * one() == -(n * one())) by (nonlinear_arith);
    if x.magnitude() > 0 {
        lemma_units_positive(x.magnitude());
    }
}

proof fn lemma_int_of(n: int)
    requires
        is_small(n),
    ensures
        is_int(double_of_int(n), n),
{
    law_whole_number(n);
}

/// The magnitude of a whole number.
proof fn lemma_int_nearest(n: nat)
    requires
        is_small(n as int),
    ensures
        nearest(n * one(), 1) < INFINITE,
        units(nearest(n * one(), 1)) == n * one(),
{
    law_whole_number(n as int);
    lemma_int_sign(double_of_int(n as int), n as int);
}

proof fn lemma_int_sum(x: Double, y: Double, a: int, b: int)
    requires
        is_int(x, a),
        is_int(y, b),
        is_small(a + b),
    ensures
        is_int(sum_of(x, y), a + b),
{
    lemma_pow2_pos(1074);
    lemma_zero_units();
    let c = a + b;
    let s = x.signed_units() + y.signed_units();
    assert(s == c * one()) by (nonlinear_arith)
        requires
            s == a * one() + b * one(),
            c == a + b,
    ;
    assert(c * one() < 0 <==> c < 0) by (nonlinear_arith)
        requires
            one() > 0,
    ;
    let n = if c < 0 {
        (-c) as nat
    } else {
        c as nat
    };
    assert(-c * one() == -(c * one())) by (nonlinear_arith);
    lemma_int_nearest(n);
    lemma_signed(c < 0, nearest(n * one(), 1));
    lemma_signed(true, 0);
    lemma_signed(false, 0);
}

proof fn lemma_int_difference(x: Double, y: Double, a: int, b: int)
    requires
        is_int(x, a),
        is_int(y, b),
        is_small(a - b),
    ensures
        is_int(difference(x, y), a - b),
{
    lemma_opposite(y);
    assert(-b * one() == -(b * one())) by (nonlinear_arith);
    assert(is_int(opposite(y), -b));
    lemma_int_sum(x, opposite(y), a, -b);
}

proof fn lemma_int_product(x: Double, y: Double, a: int, b: int)
    requires
        is_int(x, a),
        is_int(y, b),
        is_small(a * b),
    ensures
        is_int(product_of(x, y), a * b),
{
    lemma_pow2_pos(1074);
    lemma_zero_units();
    lemma_int_sign(x, a);
    lemma_int_sign(y, b);
    let m = if a < 0 {
        (-a) as nat
    } else {
        a as nat
    };
    let n = if b < 0 {
        (-b) as nat
    } else {
        b as nat
    };
    let c = a * b;
    let k = m * n;
    assert(k == c || k == -c) by (nonlinear_arith)
        requires
            k == m * n,
            c == a * b,
            m == a || m == -a,
            n == b || n == -b,
    ;
    assert(c < 0 ==> (a < 0) != (b < 0)) by (nonlinear_arith)
        requires
            c == a * b,
    ;
    assert(c > 0 ==> (a < 0) == (b < 0) && a != 0 && b != 0) by (nonlinear_arith)
        requires
            c == a * b,
    ;
    assert(c < 0 ==> a != 0 && b != 0) by (nonlinear_arith)
        requires
            c == a * b,
    ;
    assert((m * one()) * (n * one()) == (k * one()) * one()) by (nonlinear_arith)
        requires
            k == m * n,
    ;
    assert(1 * one() == one());
    lemma_nearest_scaled(k * one(), 1, one());
    lemma_int_nearest(k);
    let negative = x.negative() != y.negative();
    lemma_signed(negative, nearest(k * one(), 1));
    assert(-c * one() == -(c * one())) by (nonlinear_arith);
    assert(c == 0 ==> k * one() == 0) by (nonlinear_arith)
        requires
            k == c || k == -c,
    ;
}

proof fn lemma_int_root(x: Double, p: int)
    requires
        is_int(x, p * p),
        is_small(p * p),
        0 <= p,
    ensures
        is_int(root_of(x), p),
{
    lemma_int_sign(x, p * p);
    assert(p * p >= 0) by (nonlinear_arith);
    assert(p * p == 0 <==> p == 0) by (nonlinear_arith);
    lemma_zero_units();
    if p == 0 {
        assert(0 * one() == 0) by (nonlinear_arith);
    } else {
        assert(p <= p * p) by (nonlinear_arith)
            requires
                p > 0,
        ;
        let d = double_of_int(p);
        lemma_int_of(p);
        lemma_int_sign(d, p);
        assert((p * one()) * (p * one()) == ((p * p) * one()) * one()) by (nonlinear_arith);
        law_root_of_square(d.magnitude(), x.magnitude());
        lemma_signed(false, d.magnitude());
    }
}

/// A quotient depends on the values of its numbers alone, but for the sign of a zero.
proof fn lemma_int_quotient(x: Double, y: Double, a: int, b: int)
    requires
        is_int(x, a),
        is_int(y, b),
        is_small(a),
        is_small(b),
        b > 0,
    ensures
        quotient_of(x, y).is_equal(quotient_of(double_of_int(a), double_of_int(b))),
{
    lemma_pow2_pos(1074);
    lemma_int_sign(x, a);
    lemma_int_sign(y, b);
    lemma_int_of(a);
    lemma_int_of(b);
    lemma_int_sign(double_of_int(a), a);
    lemma_int_sign(double_of_int(b), b);
    let d = units(y.magnitude());
    lemma_zero_units();
    lemma_units_positive(y.magnitude());
    let m = nearest(units(x.magnitude()) * one(), d);
    lemma_nearest_bound(units(x.magnitude()) * one(), d);
    lemma_signed(true, m);
    lemma_signed(false, m);
    if a == 0 {
        assert(0 * one() == 0) by (nonlinear_arith);
        lemma_nearest_zero(d);
    }
}

/// The sum of the products of the first `n` numbers of two rows.
pub open spec fn products(a: Seq<int>, b: Seq<int>, n: nat) -> int
    decreases n,
{
    if n == 0 {
        0
    } else {
        products(a, b, (n - 1) as nat) + a[n - 1] * b[n - 1]
    }
}

/// The sum of the squares of the first `n` differences of two rows of numbers.
pub open spec fn squares(a: Seq<int>, b: Seq<int>, n: nat) -> int
    decreases n,
{
    if n == 0 {
        0
    } else {
        squares(a, b, (n - 1) as nat) + (a[n - 1] - b[n - 1]) * (a[n - 1] - b[n - 1])
    }
}

/// Doubles with the values of whole numbers.
pub open spec fn are_ints(v: Seq<Double>, n: Seq<int>) -> bool {
    &&& v.len() == n.len()
    &&& forall|i: int| 0 <= i < v.len() ==> is_int(#[trigger] v[i], n[i])
}

/// All products of two rows of numbers, and the sums of them from the first on, are small.
pub open spec fn products_fit(a: Seq<int>, b: Seq<int>) -> bool {
    &&& forall|i: int| 0 <= i < a.len() ==> is_small(#[trigger] a[i] * b[i])
    &&& forall|i: nat| i <= a.len() ==> is_small(#[trigger] products(a, b, i))
}

/// All differences of two rows of numbers, their squares, and the sums of these from the
/// first on, are small.
pub open spec fn squares_fit(a: Seq<int>, b: Seq<int>) -> bool {
    &&& forall|i: int|
        0 <= i < a.len() ==> is_small(#[trigger] a[i] - b[i]) && is_small(
            (a[i] - b[i]) * (a[i] - b[i]),
        )
    &&& forall|i: nat| i <= a.len() ==> is_small(#[trigger] squares(a, b, i))
}

proof fn lemma_int_dot(v: Seq<Double>, w: Seq<Double>, a: Seq<int>, b: Seq<int>, n: nat)
    requires
        are_ints(v, a),
        are_ints(w, b),
        v.len() == w.len(),
        products_fit(a, b),
        n <= v.len(),
    ensures
        is_int(dot(v, w, n), products(a, b, n)),
    decreases n,
{
    if n == 0 {
        lemma_zero_units();
        assert(0 * one() == 0) by (nonlinear_arith);
    } else {
        lemma_int_dot(v, w, a, b, (n - 1) as nat);
        let k = n - 1;
        assert(is_small(a[k] * b[k]));
        lemma_int_product(v[k], w[k], a[k], b[k]);
        assert(is_small(products(a, b, n)));
        lemma_int_sum(
            dot(v, w, k as nat),
            product_of(v[k], w[k]),
            products(a, b, k as nat),
            a[k] * b[k],
        );
    }
}

/// The dot product of vectors of whole numbers is the sum of the products of their
/// components.
pub proof fn law_dot_product(v: Seq<Double>, w: Seq<Double>, a: Seq<int>, b: Seq<int>)
    requires
        are_ints(v, a),
        are_ints(w, b),
        v.len() == w.len(),
        products_fit(a, b),
    ensures
        is_int(dot(v, w, v.len()), products(a, b, v.len())),
{
    lemma_int_dot(v, w, a, b, v.len());
}

/// The similarity of two vectors of whole numbers, of the lengths `p` and `q`, is the sum of
/// the products of their components, divided by the product of their lengths.
pub proof fn law_cosine_of_whole_numbers(
    v: Seq<Double>,
    w: Seq<Double>,
    a: Seq<int>,
    b: Seq<int>,
    p: int,
    q: int,
)
    requires
        v.len() > 0,
        v.len() == w.len(),
        are_ints(v, a),
        are_ints(w, b),
        products_fit(a, b),
        products_fit(a, a),
        products_fit(b, b),
        products(a, a, a.len()) == p * p,
        products(b, b, b.len()) == q * q,
        p > 0,
        q > 0,
        is_small(p * q),
    ensures
        cosine(v, w).is_equal(
            quotient_of(double_of_int(products(a, b, a.len())), double_of_int(p * q)),
        ),
{
    let n = v.len();
    lemma_int_dot(v, w, a, b, n);
    lemma_int_dot(v, v, a, a, n);
    lemma_int_dot(w, w, b, b, n);
    assert(is_small(products(a, a, n)));
    assert(is_small(products(b, b, n)));
    assert(is_small(products(a, b, n)));
    lemma_int_root(dot(v, v, n), p);
    lemma_int_root(dot(w, w, n), q);
    lemma_int_sign(norm(v), p);
    lemma_int_sign(norm(w), q);
    lemma_int_product(norm(v), norm(w), p, q);
    assert(p * q > 0) by (nonlinear_arith)
        requires
            p > 0,
            q > 0,
    ;
    lemma_int_quotient(dot(v, w, n), product_of(norm(v), norm(w)), products(a, b, n), p * q);
}

proof fn lemma_int_distance(v: Seq<Double>, w: Seq<Double>, a: Seq<int>, b: Seq<int>, n: nat)
    requires
        are_ints(v, a),
        are_ints(w, b),
        v.len() == w.len(),
        squares_fit(a, b),
        n <= v.len(),
    ensures
        is_int(squared_distance(v, w, n), squares(a, b, n)),
    decreases n,
{
    if n == 0 {
        lemma_zero_units();
        assert(0 * one() == 0) by (nonlinear_arith);
    } else {
        lemma_int_distance(v, w, a, b, (n - 1) as nat);
        let k = n - 1;
        let c = a[k] - b[k];
        assert(is_small(a[k] - b[k]));
        lemma_int_difference(v[k], w[k], a[k], b[k]);
        let d = difference(v[k], w[k]);
        lemma_int_product(d, d, c, c);
        assert(is_small(squares(a, b, n)));
        lemma_int_sum(
            squared_distance(v, w, k as nat),
            product_of(d, d),
            squares(a, b, k as nat),
            c * c,
        );
    }
}

/// The closeness of two vectors of whole numbers that are the distance `p` apart is one,
/// divided by one more than the distance.
pub proof fn law_closeness_of_whole_numbers(
    v: Seq<Double>,
    w: Seq<Double>,
    a: Seq<int>,
    b: Seq<int>,
    p: int,
)
    requires
        v.len() > 0,
        v.len() == w.len(),
        are_ints(v, a),
        are_ints(w, b),
        squares_fit(a, b),
        squares(a, b, a.len()) == p * p,
        p >= 0,
        is_small(1 + p),
    ensures
        closeness(v, w).is_equal(quotient_of(double_of_int(1), double_of_int(1 + p))),
{
    let n = v.len();
    lemma_int_distance(v, w, a, b, n);
    assert(is_small(squares(a, b, n)));
    lemma_int_root(squared_distance(v, w, n), p);
    lemma_int_of(1);
    lemma_int_sum(double_of_int(1), root_of(squared_distance(v, w, n)), 1, p);
    lemma_int_quotient(
        double_of_int(1),
        sum_of(double_of_int(1), root_of(squared_distance(v, w, n))),
        1,
        1 + p,
    );
}

/// Vectors of different lengths, and vectors without components, are not similar at all;
/// nor is any vector similar to one whose length is zero.
pub proof fn law_no_similarity(v: Seq<Double>, w: Seq<Double>)
    ensures
        v.len() != w.len() || v.len() == 0 ==> cosine(v, w) == double_of_int(0) && closeness(v, w)
            == double_of_int(0),
        norm(v).is_equal(double_of_int(0)) || norm(w).is_equal(double_of_int(0)) ==> cosine(v, w)
            == double_of_int(0),
{
    lemma_zero_double();
}

} // verus!
