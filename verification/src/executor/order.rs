//! What comparisons say of the values that are compared.

use vstd::prelude::*;

use crate::double::double_of_int;
use crate::double::law_order_of_doubles;
use crate::double::lemma_nearest;
use crate::double::lemma_nearest_zero;
use crate::double::lemma_units_order;
use crate::double::nearest;
use crate::double::one;
use crate::double::signed;
use crate::double::units;
use crate::double::Double;
use crate::double::INFINITE;
use crate::executor::compare::compared;
use crate::executor::compare::same_datum;
use crate::executor::condition::tolerance;
use crate::executor::condition::Operator;
use crate::executor::condition::TOLERANCE;
use crate::executor::laws::law_join;
use crate::executor::select::joined_row;
use crate::executor::select::joined_values;
use crate::executor::select::joins;
use crate::executor::sort::key_before;
use crate::natural::lemma_pow2_pos;
use crate::natural::lemma_pow2_sum;
use crate::natural::lemma_pow2_values;
use crate::natural::pow2;
use crate::rounding::apart;
use crate::rounding::law_finite_rounds;
use crate::rounding::law_nearest;
use crate::storage::schema::Record;
use crate::text::lemma_text_order;
use crate::text::text_less;
use crate::types::Datum;
use crate::whole::law_whole_number;
use crate::whole::MANTISSA_LIMIT;

verus! {

// ---------------------------------------------------------------------------
// The order of texts
// ---------------------------------------------------------------------------

/// Two texts agree before the place `i`, and there the first has ended or has the smaller
/// code point.
pub open spec fn differ_at(a: Seq<char>, b: Seq<char>, i: int) -> bool {
    &&& 0 <= i < b.len()
    &&& i <= a.len()
    &&& a.take(i) == b.take(i)
    &&& i == a.len() || (a[i] as u32) < (b[i] as u32)
}

/// One text comes before another exactly where, at the first place at which they differ, it
/// has ended or has the smaller code point.
pub proof fn law_text_order(a: Seq<char>, b: Seq<char>)
    ensures
        text_less(a, b) <==> exists|i: int| differ_at(a, b, i),
    decreases a.len(),
{
    if a.len() == 0 {
        if b.len() > 0 {
            assert(a.take(0) =~= b.take(0));
            assert(differ_at(a, b, 0));
        }
    } else if b.len() > 0 {
        let (x, y) = (a.skip(1), b.skip(1));
        law_text_order(x, y);
        if a[0] != b[0] {
            if text_less(a, b) {
                assert(a.take(0) =~= b.take(0));
                assert(differ_at(a, b, 0));
            }
            if exists|i: int| differ_at(a, b, i) {
                let i = choose|i: int| differ_at(a, b, i);
                if i > 0 {
                    assert(a.take(i)[0] == a[0]);
                    assert(b.take(i)[0] == b[0]);
                }
            }
        } else {
            if text_less(a, b) {
                let i = choose|i: int| differ_at(x, y, i);
                assert forall|k: int| 0 <= k < i + 1 implies a[k] == b[k] by {
                    if k > 0 {
                        assert(x.take(i)[k - 1] == a[k]);
                        assert(y.take(i)[k - 1] == b[k]);
                    }
                }
                assert(a.take(i + 1) =~= b.take(i + 1));
                assert(differ_at(a, b, i + 1));
            }
            if exists|i: int| differ_at(a, b, i) {
                let i = choose|i: int| differ_at(a, b, i);
                assert(i > 0);
                assert forall|k: int| 0 <= k < i - 1 implies x[k] == y[k] by {
                    assert(a.take(i)[k + 1] == x[k]);
                    assert(b.take(i)[k + 1] == y[k]);
                }
                assert(x.take(i - 1) =~= y.take(i - 1));
                assert(differ_at(x, y, i - 1));
            }
        }
    }
}

// ---------------------------------------------------------------------------
// Equality
// ---------------------------------------------------------------------------

/// A value that is neither a `FLOAT` nor a vector.
pub open spec fn is_exact(d: Datum) -> bool {
    d is Integer || d is Text || d is Boolean || d is Date || d is Time
}

/// Two numbers with the same value; infinities are the same as themselves.
pub open spec fn same_number(x: Double, y: Double) -> bool {
    if x.is_finite() && y.is_finite() {
        x.signed_units() == y.signed_units()
    } else {
        !x.is_nan() && x == y
    }
}

proof fn lemma_same_number(x: Double, y: Double)
    ensures
        x.is_equal(y) <==> same_number(x, y),
{
    if x.is_finite() && y.is_finite() {
        law_order_of_doubles(x, y);
    }
}

/// Values are the same exactly where they are equal: whole numbers, texts, booleans, dates
/// and times where nothing tells them apart, other numbers where their values are equal,
/// and vectors where their components are, one by one.
pub proof fn law_same_value(a: Datum, b: Datum)
    ensures
        is_exact(a) ==> (same_datum(a, b) <==> a == b),
        is_exact(b) ==> (same_datum(a, b) <==> a == b),
        a is Float ==> (same_datum(a, b) <==> b is Float && same_number(a->Float_0, b->Float_0)),
        a is Vector ==> (same_datum(a, b) <==> b is Vector && a->Vector_0.len()
            == b->Vector_0.len() && forall|i: int|
            0 <= i < a->Vector_0.len() ==> same_number(
                #[trigger] a->Vector_0[i],
                b->Vector_0[i],
            )),
        same_datum(a, b) == same_datum(b, a),
{
    match (a, b) {
        (Datum::Float(x), Datum::Float(y)) => {
            lemma_same_number(x, y);
        },
        (Datum::Vector(x), Datum::Vector(y)) => {
            assert forall|i: int| x[i].is_equal(y[i]) == same_number(#[trigger] x[i], y[i]) by {
                lemma_same_number(x[i], y[i]);
            }
            if x.len() == y.len() {
                assert forall|i: int| 0 <= i < x.len() && same_datum(a, b) implies (
                #[trigger] y[i]).is_equal(x[i]) by {
                    assert(x[i].is_equal(y[i]));
                }
                assert forall|i: int| 0 <= i < x.len() && same_datum(b, a) implies (
                #[trigger] x[i]).is_equal(y[i]) by {
                    assert(y[i].is_equal(x[i]));
                }
            }
        },
        _ => {},
    }
}

/// A join on a column that holds whole numbers, texts, booleans, dates or times gives the
/// values of exactly the pairs of rows whose values in the two columns are equal.
pub proof fn law_join_on_equal(
    left: Seq<Record>,
    right: Seq<Record>,
    li: int,
    ri: int,
    v: Seq<Datum>,
)
    requires
        forall|i: int|
            0 <= i < left.len() ==> 0 <= li < (#[trigger] left[i]).values.len() && is_exact(
                left[i].values[li],
            ),
        forall|j: int| 0 <= j < right.len() ==> 0 <= ri < (#[trigger] right[j]).values.len(),
    ensures
        joined_values(left, right, li, ri).contains(v) <==> exists|i: int, j: int|
            0 <= i < left.len() && 0 <= j < right.len() && (#[trigger] left[i]).values[li] == (
            #[trigger] right[j]).values[ri] && v == left[i].values + right[j].values,
{
    law_join(left, right, li, ri, v);
    assert forall|i: int, j: int| 0 <= i < left.len() && 0 <= j < right.len() implies joins(
        #[trigger] left[i],
        #[trigger] right[j],
        li,
        ri,
    ) == (left[i].values[li] == right[j].values[ri]) by {
        law_same_value(left[i].values[li], right[j].values[ri]);
    }
}

/// A join takes its left rows in turn, and for each of them the right rows in turn: each
/// pair of rows whose values in the two columns are equal is there once, in this order.
pub proof fn law_join_in_turn(
    l: Record,
    left: Seq<Record>,
    r: Record,
    right: Seq<Record>,
    li: int,
    ri: int,
)
    requires
        0 <= li < l.values.len(),
        0 <= ri < r.values.len(),
        is_exact(l.values[li]),
    ensures
        joined_values(left.push(l), right, li, ri) == joined_values(left, right, li, ri)
            + joined_values(seq![l], right, li, ri),
        joined_values(seq![l], right.push(r), li, ri) == if l.values[li] == r.values[ri] {
            joined_values(seq![l], right, li, ri).push(l.values + r.values)
        } else {
            joined_values(seq![l], right, li, ri)
        },
        joined_values(seq![l], Seq::empty(), li, ri).len() == 0,
        joined_values(Seq::empty(), right, li, ri).len() == 0,
{
    law_same_value(l.values[li], r.values[ri]);
    lemma_join_one(l, right, li, ri);
    lemma_join_one(l, right.push(r), li, ri);
    lemma_join_one(l, Seq::empty(), li, ri);
    assert(left.push(l).drop_last() =~= left);
    assert(right.push(r).drop_last() =~= right);
}

proof fn lemma_join_one(l: Record, right: Seq<Record>, li: int, ri: int)
    ensures
        joined_values(seq![l], right, li, ri) == joined_row(l, right, li, ri),
{
    reveal_with_fuel(joined_values, 2);
    assert(seq![l].drop_last() =~= Seq::<Record>::empty());
    assert(joined_values(seq![l], right, li, ri) =~= joined_row(l, right, li, ri));
}

// ---------------------------------------------------------------------------
// The operators
// ---------------------------------------------------------------------------

/// Between numbers the operators mean what they mean in arithmetic. Equality allows for a
/// small gap, and inequality holds exactly where it does not.
pub proof fn law_operators_of_numbers(a: Double, b: Double)
    requires
        a.is_finite(),
        b.is_finite(),
    ensures
        Operator::Less.holds_of(a, b) <==> a.signed_units() < b.signed_units(),
        Operator::Greater.holds_of(a, b) <==> a.signed_units() > b.signed_units(),
        Operator::LessEqual.holds_of(a, b) <==> a.signed_units() <= b.signed_units(),
        Operator::GreaterEqual.holds_of(a, b) <==> a.signed_units() >= b.signed_units(),
        a.signed_units() == b.signed_units() ==> Operator::Equal.holds_of(a, b),
        Operator::Equal.holds_of(a, b) <==> !Operator::NotEqual.holds_of(a, b),
{
    law_order_of_doubles(a, b);
    law_order_of_doubles(b, a);
    lemma_gap(a, b);
}

proof fn lemma_gap(a: Double, b: Double)
    requires
        a.is_finite(),
        b.is_finite(),
    ensures
        !crate::types::difference(a, b).is_nan(),
        a.signed_units() == b.signed_units() ==> crate::types::difference(a, b).magnitude() == 0,
{
    let c = signed(!b.negative(), b.magnitude());
    assert(c.signed_units() == -b.signed_units());
    let s = a.signed_units() - b.signed_units();
    assert(nearest(s as nat, 1) <= crate::double::INFINITE);
    assert(nearest((-s) as nat, 1) <= crate::double::INFINITE);
}

/// The gap within which numbers count as equal is the double nearest to 10^-10.
pub proof fn law_tolerance()
    ensures
        tolerance().magnitude() == nearest(one(), 10_000_000_000),
        !tolerance().negative(),
        0 < tolerance().magnitude() < INFINITE,
{
    let m = TOLERANCE as nat;
    let k: nat = 988;
    let p = pow2(k);
    lemma_pow2_values();
    lemma_pow2_pos(k);
    lemma_pow2_sum(64, 22);
    lemma_pow2_sum(16, 6);
    reveal_with_fuel(pow2, 7);
    lemma_pow2_sum(86, k);
    assert(pow2(86) == 0x40_0000_0000_0000_0000_0000);
    let q: nat = 0x1B_7CDF_D9D7_BDBA;
    let d: nat = 10_000_000_000;
    let step = d * p;
    let r: nat = 7_181_195_264 * p;
    assert(one() == q * step + r) by (nonlinear_arith)
        requires
            one() == 0x40_0000_0000_0000_0000_0000 * p,
            q == 0x1B_7CDF_D9D7_BDBAnat,
            step == d * p,
            r == 7_181_195_264 * p,
            d == 10_000_000_000nat,
    ;
    assert(r < step && 2 * r > step) by (nonlinear_arith)
        requires
            step == d * p,
            r == 7_181_195_264 * p,
            d == 10_000_000_000nat,
            p > 0,
    ;
    lemma_pow2_sum(k, 52);
    lemma_pow2_sum(k, 53);
    assert(d * pow2((k + 52) as nat) <= one() < d * pow2((k + 53) as nat)) by (nonlinear_arith)
        requires
            one() == 0x40_0000_0000_0000_0000_0000 * p,
            pow2((k + 52) as nat) == p * 0x10_0000_0000_0000,
            pow2((k + 53) as nat) == p * 0x20_0000_0000_0000,
            d == 10_000_000_000nat,
            p > 0,
    ;
    lemma_nearest(one(), d, k, q, r);
}

/// Numbers are equal for an operator where they are less than the tolerance apart: if they
/// are equal, their exact gap is below it, and if their gap is at most that of the next
/// smaller double, they are equal.
pub proof fn law_equal_within(a: Double, b: Double)
    requires
        a.is_finite(),
        b.is_finite(),
    ensures
        Operator::Equal.holds_of(a, b) ==> apart(a.signed_units(), b.signed_units()) < units(
            tolerance().magnitude(),
        ),
        apart(a.signed_units(), b.signed_units()) <= units((tolerance().magnitude() - 1) as nat)
            ==> Operator::Equal.holds_of(a, b),
{
    law_tolerance();
    let t = tolerance().magnitude();
    let s = apart(a.signed_units(), b.signed_units()) as nat;
    let c = signed(!b.negative(), b.magnitude());
    assert(c.signed_units() == -b.signed_units());
    let d = crate::types::difference(a, b);
    let w = nearest(s, 1);
    if s == 0 {
        lemma_nearest_zero(1);
    }
    assert(w <= INFINITE);
    assert(d.magnitude() == w);
    let gap = signed(false, w);
    assert(gap.magnitude() == w);
    assert(Operator::Equal.holds_of(a, b) <==> w < t);
    let u = (t - 1) as nat;
    lemma_units_order(u, t);
    if w < t {
        law_nearest(s, 1, t);
        lemma_units_order(w, t);
    } else if s <= units(u) {
        if w < INFINITE {
            law_nearest(s, 1, u);
            lemma_units_order(t, w);
        } else {
            law_finite_rounds(s, u);
        }
    }
}

/// Between numbers that are not NaN, infinities among them, the operators go together: what
/// is less is not greater or equal, and the other way round.
pub proof fn law_operators_turn(a: Double, b: Double)
    requires
        !a.is_nan(),
        !b.is_nan(),
    ensures
        Operator::Greater.holds_of(a, b) <==> Operator::Less.holds_of(b, a),
        Operator::GreaterEqual.holds_of(a, b) <==> !Operator::Less.holds_of(a, b),
        Operator::LessEqual.holds_of(a, b) <==> !Operator::Greater.holds_of(a, b),
        !(Operator::Less.holds_of(a, b) && Operator::Greater.holds_of(a, b)),
{
}

/// `a` is less than `b`: as a number, as a text by code points, or as false before true.
pub open spec fn in_order(a: Datum, b: Datum) -> bool {
    match (a, b) {
        (Datum::Integer(x), Datum::Integer(y)) => x < y,
        (Datum::Boolean(x), Datum::Boolean(y)) => !x && y,
        (Datum::Integer(x), Datum::Boolean(y)) => x < 0 || (x == 0 && y),
        (Datum::Boolean(x), Datum::Integer(y)) => y > 1 || (y == 1 && !x),
        (Datum::Float(x), Datum::Float(y)) => x.signed_units() < y.signed_units(),
        (Datum::Integer(x), Datum::Float(y)) => x * one() < y.signed_units(),
        (Datum::Float(x), Datum::Integer(y)) => x.signed_units() < y * one(),
        _ => exists|i: int| differ_at(written(a), written(b), i),
    }
}

/// The text of a value that is compared as a text.
pub open spec fn written(d: Datum) -> Seq<char> {
    match d {
        Datum::Text(x) => x,
        Datum::Date(x) => x,
        Datum::Time(x) => x,
        Datum::Boolean(true) => "true"@,
        Datum::Boolean(false) => "false"@,
        _ => Seq::empty(),
    }
}

/// A number, where it is whole small enough for a double to hold it, or finite.
pub open spec fn is_number(d: Datum) -> bool {
    match d {
        Datum::Integer(x) => -MANTISSA_LIMIT < x < MANTISSA_LIMIT,
        Datum::Float(x) => x.is_finite(),
        _ => false,
    }
}

/// Two values that have an order between them.
pub open spec fn comparable(a: Datum, b: Datum) -> bool {
    ||| a is Integer && b is Integer
    ||| is_number(a) && is_number(b)
    ||| (a is Integer || a is Boolean) && (b is Integer || b is Boolean)
    ||| a is Text && (b is Text || b is Date || b is Time || b is Boolean)
    ||| b is Text && (a is Date || a is Time || a is Boolean)
    ||| a is Date && b is Date
    ||| a is Time && b is Time
}

/// In a condition the operators mean what they say: less is less, greater is less the other
/// way round, equal is neither, and the others are the opposites of these.
pub proof fn law_operators_of_values(a: Datum, b: Datum)
    requires
        comparable(a, b),
    ensures
        Operator::Less.holds(compared(a, b)) <==> in_order(a, b),
        Operator::Greater.holds(compared(a, b)) <==> in_order(b, a),
        Operator::LessEqual.holds(compared(a, b)) <==> !in_order(b, a),
        Operator::GreaterEqual.holds(compared(a, b)) <==> !in_order(a, b),
        Operator::Equal.holds(compared(a, b)) <==> !in_order(a, b) && !in_order(b, a),
        Operator::NotEqual.holds(compared(a, b)) <==> in_order(a, b) || in_order(b, a),
        !(in_order(a, b) && in_order(b, a)),
{
    match (a, b) {
        (Datum::Float(x), Datum::Float(y)) => {
            law_order_of_doubles(x, y);
            law_order_of_doubles(y, x);
        },
        (Datum::Integer(x), Datum::Float(y)) => {
            law_whole_number(x as int);
            law_order_of_doubles(double_of_int(x as int), y);
            law_order_of_doubles(y, double_of_int(x as int));
        },
        (Datum::Float(x), Datum::Integer(y)) => {
            law_whole_number(y as int);
            law_order_of_doubles(x, double_of_int(y as int));
            law_order_of_doubles(double_of_int(y as int), x);
        },
        _ => {
            let (x, y) = (written(a), written(b));
            law_text_order(x, y);
            law_text_order(y, x);
            lemma_text_order(x, y);
        },
    }
}

/// Values of one plain type that are neither less nor greater are the same.
pub proof fn law_equal_values(a: Datum, b: Datum)
    requires
        is_exact(a),
        is_exact(b),
        a is Integer <==> b is Integer,
        a is Text <==> b is Text,
        a is Boolean <==> b is Boolean,
        a is Date <==> b is Date,
        a is Time <==> b is Time,
    ensures
        Operator::Equal.holds(compared(a, b)) <==> a == b,
        Operator::NotEqual.holds(compared(a, b)) <==> a != b,
{
    lemma_text_order(written(a), written(b));
    lemma_text_order(written(b), written(a));
}

/// Values with no order between them are neither less, greater, equal nor unequal.
pub proof fn law_unordered(a: Datum, b: Datum)
    requires
        a is Vector || b is Vector || (a is Date && b is Time) || (a is Time && b is Date) || ((
        a is Integer || a is Float) && (b is Text || b is Date || b is Time)) || ((b is Integer
            || b is Float) && (a is Text || a is Date || a is Time)),
    ensures
        compared(a, b) is None,
        !Operator::Less.holds(compared(a, b)),
        !Operator::Greater.holds(compared(a, b)),
        !Operator::Equal.holds(compared(a, b)),
        !Operator::NotEqual.holds(compared(a, b)),
{
}

// ---------------------------------------------------------------------------
// The order of a sort
// ---------------------------------------------------------------------------

/// In an ascending sort the lesser of two values comes first, in a descending one the
/// greater.
pub proof fn law_sort_direction(a: Datum, b: Datum)
    requires
        comparable(a, b),
    ensures
        key_before(Some(a), Some(b), false) <==> in_order(a, b),
        key_before(Some(a), Some(b), true) <==> in_order(b, a),
{
    law_operators_of_values(a, b);
    law_operators_of_values(b, a);
}

// ---------------------------------------------------------------------------
// Infinities and what is not a number
// ---------------------------------------------------------------------------

/// No operator holds between two doubles of which one is not a number; as values such doubles
/// are neither less nor greater than any other.
pub proof fn law_not_a_number(op: Operator, a: Double, b: Double)
    requires
        a.is_nan() || b.is_nan(),
    ensures
        !op.holds_of(a, b),
        !Operator::Less.holds(compared(Datum::Float(a), Datum::Float(b))),
        !Operator::Greater.holds(compared(Datum::Float(a), Datum::Float(b))),
        !same_datum(Datum::Float(a), Datum::Float(b)),
{
    let d = crate::types::difference(a, b);
    assert(d.is_nan());
    assert(signed(false, d.magnitude()).is_nan());
}

/// Infinity is greater than every finite number, and negative infinity less.
pub proof fn law_infinity(a: Double, b: Double)
    requires
        a.is_infinite(),
        b.is_finite(),
    ensures
        Operator::Greater.holds_of(a, b) <==> !a.negative(),
        Operator::Less.holds_of(a, b) <==> a.negative(),
        Operator::Greater.holds(compared(Datum::Float(a), Datum::Float(b))) <==> !a.negative(),
        Operator::Less.holds(compared(Datum::Float(a), Datum::Float(b))) <==> a.negative(),
        Operator::Less.holds(compared(Datum::Float(b), Datum::Float(a))) <==> !a.negative(),
        !Operator::Equal.holds_of(a, b),
        Operator::NotEqual.holds_of(a, b),
{
    law_tolerance();
    let d = crate::types::difference(a, b);
    assert(d == a);
}

} // verus!
