//! What holds of aggregates.

use vstd::prelude::*;

use crate::decimal::show_double;
use crate::double::double_of_int;
use crate::double::law_nearest_exact;
use crate::double::law_order_of_doubles;
use crate::double::lemma_nearest_scaled;
use crate::double::lemma_nearest_zero;
use crate::double::lemma_units_positive;
use crate::double::nearest;
use crate::double::one;
use crate::double::quotient_of;
use crate::double::sum_of;
use crate::double::units;
use crate::double::Double;
use crate::double::INFINITE;
use crate::executor::aggregate::aggregate;
use crate::executor::aggregate::aggregate_text;
use crate::executor::aggregate::greatest;
use crate::executor::aggregate::least;
use crate::executor::aggregate::numbers;
use crate::executor::aggregate::total;
use crate::executor::aggregate::AggFunc;
use crate::natural::lemma_pow2_pos;
use crate::number::show_int;
use crate::storage::schema::Record;
use crate::types::zero;
use crate::types::DataType;
use crate::types::Datum;
use crate::whole::law_whole_number;
use crate::whole::MANTISSA_LIMIT;

verus! {

// ---------------------------------------------------------------------------
// The greatest and the least
// ---------------------------------------------------------------------------

/// The greatest of numbers is one of them, and none of them is greater.
pub proof fn law_greatest(v: Seq<Double>)
    requires
        exists|i: int| 0 <= i < v.len() && !(#[trigger] v[i]).is_nan(),
    ensures
        v.contains(aggregate(AggFunc::Max, v)),
        !aggregate(AggFunc::Max, v).is_nan(),
        forall|i: int| 0 <= i < v.len() ==> !aggregate(AggFunc::Max, v).is_less(#[trigger] v[i]),
{
    lemma_greatest(v);
}

proof fn lemma_greatest(v: Seq<Double>)
    ensures
        !greatest(v).is_nan(),
        (exists|i: int| 0 <= i < v.len() && !(#[trigger] v[i]).is_nan()) ==> v.contains(
            greatest(v),
        ),
        forall|i: int| 0 <= i < v.len() ==> !greatest(v).is_less(#[trigger] v[i]),
        (forall|i: int| 0 <= i < v.len() ==> (#[trigger] v[i]).is_nan()) ==> greatest(v).bits
            == crate::executor::aggregate::NEGATIVE_INFINITE,
    decreases v.len(),
{
    if v.len() > 0 {
        let w = v.drop_last();
        lemma_greatest(w);
        assert(v[v.len() - 1] == v.last());
        assert(forall|i: int| 0 <= i < w.len() ==> #[trigger] v[i] == w[i]);
        if w.contains(greatest(w)) {
            let i = choose|i: int| 0 <= i < w.len() && w[i] == greatest(w);
            assert(v[i] == greatest(w));
        }
        if exists|i: int| 0 <= i < w.len() && !(#[trigger] w[i]).is_nan() {
            assert(w.contains(greatest(w)));
        } else if !v.last().is_nan() {
            assert(greatest(v) == v.last());
        }
        assert forall|i: int| 0 <= i < v.len() implies !greatest(v).is_less(#[trigger] v[i]) by {
            if i < w.len() {
                assert(!greatest(w).is_less(w[i]));
            }
        }
    }
}

/// The least of numbers is one of them, and none of them is less.
pub proof fn law_least(v: Seq<Double>)
    requires
        exists|i: int| 0 <= i < v.len() && !(#[trigger] v[i]).is_nan(),
    ensures
        v.contains(aggregate(AggFunc::Min, v)),
        !aggregate(AggFunc::Min, v).is_nan(),
        forall|i: int| 0 <= i < v.len() ==> !(#[trigger] v[i]).is_less(aggregate(AggFunc::Min, v)),
{
    lemma_least(v);
}

proof fn lemma_least(v: Seq<Double>)
    ensures
        !least(v).is_nan(),
        (exists|i: int| 0 <= i < v.len() && !(#[trigger] v[i]).is_nan()) ==> v.contains(least(v)),
        forall|i: int| 0 <= i < v.len() ==> !(#[trigger] v[i]).is_less(least(v)),
        (forall|i: int| 0 <= i < v.len() ==> (#[trigger] v[i]).is_nan()) ==> least(v).bits
            == INFINITE,
    decreases v.len(),
{
    if v.len() > 0 {
        let w = v.drop_last();
        lemma_least(w);
        assert(v[v.len() - 1] == v.last());
        assert(forall|i: int| 0 <= i < w.len() ==> #[trigger] v[i] == w[i]);
        if w.contains(least(w)) {
            let i = choose|i: int| 0 <= i < w.len() && w[i] == least(w);
            assert(v[i] == least(w));
        }
        if exists|i: int| 0 <= i < w.len() && !(#[trigger] w[i]).is_nan() {
            assert(w.contains(least(w)));
        } else if !v.last().is_nan() {
            assert(least(v) == v.last());
        }
        assert forall|i: int| 0 <= i < v.len() implies !(#[trigger] v[i]).is_less(least(v)) by {
            if i < w.len() {
                assert(!w[i].is_less(least(w)));
            }
        }
    }
}

// ---------------------------------------------------------------------------
// Sums and averages of whole numbers
// ---------------------------------------------------------------------------

/// The sum of whole numbers.
pub open spec fn sum_of_ints(n: Seq<int>) -> int
    decreases n.len(),
{
    if n.len() == 0 {
        0
    } else {
        sum_of_ints(n.drop_last()) + n.last()
    }
}

/// The numbers, and their sums from the first on, are below 2^53 in size.
pub open spec fn sums_fit(n: Seq<int>) -> bool {
    &&& n.len() < MANTISSA_LIMIT
    &&& forall|i: int|
        0 <= i < n.len() ==> -MANTISSA_LIMIT < #[trigger] n[i] < MANTISSA_LIMIT
    &&& forall|i: int|
        0 <= i <= n.len() ==> -MANTISSA_LIMIT < #[trigger] sum_of_ints(n.take(i))
            < MANTISSA_LIMIT
}

/// Whole numbers as doubles.
pub open spec fn as_doubles(n: Seq<int>) -> Seq<Double> {
    n.map_values(|x: int| double_of_int(x))
}

/// Doubles that hold whole numbers add up as these do.
proof fn lemma_whole_sum(a: int, b: int)
    requires
        -MANTISSA_LIMIT < a < MANTISSA_LIMIT,
        -MANTISSA_LIMIT < b < MANTISSA_LIMIT,
        -MANTISSA_LIMIT < a + b < MANTISSA_LIMIT,
    ensures
        sum_of(double_of_int(a), double_of_int(b)) == double_of_int(a + b),
{
    law_whole_number(a);
    law_whole_number(b);
    law_whole_number(a + b);
    lemma_pow2_pos(1074);
    let s = a * one() + b * one();
    assert(s == (a + b) * one()) by (nonlinear_arith)
        requires
            s == a * one() + b * one(),
    ;
    assert((a + b) * one() < 0 <==> a + b < 0) by (nonlinear_arith)
        requires
            one() > 0,
    ;
    assert((a + b) * one() == 0 <==> a + b == 0) by (nonlinear_arith)
        requires
            one() > 0,
    ;
    if a + b < 0 {
        assert((-(a + b)) * one() == -s) by (nonlinear_arith)
            requires
                s == (a + b) * one(),
        ;
    }
    if a + b == 0 {
        assert(0 * one() == 0) by (nonlinear_arith);
        lemma_nearest_zero(1);
    }
}

proof fn lemma_total(n: Seq<int>)
    requires
        n.len() > 0,
        sums_fit(n),
    ensures
        total(as_doubles(n)) == double_of_int(sum_of_ints(n)),
    decreases n.len(),
{
    let v = as_doubles(n);
    let front = n.drop_last();
    assert(v.drop_last() =~= as_doubles(front));
    assert(n.take(n.len() as int) =~= n);
    assert(n.take(n.len() - 1) =~= front);
    let x = n[n.len() - 1];
    assert(v.last() == double_of_int(x));
    if front.len() == 0 {
        reveal_with_fuel(total, 2);
        reveal_with_fuel(sum_of_ints, 2);
        law_whole_number(x);
        lemma_minus_zero(x);
    } else {
        assert forall|i: int| 0 <= i <= front.len() implies -MANTISSA_LIMIT
            < #[trigger] sum_of_ints(front.take(i)) < MANTISSA_LIMIT by {
            assert(front.take(i) =~= n.take(i));
        }
        assert forall|i: int| 0 <= i < front.len() implies -MANTISSA_LIMIT < #[trigger] front[i]
            < MANTISSA_LIMIT by {
            assert(front[i] == n[i]);
        }
        lemma_total(front);
        assert(-MANTISSA_LIMIT < sum_of_ints(n.take(n.len() - 1)) < MANTISSA_LIMIT);
        assert(-MANTISSA_LIMIT < sum_of_ints(n.take(n.len() as int)) < MANTISSA_LIMIT);
        lemma_whole_sum(sum_of_ints(front), x);
    }
}

/// Added to negative zero, a whole number stays what it is.
proof fn lemma_minus_zero(x: int)
    requires
        -MANTISSA_LIMIT < x < MANTISSA_LIMIT,
    ensures
        sum_of(crate::types::negative_zero(), double_of_int(x)) == double_of_int(x),
{
    law_whole_number(x);
    assert(0 * crate::natural::pow2(0) == 0) by (nonlinear_arith);
    assert(units(0) == 0);
    let d = double_of_int(x);
    lemma_pow2_pos(1074);
    assert(x * one() < 0 <==> x < 0) by (nonlinear_arith)
        requires
            one() > 0,
    ;
    law_nearest_exact(d.magnitude());
    if d.magnitude() > 0 {
        lemma_units_positive(d.magnitude());
    }
}

/// The sum of whole numbers is their sum.
pub proof fn law_sum(n: Seq<int>)
    requires
        sums_fit(n),
    ensures
        aggregate(AggFunc::Sum, as_doubles(n)) == double_of_int(sum_of_ints(n)),
{
    if n.len() > 0 {
        lemma_total(n);
    } else {
        law_whole_number(0);
        assert(double_of_int(0) == zero());
    }
}

/// The average of whole numbers whose sum is as many times a whole number as there are of
/// them is that whole number.
pub proof fn law_average(n: Seq<int>, mean: int)
    requires
        sums_fit(n),
        n.len() > 0,
        sum_of_ints(n) == mean * n.len(),
    ensures
        aggregate(AggFunc::Avg, as_doubles(n)) == double_of_int(mean),
{
    lemma_total(n);
    let k = n.len() as int;
    let s = sum_of_ints(n);
    assert(n.take(k) =~= n);
    assert(-MANTISSA_LIMIT < sum_of_ints(n.take(k)) < MANTISSA_LIMIT);
    assert(-MANTISSA_LIMIT < mean < MANTISSA_LIMIT) by (nonlinear_arith)
        requires
            k > 0,
            s == mean * k,
            -MANTISSA_LIMIT < s < MANTISSA_LIMIT,
    ;
    law_whole_number(s);
    law_whole_number(k);
    law_whole_number(mean);
    lemma_pow2_pos(1074);
    assert((s < 0 <==> mean < 0)) by (nonlinear_arith)
        requires
            k > 0,
            s == mean * k,
    ;
    let (a, b) = if mean < 0 {
        (-s, -mean)
    } else {
        (s, mean)
    };
    let x = double_of_int(s);
    let y = double_of_int(k);
    let z = double_of_int(mean);
    assert(a == b * k) by (nonlinear_arith)
        requires
            s == mean * k,
            (a == s && b == mean) || (a == -s && b == -mean),
    ;
    assert(units(x.magnitude()) == a * one()) by (nonlinear_arith)
        requires
            units(x.magnitude()) == s * one() || -units(x.magnitude()) == s * one(),
            a == s || a == -s,
            a >= 0,
            one() > 0,
            units(x.magnitude()) >= 0,
    ;
    assert(units(y.magnitude()) == k * one());
    let u = (b * one()) as nat;
    assert(b * one() >= 0) by (nonlinear_arith)
        requires
            b >= 0,
            one() > 0,
    ;
    let d = (k * one()) as nat;
    assert(d > 0) by (nonlinear_arith)
        requires
            d == k * one(),
            k > 0,
            one() > 0,
    ;
    assert((a * one()) * one() == u * d) by (nonlinear_arith)
        requires
            a == b * k,
            u == b * one(),
            d == k * one(),
    ;
    lemma_nearest_scaled(u, 1, d);
    assert(1 * d == d);
    assert(units(z.magnitude()) == u) by (nonlinear_arith)
        requires
            units(z.magnitude()) == mean * one() || -units(z.magnitude()) == mean * one(),
            u == b * one(),
            b == mean || b == -mean,
            b >= 0,
            one() > 0,
            units(z.magnitude()) >= 0,
    ;
    law_nearest_exact(z.magnitude());
    assert(quotient_of(x, y).magnitude() == z.magnitude());
}

/// The sum of one number is the number, and so are its average, its least and its greatest.
pub proof fn law_aggregate_of_one(f: AggFunc, x: Double)
    requires
        x.is_finite(),
    ensures
        aggregate(f, seq![x]).is_equal(x),
{
    let v = seq![x];
    assert(v[0] == x);
    assert(v.drop_last() =~= Seq::empty());
    match f {
        AggFunc::Min => {
            law_least(v);
        },
        AggFunc::Max => {
            law_greatest(v);
        },
        _ => {
            reveal_with_fuel(total, 2);
            assert(0 * crate::natural::pow2(0) == 0) by (nonlinear_arith);
            assert(units(0) == 0);
            law_nearest_exact(x.magnitude());
            if x.magnitude() > 0 {
                lemma_units_positive(x.magnitude());
            }
            let t = total(v);
            assert(t.is_equal(x));
            law_whole_number(1);
            lemma_pow2_pos(1074);
            lemma_nearest_scaled(units(t.magnitude()), 1, one());
            assert(1 * one() == one());
            law_nearest_exact(t.magnitude());
        },
    }
}

// ---------------------------------------------------------------------------
// The numbers of a column
// ---------------------------------------------------------------------------

/// The numbers of a column are taken row by row: a whole number as the double nearest to
/// it, another number as it is, and nothing of a row without a number there.
pub proof fn law_numbers(a: Seq<Record>, b: Seq<Record>, index: int, r: Record)
    ensures
        numbers(a + b, index) == numbers(a, index) + numbers(b, index),
        0 <= index < r.values.len() && r.values[index] is Integer ==> numbers(seq![r], index)
            == seq![double_of_int(r.values[index]->Integer_0 as int)],
        0 <= index < r.values.len() && r.values[index] is Float ==> numbers(seq![r], index)
            == seq![r.values[index]->Float_0],
        !(0 <= index < r.values.len() && (r.values[index] is Integer || r.values[index] is Float))
            ==> numbers(seq![r], index).len() == 0,
    decreases b.len(),
{
    if b.len() == 0 {
        assert(a + b =~= a);
        assert(numbers(a, index) + numbers(b, index) =~= numbers(a, index));
    } else {
        assert((a + b).drop_last() =~= a + b.drop_last());
        law_numbers(a, b.drop_last(), index, r);
        assert(numbers(a + b, index) =~= numbers(a, index) + numbers(b, index));
    }
    reveal_with_fuel(numbers, 2);
    assert(seq![r].drop_last() =~= Seq::<Record>::empty());
    if 0 <= index < r.values.len() {
        match r.values[index] {
            Datum::Integer(n) => {
                assert(numbers(seq![r], index) =~= seq![double_of_int(n as int)]);
            },
            Datum::Float(x) => {
                assert(numbers(seq![r], index) =~= seq![x]);
            },
            _ => {},
        }
    }
}

/// The whole numbers of a column.
pub open spec fn column_ints(rows: Seq<Record>, index: int) -> Seq<int> {
    rows.map_values(|r: Record| r.values[index]->Integer_0 as int)
}

/// Every row has a whole number in the column.
pub open spec fn all_integers(rows: Seq<Record>, index: int) -> bool {
    forall|i: int|
        0 <= i < rows.len() ==> 0 <= index < (#[trigger] rows[i]).values.len()
            && rows[i].values[index] is Integer
}

proof fn lemma_column_ints(rows: Seq<Record>, index: int)
    requires
        all_integers(rows, index),
    ensures
        numbers(rows, index) == as_doubles(column_ints(rows, index)),
    decreases rows.len(),
{
    if rows.len() > 0 {
        let front = rows.drop_last();
        assert(all_integers(front, index)) by {
            assert forall|i: int| 0 <= i < front.len() implies 0 <= index < (
            #[trigger] front[i]).values.len() && front[i].values[index] is Integer by {
                assert(front[i] == rows[i]);
            }
        }
        lemma_column_ints(front, index);
        assert(rows.last() == rows[rows.len() - 1]);
    }
    assert(numbers(rows, index) =~= as_doubles(column_ints(rows, index)));
}

/// `SUM` of a column of whole numbers shows their sum, `MAX` the greatest and `MIN` the
/// least of them, without a fraction.
pub proof fn law_column_of_integers(rows: Seq<Record>, index: int)
    requires
        rows.len() > 0,
        all_integers(rows, index),
        sums_fit(column_ints(rows, index)),
    ensures
        aggregate_text(AggFunc::Sum, DataType::Integer, numbers(rows, index)) == show_int(
            sum_of_ints(column_ints(rows, index)),
        ),
        forall|k: int|
            0 <= k < rows.len() && (forall|i: int|
                0 <= i < rows.len() ==> column_ints(rows, index)[i] <= column_ints(
                    rows,
                    index,
                )[k]) ==> aggregate_text(AggFunc::Max, DataType::Integer, numbers(rows, index))
                == show_int(#[trigger] column_ints(rows, index)[k]),
        forall|k: int|
            0 <= k < rows.len() && (forall|i: int|
                0 <= i < rows.len() ==> column_ints(rows, index)[k] <= column_ints(
                    rows,
                    index,
                )[i]) ==> aggregate_text(AggFunc::Min, DataType::Integer, numbers(rows, index))
                == show_int(#[trigger] column_ints(rows, index)[k]),
{
    let n = column_ints(rows, index);
    let v = as_doubles(n);
    lemma_column_ints(rows, index);
    law_sum(n);
    assert(n.take(n.len() as int) =~= n);
    assert(-MANTISSA_LIMIT < sum_of_ints(n.take(n.len() as int)) < MANTISSA_LIMIT);
    law_whole_number(sum_of_ints(n));
    assert(v[0] == double_of_int(n[0]));
    law_whole_number(n[0]);
    assert(!v[0].is_nan());
    law_greatest(v);
    law_least(v);
    assert forall|k: int|
        0 <= k < rows.len() && (forall|i: int| 0 <= i < rows.len() ==> n[i] <= n[k]) implies (
    aggregate_text(AggFunc::Max, DataType::Integer, v) == show_int(#[trigger] n[k])) by {
        let g = aggregate(AggFunc::Max, v);
        let j = choose|j: int| 0 <= j < v.len() && v[j] == g;
        lemma_as_large(n, j, k);
    }
    assert forall|k: int|
        0 <= k < rows.len() && (forall|i: int| 0 <= i < rows.len() ==> n[k] <= n[i]) implies (
    aggregate_text(AggFunc::Min, DataType::Integer, v) == show_int(#[trigger] n[k])) by {
        let g = aggregate(AggFunc::Min, v);
        let j = choose|j: int| 0 <= j < v.len() && v[j] == g;
        lemma_as_large(n, j, k);
    }
}

/// Whole numbers are in the order of their doubles.
proof fn lemma_as_large(n: Seq<int>, j: int, k: int)
    requires
        0 <= j < n.len(),
        0 <= k < n.len(),
        -MANTISSA_LIMIT < n[j] < MANTISSA_LIMIT,
        -MANTISSA_LIMIT < n[k] < MANTISSA_LIMIT,
    ensures
        as_doubles(n)[j].is_whole(),
        as_doubles(n)[j].to_int() == n[j],
        as_doubles(n)[j].is_less(as_doubles(n)[k]) <==> n[j] < n[k],
        as_doubles(n)[k].is_less(as_doubles(n)[j]) <==> n[k] < n[j],
{
    law_whole_number(n[j]);
    law_whole_number(n[k]);
    lemma_pow2_pos(1074);
    let (a, b) = (double_of_int(n[j]), double_of_int(n[k]));
    law_order_of_doubles(a, b);
    law_order_of_doubles(b, a);
    let (x, y) = (n[j], n[k]);
    assert(x * one() < y * one() <==> x < y) by (nonlinear_arith)
        requires
            one() > 0,
    ;
    assert(y * one() < x * one() <==> y < x) by (nonlinear_arith)
        requires
            one() > 0,
    ;
}

/// Of no numbers every aggregate is zero.
pub proof fn law_aggregate_of_none(f: AggFunc)
    ensures
        aggregate(f, Seq::empty()) == double_of_int(0),
{
    law_whole_number(0);
}

/// The aggregate of a column that is not of whole numbers is shown as a number that may have
/// a fraction, and so is an average of any column.
pub proof fn law_aggregate_shown(f: AggFunc, t: DataType, v: Seq<Double>)
    ensures
        t != DataType::Integer ==> aggregate_text(f, t, v) == show_double(aggregate(f, v)),
        f == AggFunc::Avg ==> aggregate_text(f, t, v) == show_double(aggregate(f, v)),
        !aggregate(f, v).is_whole() ==> aggregate_text(f, t, v) == show_double(aggregate(f, v)),
{
}

} // verus!
