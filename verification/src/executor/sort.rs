//! Sorting by a column, or by any other key.

use vstd::prelude::*;

use super::compare::compare_values;
use super::compare::compared;
use super::compare::Comparison;
use crate::text::lemma_text_less_trans;
use crate::text::lemma_text_order;
use crate::text::text_less;
use crate::types::Datum;
use crate::types::Value;

verus! {

/// The key `a` comes before the key `b`. Keys that do not compare come in no order, and
/// a row without a key in none either.
pub open spec fn key_before(a: Option<Datum>, b: Option<Datum>, descending: bool) -> bool {
    match (a, b) {
        (Some(x), Some(y)) => compared(x, y) == Some(
            if descending {
                Comparison::Greater
            } else {
                Comparison::Less
            },
        ),
        _ => false,
    }
}

/// The key at the place `i` comes before the key at the place `j`.
pub open spec fn place_before(
    keys: Seq<Option<Datum>>,
    descending: bool,
    i: nat,
    j: nat,
) -> bool {
    key_before(keys[i as int], keys[j as int], descending)
}

/// Two rows of places merged: the first of `b` goes first only where its key comes
/// before that of the first of `a`.
pub open spec fn merged(
    keys: Seq<Option<Datum>>,
    descending: bool,
    a: Seq<nat>,
    b: Seq<nat>,
) -> Seq<nat>
    decreases a.len() + b.len(),
{
    if a.len() == 0 {
        b
    } else if b.len() == 0 {
        a
    } else if place_before(keys, descending, b[0], a[0]) {
        seq![b[0]] + merged(keys, descending, a, b.skip(1))
    } else {
        seq![a[0]] + merged(keys, descending, a.skip(1), b)
    }
}

/// The places from `from` to `to`, in the order of their keys.
pub open spec fn sorted_range(
    keys: Seq<Option<Datum>>,
    descending: bool,
    from: nat,
    to: nat,
) -> Seq<nat>
    decreases to - from,
{
    if to <= from {
        Seq::empty()
    } else if to == from + 1 {
        seq![from]
    } else {
        let mid = ((from + to) / 2) as nat;
        merged(
            keys,
            descending,
            sorted_range(keys, descending, from, mid),
            sorted_range(keys, descending, mid, to),
        )
    }
}

/// The places of the keys in the order of the keys.
pub open spec fn sorted_places(keys: Seq<Option<Datum>>, descending: bool) -> Seq<nat> {
    sorted_range(keys, descending, 0, keys.len())
}

/// What an optional key holds.
pub open spec fn opt_datum(k: Option<Value>) -> Option<Datum> {
    match k {
        Some(x) => Some(x@),
        None => None,
    }
}

/// What optional keys hold.
pub open spec fn keys_view(v: Seq<Option<Value>>) -> Seq<Option<Datum>> {
    v.map_values(|k: Option<Value>| opt_datum(k))
}

/// Places as numbers.
pub open spec fn places_view(v: Seq<usize>) -> Seq<nat> {
    v.map_values(|i: usize| i as nat)
}

fn before(keys: &Vec<Option<Value>>, descending: bool, i: usize, j: usize) -> (r: bool)
    requires
        i < keys@.len(),
        j < keys@.len(),
    ensures
        r == place_before(keys_view(keys@), descending, i as nat, j as nat),
{
    match (&keys[i], &keys[j]) {
        (Some(x), Some(y)) => match compare_values(x, y) {
            Some(Comparison::Less) => !descending,
            Some(Comparison::Greater) => descending,
            _ => false,
        },
        _ => false,
    }
}

fn merge(keys: &Vec<Option<Value>>, descending: bool, a: &Vec<usize>, b: &Vec<usize>) -> (r: Vec<
    usize,
>)
    requires
        forall|i: int| 0 <= i < a@.len() ==> (#[trigger] a@[i]) < keys@.len(),
        forall|i: int| 0 <= i < b@.len() ==> (#[trigger] b@[i]) < keys@.len(),
    ensures
        places_view(r@) == merged(
            keys_view(keys@),
            descending,
            places_view(a@),
            places_view(b@),
        ),
        forall|i: int| 0 <= i < r@.len() ==> (#[trigger] r@[i]) < keys@.len(),
{
    let ghost k = keys_view(keys@);
    let ghost pa = places_view(a@);
    let ghost pb = places_view(b@);
    let mut r: Vec<usize> = Vec::new();
    let mut i: usize = 0;
    let mut j: usize = 0;
    proof {
        assert(pa.skip(0) =~= pa);
        assert(pb.skip(0) =~= pb);
        assert(places_view(r@) + merged(k, descending, pa, pb) =~= merged(k, descending, pa, pb));
    }
    while i < a.len() && j < b.len()
        invariant
            i <= a.len(),
            j <= b.len(),
            k == keys_view(keys@),
            pa == places_view(a@),
            pb == places_view(b@),
            forall|x: int| 0 <= x < a@.len() ==> (#[trigger] a@[x]) < keys@.len(),
            forall|x: int| 0 <= x < b@.len() ==> (#[trigger] b@[x]) < keys@.len(),
            forall|x: int| 0 <= x < r@.len() ==> (#[trigger] r@[x]) < keys@.len(),
            places_view(r@) + merged(k, descending, pa.skip(i as int), pb.skip(j as int))
                == merged(k, descending, pa, pb),
        decreases a.len() - i + (b.len() - j),
    {
        let ghost was = r@;
        let ghost (ra, rb) = (pa.skip(i as int), pb.skip(j as int));
        assert(ra[0] == a@[i as int] as nat);
        assert(rb[0] == b@[j as int] as nat);
        if before(keys, descending, b[j], a[i]) {
            r.push(b[j]);
            proof {
                assert(rb.skip(1) =~= pb.skip(j + 1));
                assert(places_view(r@) =~= places_view(was).push(rb[0]));
                let m = merged(k, descending, ra, pb.skip(j + 1));
                assert(places_view(r@) + m =~= places_view(was) + (seq![rb[0]] + m));
            }
            j += 1;
        } else {
            r.push(a[i]);
            proof {
                assert(ra.skip(1) =~= pa.skip(i + 1));
                assert(places_view(r@) =~= places_view(was).push(ra[0]));
                let m = merged(k, descending, pa.skip(i + 1), rb);
                assert(places_view(r@) + m =~= places_view(was) + (seq![ra[0]] + m));
            }
            i += 1;
        }
    }
    let ghost mid = r@;
    let ghost (ra, rb) = (pa.skip(i as int), pb.skip(j as int));
    let i0: usize = i;
    while i < a.len()
        invariant
            i0 <= i <= a.len(),
            pa == places_view(a@),
            forall|x: int| 0 <= x < a@.len() ==> (#[trigger] a@[x]) < keys@.len(),
            forall|x: int| 0 <= x < r@.len() ==> (#[trigger] r@[x]) < keys@.len(),
            places_view(r@) == places_view(mid) + pa.subrange(i0 as int, i as int),
        decreases a.len() - i,
    {
        let ghost was = r@;
        r.push(a[i]);
        proof {
            assert(places_view(r@) =~= places_view(was).push(pa[i as int]));
            assert(places_view(r@) =~= places_view(mid) + pa.subrange(i0 as int, i + 1));
        }
        i += 1;
    }
    let ghost mid2 = r@;
    let j0: usize = j;
    while j < b.len()
        invariant
            j0 <= j <= b.len(),
            pb == places_view(b@),
            forall|x: int| 0 <= x < b@.len() ==> (#[trigger] b@[x]) < keys@.len(),
            forall|x: int| 0 <= x < r@.len() ==> (#[trigger] r@[x]) < keys@.len(),
            places_view(r@) == places_view(mid2) + pb.subrange(j0 as int, j as int),
        decreases b.len() - j,
    {
        let ghost was = r@;
        r.push(b[j]);
        proof {
            assert(places_view(r@) =~= places_view(was).push(pb[j as int]));
            assert(places_view(r@) =~= places_view(mid2) + pb.subrange(j0 as int, j + 1));
        }
        j += 1;
    }
    proof {
        assert(pa.subrange(i0 as int, pa.len() as int) =~= ra);
        assert(pb.subrange(j0 as int, pb.len() as int) =~= rb);
        assert(places_view(r@) =~= places_view(mid) + ra + rb);
        if ra.len() == 0 {
            assert(places_view(mid) + ra + rb =~= places_view(mid) + rb);
        } else {
            assert(rb.len() == 0);
            assert(places_view(mid) + ra + rb =~= places_view(mid) + ra);
        }
    }
    r
}

fn sort_range(keys: &Vec<Option<Value>>, descending: bool, from: usize, to: usize) -> (r: Vec<
    usize,
>)
    requires
        from <= to <= keys@.len(),
    ensures
        places_view(r@) == sorted_range(keys_view(keys@), descending, from as nat, to as nat),
        forall|i: int| 0 <= i < r@.len() ==> (#[trigger] r@[i]) < keys@.len(),
    decreases to - from,
{
    if to == from {
        let r: Vec<usize> = Vec::new();
        assert(places_view(r@) =~= Seq::empty());
        return r;
    }
    if to - from == 1 {
        let mut r: Vec<usize> = Vec::new();
        r.push(from);
        assert(places_view(r@) =~= seq![from as nat]);
        return r;
    }
    let mid: usize = from + (to - from) / 2;
    assert(mid as nat == ((from as nat + to as nat) / 2) as nat);
    let a = sort_range(keys, descending, from, mid);
    let b = sort_range(keys, descending, mid, to);
    merge(keys, descending, &a, &b)
}

/// The places of the keys in the order of the keys.
pub fn sort_places(keys: &Vec<Option<Value>>, descending: bool) -> (r: Vec<usize>)
    ensures
        places_view(r@) == sorted_places(keys_view(keys@), descending),
        forall|i: int| 0 <= i < r@.len() ==> (#[trigger] r@[i]) < keys@.len(),
{
    sort_range(keys, descending, 0, keys.len())
}

// ---------------------------------------------------------------------------
// Laws
// ---------------------------------------------------------------------------

/// Keys that have an order between them: no two come before each other, and of two that
/// are in order any third comes after the first or before the second.
pub open spec fn consistent(keys: Seq<Option<Datum>>, descending: bool) -> bool {
    forall|x: nat, y: nat|
        x < keys.len() && y < keys.len() && #[trigger] place_before(keys, descending, x, y)
            ==> !place_before(keys, descending, y, x) && forall|z: nat|
            z < keys.len() ==> #[trigger] place_before(keys, descending, x, z) || place_before(
                keys,
                descending,
                z,
                y,
            )
}

/// The place `x` goes ahead of the place `y`: its key comes before, or neither does and
/// `x` is the smaller place.
pub open spec fn goes_ahead(keys: Seq<Option<Datum>>, descending: bool, x: nat, y: nat) -> bool {
    &&& !place_before(keys, descending, y, x)
    &&& place_before(keys, descending, x, y) || x < y
}

/// Places in a stable order of their keys.
pub open spec fn in_stable_order(keys: Seq<Option<Datum>>, descending: bool, p: Seq<nat>) -> bool {
    forall|i: int, j: int|
        0 <= i < j < p.len() ==> goes_ahead(
            keys,
            descending,
            #[trigger] p[i],
            #[trigger] p[j],
        )
}

proof fn lemma_ahead_trans(
    keys: Seq<Option<Datum>>,
    descending: bool,
    x: nat,
    y: nat,
    z: nat,
)
    requires
        consistent(keys, descending),
        x < keys.len(),
        y < keys.len(),
        z < keys.len(),
        goes_ahead(keys, descending, x, y),
        goes_ahead(keys, descending, y, z),
    ensures
        goes_ahead(keys, descending, x, z),
{
    if place_before(keys, descending, z, x) {
        assert(place_before(keys, descending, z, y) || place_before(keys, descending, y, x));
    }
    if place_before(keys, descending, x, y) {
        assert(place_before(keys, descending, x, z) || place_before(keys, descending, z, y));
    }
    if place_before(keys, descending, y, z) {
        assert(place_before(keys, descending, y, x) || place_before(keys, descending, x, z));
    }
}

/// Two rows of places, merged, hold the places of both.
proof fn lemma_merged_places(
    keys: Seq<Option<Datum>>,
    descending: bool,
    a: Seq<nat>,
    b: Seq<nat>,
)
    ensures
        merged(keys, descending, a, b).len() == a.len() + b.len(),
        forall|i: int|
            0 <= i < merged(keys, descending, a, b).len() ==> a.contains(
                #[trigger] merged(keys, descending, a, b)[i],
            ) || b.contains(merged(keys, descending, a, b)[i]),
    decreases a.len() + b.len(),
{
    let m = merged(keys, descending, a, b);
    if a.len() == 0 {
        assert forall|i: int| 0 <= i < m.len() implies a.contains(#[trigger] m[i]) || b.contains(
            m[i],
        ) by {
            assert(b[i] == m[i]);
        }
    } else if b.len() == 0 {
        assert forall|i: int| 0 <= i < m.len() implies a.contains(#[trigger] m[i]) || b.contains(
            m[i],
        ) by {
            assert(a[i] == m[i]);
        }
    } else {
        let (a2, b2) = if place_before(keys, descending, b[0], a[0]) {
            (a, b.skip(1))
        } else {
            (a.skip(1), b)
        };
        lemma_merged_places(keys, descending, a2, b2);
        let rest = merged(keys, descending, a2, b2);
        assert forall|i: int| 0 <= i < m.len() implies a.contains(#[trigger] m[i]) || b.contains(
            m[i],
        ) by {
            if i == 0 {
                assert(a[0] == m[0] || b[0] == m[0]);
            } else {
                assert(m[i] == rest[i - 1]);
                if a2.contains(m[i]) {
                    let k = choose|k: int| 0 <= k < a2.len() && a2[k] == m[i];
                    assert(a.contains(a2[k])) by {
                        assert(a2[k] == a[k + (a.len() - a2.len())]);
                    }
                } else {
                    let k = choose|k: int| 0 <= k < b2.len() && b2[k] == m[i];
                    assert(b.contains(b2[k])) by {
                        assert(b2[k] == b[k + (b.len() - b2.len())]);
                    }
                }
            }
        }
    }
}

proof fn lemma_merged_order(
    keys: Seq<Option<Datum>>,
    descending: bool,
    a: Seq<nat>,
    b: Seq<nat>,
)
    requires
        consistent(keys, descending),
        in_stable_order(keys, descending, a),
        in_stable_order(keys, descending, b),
        forall|i: int| 0 <= i < a.len() ==> #[trigger] a[i] < keys.len(),
        forall|i: int| 0 <= i < b.len() ==> #[trigger] b[i] < keys.len(),
        forall|i: int, j: int|
            0 <= i < a.len() && 0 <= j < b.len() ==> #[trigger] a[i] < #[trigger] b[j],
    ensures
        in_stable_order(keys, descending, merged(keys, descending, a, b)),
    decreases a.len() + b.len(),
{
    let m = merged(keys, descending, a, b);
    if a.len() > 0 && b.len() > 0 {
        let left = !place_before(keys, descending, b[0], a[0]);
        let (a2, b2) = if left {
            (a.skip(1), b)
        } else {
            (a, b.skip(1))
        };
        assert forall|i: int| 0 <= i < a2.len() implies #[trigger] a2[i] < keys.len() by {
            assert(a2[i] == a[i + (a.len() - a2.len())]);
        }
        assert forall|i: int| 0 <= i < b2.len() implies #[trigger] b2[i] < keys.len() by {
            assert(b2[i] == b[i + (b.len() - b2.len())]);
        }
        assert forall|i: int, j: int| 0 <= i < a2.len() && 0 <= j < b2.len() implies
            #[trigger] a2[i] < #[trigger] b2[j] by {
            assert(a2[i] == a[i + (a.len() - a2.len())]);
            assert(b2[j] == b[j + (b.len() - b2.len())]);
        }
        assert forall|i: int, j: int| 0 <= i < j < a2.len() implies goes_ahead(
            keys,
            descending,
            #[trigger] a2[i],
            #[trigger] a2[j],
        ) by {
            let k = a.len() - a2.len();
            assert(goes_ahead(keys, descending, a[i + k], a[j + k]));
        }
        assert forall|i: int, j: int| 0 <= i < j < b2.len() implies goes_ahead(
            keys,
            descending,
            #[trigger] b2[i],
            #[trigger] b2[j],
        ) by {
            let k = b.len() - b2.len();
            assert(goes_ahead(keys, descending, b[i + k], b[j + k]));
        }
        lemma_merged_order(keys, descending, a2, b2);
        lemma_merged_places(keys, descending, a2, b2);
        let rest = merged(keys, descending, a2, b2);
        let h = m[0];
        assert(goes_ahead(keys, descending, a[0], b[0]) == left) by {
            assert(a[0] < b[0]);
        }
        assert(!left ==> goes_ahead(keys, descending, b[0], a[0]));
        assert forall|j: int| 0 <= j < rest.len() implies goes_ahead(
            keys,
            descending,
            h,
            #[trigger] rest[j],
        ) by {
            let x = rest[j];
            if a2.contains(x) {
                let k = choose|k: int| 0 <= k < a2.len() && a2[k] == x;
                let o = k + (a.len() - a2.len());
                assert(x == a[o]);
                if o > 0 {
                    assert(goes_ahead(keys, descending, a[0], a[o]));
                }
                if !left && o > 0 {
                    lemma_ahead_trans(keys, descending, b[0], a[0], x);
                }
            } else {
                let k = choose|k: int| 0 <= k < b2.len() && b2[k] == x;
                let o = k + (b.len() - b2.len());
                assert(x == b[o]);
                if o > 0 {
                    assert(goes_ahead(keys, descending, b[0], b[o]));
                }
                if left && o > 0 {
                    lemma_ahead_trans(keys, descending, a[0], b[0], x);
                }
            }
        }
        assert forall|i: int, j: int| 0 <= i < j < m.len() implies goes_ahead(
            keys,
            descending,
            #[trigger] m[i],
            #[trigger] m[j],
        ) by {
            assert(m[j] == rest[j - 1]);
            if i > 0 {
                assert(m[i] == rest[i - 1]);
            }
        }
    }
}

/// Two rows of places without repetition and without a common place, merged, hold no
/// place twice.
proof fn lemma_merged_unique(
    keys: Seq<Option<Datum>>,
    descending: bool,
    a: Seq<nat>,
    b: Seq<nat>,
)
    requires
        a.no_duplicates(),
        b.no_duplicates(),
        forall|i: int, j: int|
            0 <= i < a.len() && 0 <= j < b.len() ==> #[trigger] a[i] < #[trigger] b[j],
    ensures
        merged(keys, descending, a, b).no_duplicates(),
    decreases a.len() + b.len(),
{
    let m = merged(keys, descending, a, b);
    if a.len() > 0 && b.len() > 0 {
        let left = !place_before(keys, descending, b[0], a[0]);
        let (a2, b2) = if left {
            (a.skip(1), b)
        } else {
            (a, b.skip(1))
        };
        assert forall|i: int, j: int| 0 <= i < a2.len() && 0 <= j < b2.len() implies
            #[trigger] a2[i] < #[trigger] b2[j] by {
            assert(a2[i] == a[i + (a.len() - a2.len())]);
            assert(b2[j] == b[j + (b.len() - b2.len())]);
        }
        assert(a2.no_duplicates()) by {
            assert forall|i: int, j: int| 0 <= i < a2.len() && 0 <= j < a2.len() && i != j implies
                a2[i] != a2[j] by {
                let k = a.len() - a2.len();
                assert(a[i + k] != a[j + k]);
            }
        }
        assert(b2.no_duplicates()) by {
            assert forall|i: int, j: int| 0 <= i < b2.len() && 0 <= j < b2.len() && i != j implies
                b2[i] != b2[j] by {
                let k = b.len() - b2.len();
                assert(b[i + k] != b[j + k]);
            }
        }
        lemma_merged_unique(keys, descending, a2, b2);
        lemma_merged_places(keys, descending, a2, b2);
        let rest = merged(keys, descending, a2, b2);
        assert forall|j: int| 0 <= j < rest.len() implies m[0] != #[trigger] rest[j] by {
            let x = rest[j];
            if a2.contains(x) {
                let k = choose|k: int| 0 <= k < a2.len() && a2[k] == x;
                let o = k + (a.len() - a2.len());
                assert(x == a[o]);
                assert(left ==> a[0] != a[o]);
                assert(a[o] < b[0]);
            } else {
                let k = choose|k: int| 0 <= k < b2.len() && b2[k] == x;
                let o = k + (b.len() - b2.len());
                assert(x == b[o]);
                assert(!left ==> b[0] != b[o]);
                assert(a[0] < b[o]);
            }
        }
        assert forall|i: int, j: int| 0 <= i < m.len() && 0 <= j < m.len() && i != j implies m[i]
            != m[j] by {
            if i > 0 && j > 0 {
                assert(m[i] == rest[i - 1] && m[j] == rest[j - 1]);
            } else if i > 0 {
                assert(m[i] == rest[i - 1]);
            } else {
                assert(m[j] == rest[j - 1]);
            }
        }
    }
}

proof fn lemma_sorted_range(keys: Seq<Option<Datum>>, descending: bool, from: nat, to: nat)
    requires
        from <= to <= keys.len(),
    ensures
        ({
            let r = sorted_range(keys, descending, from, to);
            &&& r.len() == to - from
            &&& r.no_duplicates()
            &&& forall|i: int| 0 <= i < r.len() ==> from <= #[trigger] r[i] < to
            &&& consistent(keys, descending) ==> in_stable_order(keys, descending, r)
        }),
    decreases to - from,
{
    let r = sorted_range(keys, descending, from, to);
    if to > from + 1 {
        let mid = ((from + to) / 2) as nat;
        lemma_sorted_range(keys, descending, from, mid);
        lemma_sorted_range(keys, descending, mid, to);
        let a = sorted_range(keys, descending, from, mid);
        let b = sorted_range(keys, descending, mid, to);
        lemma_merged_places(keys, descending, a, b);
        lemma_merged_unique(keys, descending, a, b);
        if consistent(keys, descending) {
            lemma_merged_order(keys, descending, a, b);
        }
        assert forall|i: int| 0 <= i < r.len() implies from <= #[trigger] r[i] < to by {
            if a.contains(r[i]) {
                let k = choose|k: int| 0 <= k < a.len() && a[k] == r[i];
                assert(from <= a[k] < mid);
            } else {
                let k = choose|k: int| 0 <= k < b.len() && b[k] == r[i];
                assert(mid <= b[k] < to);
            }
        }
    }
}

/// Sorting gives every place once, and where the keys have an order between them, it
/// gives the places in that order; places with equal keys stay in their order.
pub proof fn law_sorted(keys: Seq<Option<Datum>>, descending: bool)
    ensures
        sorted_places(keys, descending).len() == keys.len(),
        sorted_places(keys, descending).no_duplicates(),
        forall|i: int|
            0 <= i < keys.len() ==> #[trigger] sorted_places(keys, descending)[i] < keys.len(),
        consistent(keys, descending) ==> in_stable_order(
            keys,
            descending,
            sorted_places(keys, descending),
        ),
{
    lemma_sorted_range(keys, descending, 0, keys.len());
}

/// Values of one type that have an order among them: whole numbers, texts, booleans,
/// dates, times, or doubles that are numbers.
pub open spec fn of_one_type(keys: Seq<Option<Datum>>) -> bool {
    ||| forall|i: int| 0 <= i < keys.len() ==> (#[trigger] keys[i]) matches Some(Datum::Integer(_))
    ||| forall|i: int| 0 <= i < keys.len() ==> (#[trigger] keys[i]) matches Some(Datum::Text(_))
    ||| forall|i: int| 0 <= i < keys.len() ==> (#[trigger] keys[i]) matches Some(Datum::Boolean(_))
    ||| forall|i: int| 0 <= i < keys.len() ==> (#[trigger] keys[i]) matches Some(Datum::Date(_))
    ||| forall|i: int| 0 <= i < keys.len() ==> (#[trigger] keys[i]) matches Some(Datum::Time(_))
    ||| forall|i: int|
        0 <= i < keys.len() ==> ((#[trigger] keys[i]) matches Some(Datum::Float(x)) && !x.is_nan())
}

spec fn like_typed(a: Datum, b: Datum) -> bool {
    match (a, b) {
        (Datum::Integer(_), Datum::Integer(_)) => true,
        (Datum::Text(_), Datum::Text(_)) => true,
        (Datum::Boolean(_), Datum::Boolean(_)) => true,
        (Datum::Date(_), Datum::Date(_)) => true,
        (Datum::Time(_), Datum::Time(_)) => true,
        (Datum::Float(x), Datum::Float(y)) => !x.is_nan() && !y.is_nan(),
        _ => false,
    }
}

proof fn lemma_like_typed(keys: Seq<Option<Datum>>, i: int, j: int)
    requires
        of_one_type(keys),
        0 <= i < keys.len(),
        0 <= j < keys.len(),
    ensures
        keys[i] is Some,
        keys[j] is Some,
        like_typed(keys[i]->0, keys[j]->0),
{
    let a = keys[i];
    let b = keys[j];
}

proof fn lemma_text_three(a: Seq<char>, b: Seq<char>, c: Seq<char>)
    requires
        text_less(a, b),
    ensures
        text_less(a, c) || text_less(c, b),
{
    lemma_text_order(a, c);
    if text_less(c, a) {
        lemma_text_less_trans(c, a, b);
    }
}

/// Of two values of one type that are in order, the second is not before the first, and
/// any third of their type is after the first or before the second.
proof fn lemma_typed_order(a: Datum, b: Datum, c: Datum)
    requires
        like_typed(a, b),
        like_typed(a, c),
        compared(a, b) == Some(Comparison::Less),
    ensures
        compared(b, a) == Some(Comparison::Greater),
        compared(a, c) == Some(Comparison::Less) || compared(c, b) == Some(Comparison::Less),
{
    match (a, b, c) {
        (Datum::Text(x), Datum::Text(y), Datum::Text(z)) => {
            lemma_text_order(x, y);
            lemma_text_three(x, y, z);
        },
        (Datum::Date(x), Datum::Date(y), Datum::Date(z)) => {
            lemma_text_order(x, y);
            lemma_text_three(x, y, z);
        },
        (Datum::Time(x), Datum::Time(y), Datum::Time(z)) => {
            lemma_text_order(x, y);
            lemma_text_three(x, y, z);
        },
        _ => {},
    }
}

proof fn lemma_greater(a: Datum, b: Datum)
    requires
        like_typed(a, b),
    ensures
        compared(a, b) == Some(Comparison::Greater) <==> compared(b, a) == Some(Comparison::Less),
{
    match (a, b) {
        (Datum::Text(x), Datum::Text(y)) => {
            lemma_text_order(x, y);
        },
        (Datum::Date(x), Datum::Date(y)) => {
            lemma_text_order(x, y);
        },
        (Datum::Time(x), Datum::Time(y)) => {
            lemma_text_order(x, y);
        },
        _ => {},
    }
}

/// The values of a column of one type have an order between them.
pub proof fn law_one_type_consistent(keys: Seq<Option<Datum>>, descending: bool)
    requires
        of_one_type(keys),
    ensures
        consistent(keys, descending),
{
    assert forall|x: nat, y: nat|
        x < keys.len() && y < keys.len() && #[trigger] place_before(
            keys,
            descending,
            x,
            y,
        ) implies !place_before(keys, descending, y, x) && forall|z: nat|
        z < keys.len() ==> #[trigger] place_before(keys, descending, x, z) || place_before(
            keys,
            descending,
            z,
            y,
        ) by {
        let a = keys[x as int]->0;
        let b = keys[y as int]->0;
        lemma_like_typed(keys, x as int, y as int);
        lemma_like_typed(keys, y as int, x as int);
        lemma_greater(a, b);
        lemma_greater(b, a);
        if descending {
            lemma_typed_order(b, a, b);
        } else {
            lemma_typed_order(a, b, a);
        }
        assert forall|z: nat| z < keys.len() implies #[trigger] place_before(
            keys,
            descending,
            x,
            z,
        ) || place_before(keys, descending, z, y) by {
            let c = keys[z as int]->0;
            lemma_like_typed(keys, x as int, z as int);
            lemma_like_typed(keys, z as int, x as int);
            lemma_like_typed(keys, y as int, z as int);
            lemma_like_typed(keys, z as int, y as int);
            lemma_greater(a, c);
            lemma_greater(c, b);
            if descending {
                lemma_typed_order(b, a, c);
            } else {
                lemma_typed_order(a, b, c);
            }
        }
    }
}

} // verus!
