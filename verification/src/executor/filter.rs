//! What a condition selects: the rows that meet it, in their order.

use vstd::prelude::*;

use super::condition::and_parts;
use super::condition::branch_rows;
use super::condition::branches_rows;
use super::condition::filtered;
use super::condition::meets_all;
use super::condition::or_parts;
use super::condition::with_record;
use super::condition::with_records;
use crate::storage::schema::Column;
use crate::storage::schema::Record;

verus! {

/// Rows in the order of their ids, no two of which have one id.
pub open spec fn ascending(rows: Seq<Record>) -> bool {
    forall|i: int, j: int| 0 <= i < j < rows.len() ==> (#[trigger] rows[i]).id < (#[trigger] rows[j]).id
}

/// Rows no two of which have one id.
pub open spec fn distinct_ids(rows: Seq<Record>) -> bool {
    forall|i: int, j: int|
        0 <= i < j < rows.len() ==> (#[trigger] rows[i]).id != (#[trigger] rows[j]).id
}

/// A row meets one of the branches of a condition.
pub open spec fn meets_any(branches: Seq<Seq<char>>, r: Record, columns: Seq<Column>) -> bool {
    exists|i: int|
        0 <= i < branches.len() && meets_all(and_parts(#[trigger] branches[i]), r, columns)
}

/// The rows that meet one of the branches of a condition, in their order.
pub open spec fn rows_meeting(rows: Seq<Record>, branches: Seq<Seq<char>>, columns: Seq<Column>) -> Seq<
    Record,
>
    decreases rows.len(),
{
    if rows.len() == 0 {
        Seq::empty()
    } else {
        let rest = rows_meeting(rows.drop_last(), branches, columns);
        if meets_any(branches, rows.last(), columns) {
            rest.push(rows.last())
        } else {
            rest
        }
    }
}

/// Among rows in the order of their ids, those before a place have smaller ids.
proof fn lemma_front(rows: Seq<Record>)
    requires
        ascending(rows),
        rows.len() > 0,
    ensures
        ascending(rows.drop_last()),
        forall|r: Record| #[trigger]
            rows.drop_last().contains(r) <==> rows.contains(r) && r.id < rows.last().id,
        forall|r: Record| #[trigger]
            rows.contains(r) ==> r.id <= rows.last().id && (r.id == rows.last().id ==> r
                == rows.last()),
{
    let front = rows.drop_last();
    assert forall|i: int, j: int| 0 <= i < j < front.len() implies (#[trigger] front[i]).id < (
    #[trigger] front[j]).id by {
        assert(rows[i].id < rows[j].id);
    }
    assert forall|r: Record| #[trigger]
        rows.contains(r) implies r.id <= rows.last().id && (r.id == rows.last().id ==> r
        == rows.last()) by {
        let k = choose|k: int| 0 <= k < rows.len() && rows[k] == r;
        if k < rows.len() - 1 {
            assert(rows[k].id < rows[rows.len() - 1].id);
        }
    }
    assert forall|r: Record| #[trigger]
        front.contains(r) <==> rows.contains(r) && r.id < rows.last().id by {
        if front.contains(r) {
            let k = choose|k: int| 0 <= k < front.len() && front[k] == r;
            assert(rows[k] == r);
            assert(rows[k].id < rows[rows.len() - 1].id);
        }
        if rows.contains(r) && r.id < rows.last().id {
            let k = choose|k: int| 0 <= k < rows.len() && rows[k] == r;
            assert(front[k] == r);
        }
    }
}

/// Rows in the order of their ids are given by which rows they are.
proof fn lemma_same_rows(a: Seq<Record>, b: Seq<Record>)
    requires
        ascending(a),
        ascending(b),
        forall|r: Record| #[trigger] a.contains(r) <==> b.contains(r),
    ensures
        a == b,
    decreases a.len(),
{
    if a.len() == 0 {
        if b.len() > 0 {
            assert(b.contains(b[0]));
            assert(a.contains(b[0]));
        }
        assert(a =~= b);
    } else {
        assert(a[a.len() - 1] == a.last());
        assert(a.contains(a.last()));
        assert(b.contains(a.last()));
        assert(b.len() > 0);
        assert(b[b.len() - 1] == b.last());
        assert(b.contains(b.last()));
        assert(a.contains(b.last()));
        lemma_front(a);
        lemma_front(b);
        assert(a.last() == b.last());
        assert forall|r: Record| #[trigger] a.drop_last().contains(r) <==> b.drop_last().contains(
            r,
        ) by {
            assert(a.contains(r) <==> b.contains(r));
        }
        lemma_same_rows(a.drop_last(), b.drop_last());
        assert(a =~= a.drop_last().push(a.last()));
        assert(b =~= b.drop_last().push(b.last()));
    }
}

proof fn lemma_pushed(a: Seq<Record>, x: Record)
    requires
        ascending(a),
        forall|r: Record| #[trigger] a.contains(r) ==> r.id < x.id,
    ensures
        ascending(a.push(x)),
        forall|r: Record| #[trigger] a.push(x).contains(r) <==> a.contains(r) || r == x,
{
    let b = a.push(x);
    assert forall|i: int, j: int| 0 <= i < j < b.len() implies (#[trigger] b[i]).id < (
    #[trigger] b[j]).id by {
        assert(a.contains(a[i]));
        if j < a.len() {
            assert(a[i].id < a[j].id);
        }
    }
    lemma_push_contains(a, x);
}

/// Of the rows, one branch selects those that meet it.
proof fn lemma_branch_rows(rows: Seq<Record>, branch: Seq<char>, c: Seq<Column>)
    ensures
        forall|r: Record| #[trigger]
            branch_rows(rows, branch, c).contains(r) <==> rows.contains(r) && meets_all(
                and_parts(branch),
                r,
                c,
            ),
    decreases rows.len(),
{
    if rows.len() > 0 {
        let front = rows.drop_last();
        let x = rows.last();
        lemma_branch_rows(front, branch, c);
        let rest = branch_rows(front, branch, c);
        let all = branch_rows(rows, branch, c);
        assert(rows =~= front.push(x));
        lemma_push_contains(front, x);
        lemma_push_contains(rest, x);
        assert forall|r: Record| #[trigger]
            all.contains(r) <==> rows.contains(r) && meets_all(and_parts(branch), r, c) by {
            assert(rows.contains(r) <==> front.push(x).contains(r));
            assert(rest.contains(r) <==> front.contains(r) && meets_all(and_parts(branch), r, c));
            assert(rest.push(x).contains(r) <==> rest.contains(r) || r == x);
        }
    }
}

proof fn lemma_push_contains(a: Seq<Record>, x: Record)
    ensures
        forall|r: Record| #[trigger] a.push(x).contains(r) <==> a.contains(r) || r == x,
{
    let b = a.push(x);
    assert forall|r: Record| #[trigger] b.contains(r) <==> a.contains(r) || r == x by {
        if a.contains(r) {
            let k = choose|k: int| 0 <= k < a.len() && a[k] == r;
            assert(b[k] == r);
        }
        if r == x {
            assert(b[a.len() as int] == r);
        }
        if b.contains(r) {
            let k = choose|k: int| 0 <= k < b.len() && b[k] == r;
            if k < a.len() {
                assert(a[k] == r);
            }
        }
    }
}

proof fn lemma_rows_meeting(rows: Seq<Record>, branches: Seq<Seq<char>>, c: Seq<Column>)
    requires
        ascending(rows),
    ensures
        ascending(rows_meeting(rows, branches, c)),
        forall|r: Record| #[trigger]
            rows_meeting(rows, branches, c).contains(r) <==> rows.contains(r) && meets_any(
                branches,
                r,
                c,
            ),
    decreases rows.len(),
{
    if rows.len() > 0 {
        lemma_front(rows);
        lemma_rows_meeting(rows.drop_last(), branches, c);
        let rest = rows_meeting(rows.drop_last(), branches, c);
        let x = rows.last();
        assert(rows[rows.len() - 1] == x);
        assert(rows.contains(x));
        if meets_any(branches, x, c) {
            assert forall|r: Record| #[trigger] rest.contains(r) implies r.id < x.id by {
                assert(rows.drop_last().contains(r));
            }
            lemma_pushed(rest, x);
        }
        assert forall|r: Record| #[trigger]
            rows_meeting(rows, branches, c).contains(r) <==> rows.contains(r) && meets_any(
                branches,
                r,
                c,
            ) by {
            assert(rest.contains(r) <==> rows.drop_last().contains(r) && meets_any(branches, r, c));
        }
    }
}

/// A row put among rows: where one has its id, that is the row itself.
proof fn lemma_with_record(a: Seq<Record>, x: Record)
    requires
        ascending(a),
        forall|r: Record| #[trigger] a.contains(r) && r.id == x.id ==> r == x,
    ensures
        ascending(with_record(a, x)),
        forall|r: Record| #[trigger] with_record(a, x).contains(r) <==> a.contains(r) || r == x,
    decreases a.len(),
{
    let b = with_record(a, x);
    if a.len() == 0 {
        assert(b[0] == x);
        assert forall|r: Record| #[trigger] b.contains(r) <==> a.contains(r) || r == x by {
            if r == x {
                assert(b[0] == r);
            }
        }
    } else {
        lemma_front(a);
        let last = a.last();
        assert(a[a.len() - 1] == last);
        assert(a.contains(last));
        if last.id == x.id {
        } else if last.id < x.id {
            assert forall|r: Record| #[trigger] a.contains(r) implies r.id < x.id by {}
            lemma_pushed(a, x);
        } else {
            let front = a.drop_last();
            assert forall|r: Record| #[trigger] front.contains(r) && r.id == x.id implies r == x by {
                assert(a.contains(r));
            }
            lemma_with_record(front, x);
            let m = with_record(front, x);
            assert forall|r: Record| #[trigger] m.contains(r) implies r.id < last.id by {
                if r != x {
                    assert(front.contains(r));
                }
            }
            lemma_pushed(m, last);
            assert forall|r: Record| #[trigger] b.contains(r) <==> a.contains(r) || r == x by {
                assert(m.contains(r) <==> front.contains(r) || r == x);
                assert(front.contains(r) <==> a.contains(r) && r.id < last.id);
            }
        }
    }
}

/// Rows put among rows that are all rows of one table.
proof fn lemma_with_records(rows: Seq<Record>, a: Seq<Record>, more: Seq<Record>)
    requires
        distinct_ids(rows),
        ascending(a),
        forall|r: Record| #[trigger] a.contains(r) ==> rows.contains(r),
        forall|r: Record| #[trigger] more.contains(r) ==> rows.contains(r),
    ensures
        ascending(with_records(a, more)),
        forall|r: Record| #[trigger]
            with_records(a, more).contains(r) <==> a.contains(r) || more.contains(r),
    decreases more.len(),
{
    if more.len() > 0 {
        let front = more.drop_last();
        let x = more.last();
        assert(more[more.len() - 1] == x);
        assert(more.contains(x));
        assert forall|r: Record| #[trigger] front.contains(r) implies more.contains(r) by {
            let k = choose|k: int| 0 <= k < front.len() && front[k] == r;
            assert(more[k] == r);
        }
        lemma_with_records(rows, a, front);
        let m = with_records(a, front);
        assert forall|r: Record| #[trigger] m.contains(r) && r.id == x.id implies r == x by {
            assert(rows.contains(r));
            assert(rows.contains(x));
            let i = choose|i: int| 0 <= i < rows.len() && rows[i] == r;
            let j = choose|j: int| 0 <= j < rows.len() && rows[j] == x;
            if i < j {
                assert(rows[i].id != rows[j].id);
            } else if j < i {
                assert(rows[j].id != rows[i].id);
            }
        }
        lemma_with_record(m, x);
        assert forall|r: Record| #[trigger]
            with_records(a, more).contains(r) <==> a.contains(r) || more.contains(r) by {
            assert(m.contains(r) <==> a.contains(r) || front.contains(r));
            if more.contains(r) && r != x {
                let k = choose|k: int| 0 <= k < more.len() && more[k] == r;
                assert(front[k] == r);
            }
        }
    }
}

/// A row meets one of the branches where it meets one before the last, or the last.
proof fn lemma_any_last(b: Seq<Seq<char>>, r: Record, c: Seq<Column>)
    requires
        b.len() > 0,
    ensures
        meets_any(b, r, c) <==> meets_any(b.drop_last(), r, c) || meets_all(
            and_parts(b.last()),
            r,
            c,
        ),
{
    let front = b.drop_last();
    if meets_any(front, r, c) {
        let i = choose|i: int|
            0 <= i < front.len() && meets_all(and_parts(#[trigger] front[i]), r, c);
        assert(meets_all(and_parts(b[i]), r, c));
    }
    if meets_all(and_parts(b.last()), r, c) {
        assert(meets_all(and_parts(b[b.len() - 1]), r, c));
    }
    if meets_any(b, r, c) {
        let i = choose|i: int| 0 <= i < b.len() && meets_all(and_parts(#[trigger] b[i]), r, c);
        if i < front.len() {
            assert(meets_all(and_parts(front[i]), r, c));
        }
    }
}

proof fn lemma_branches(rows: Seq<Record>, b: Seq<Seq<char>>, c: Seq<Column>)
    requires
        distinct_ids(rows),
    ensures
        ascending(branches_rows(rows, b, c)),
        forall|r: Record| #[trigger]
            branches_rows(rows, b, c).contains(r) <==> rows.contains(r) && meets_any(b, r, c),
    decreases b.len(),
{
    let all = branches_rows(rows, b, c);
    if b.len() > 0 {
        let front = b.drop_last();
        lemma_branches(rows, front, c);
        lemma_branch_rows(rows, b.last(), c);
        let found = branches_rows(rows, front, c);
        let more = branch_rows(rows, b.last(), c);
        lemma_with_records(rows, found, more);
        assert forall|r: Record| #[trigger]
            all.contains(r) <==> rows.contains(r) && meets_any(b, r, c) by {
            assert(found.contains(r) <==> rows.contains(r) && meets_any(front, r, c));
            assert(more.contains(r) <==> rows.contains(r) && meets_all(
                and_parts(b.last()),
                r,
                c,
            ));
            lemma_any_last(b, r, c);
        }
    }
}

/// A condition selects the rows that meet one of its branches, each of them once, in the
/// order of their ids. That is the order in which they stand in the table, where the
/// table's rows stand in the order of their ids.
pub proof fn law_condition_selects(rows: Seq<Record>, condition: Seq<char>, c: Seq<Column>)
    requires
        distinct_ids(rows),
    ensures
        forall|r: Record| #[trigger]
            filtered(rows, condition, c).contains(r) <==> rows.contains(r) && meets_any(
                or_parts(condition),
                r,
                c,
            ),
        filtered(rows, condition, c).no_duplicates(),
        ascending(filtered(rows, condition, c)),
        ascending(rows) ==> filtered(rows, condition, c) == rows_meeting(
            rows,
            or_parts(condition),
            c,
        ),
{
    lemma_branches(rows, or_parts(condition), c);
    let a = filtered(rows, condition, c);
    assert forall|i: int, j: int| 0 <= i < a.len() && 0 <= j < a.len() && i != j implies a[i]
        != a[j] by {
        if i < j {
            assert(a[i].id < a[j].id);
        } else {
            assert(a[j].id < a[i].id);
        }
    }
    if ascending(rows) {
        lemma_rows_meeting(rows, or_parts(condition), c);
        let b = rows_meeting(rows, or_parts(condition), c);
        assert forall|r: Record| #[trigger] a.contains(r) <==> b.contains(r) by {
            assert(b.contains(r) <==> rows.contains(r) && meets_any(or_parts(condition), r, c));
        }
        lemma_same_rows(a, b);
    }
}

/// Rows in the order of their ids have distinct ids.
pub proof fn lemma_ascending_distinct(rows: Seq<Record>)
    requires
        ascending(rows),
    ensures
        distinct_ids(rows),
{
    assert forall|i: int, j: int| 0 <= i < j < rows.len() implies (#[trigger] rows[i]).id != (
    #[trigger] rows[j]).id by {
        assert(rows[i].id < rows[j].id);
    }
}

proof fn lemma_with_record_from(a: Seq<Record>, x: Record, r: Record)
    requires
        with_record(a, x).contains(r),
    ensures
        a.contains(r) || r == x,
    decreases a.len(),
{
    let b = with_record(a, x);
    if a.len() == 0 {
        let k = choose|k: int| 0 <= k < b.len() && b[k] == r;
        assert(k == 0);
    } else if a.last().id == x.id {
    } else if a.last().id < x.id {
        lemma_push_contains(a, x);
    } else {
        let front = a.drop_last();
        let m = with_record(front, x);
        lemma_push_contains(m, a.last());
        lemma_push_contains(front, a.last());
        assert(a =~= front.push(a.last()));
        if m.contains(r) {
            lemma_with_record_from(front, x, r);
        }
        if front.contains(r) {
            assert(front.push(a.last()).contains(r));
        }
        if r == a.last() {
            assert(front.push(a.last()).contains(r));
        }
    }
}

proof fn lemma_with_records_from(a: Seq<Record>, more: Seq<Record>, r: Record)
    requires
        with_records(a, more).contains(r),
    ensures
        a.contains(r) || more.contains(r),
    decreases more.len(),
{
    if more.len() > 0 {
        let front = more.drop_last();
        lemma_with_record_from(with_records(a, front), more.last(), r);
        lemma_push_contains(front, more.last());
        assert(more =~= front.push(more.last()));
        assert(more.contains(r) <==> front.push(more.last()).contains(r));
        if r != more.last() {
            lemma_with_records_from(a, front, r);
        }
    }
}

proof fn lemma_branches_from(rows: Seq<Record>, b: Seq<Seq<char>>, c: Seq<Column>, r: Record)
    requires
        branches_rows(rows, b, c).contains(r),
    ensures
        rows.contains(r),
    decreases b.len(),
{
    if b.len() > 0 {
        let found = branches_rows(rows, b.drop_last(), c);
        let more = branch_rows(rows, b.last(), c);
        lemma_with_records_from(found, more, r);
        lemma_branch_rows(rows, b.last(), c);
        if found.contains(r) {
            lemma_branches_from(rows, b.drop_last(), c, r);
        }
    }
}

/// A condition selects nothing but rows of the table, whatever their ids are.
pub proof fn lemma_filtered_from(rows: Seq<Record>, condition: Seq<char>, c: Seq<Column>)
    ensures
        forall|r: Record| #[trigger]
            filtered(rows, condition, c).contains(r) ==> rows.contains(r),
{
    assert forall|r: Record| #[trigger]
        filtered(rows, condition, c).contains(r) implies rows.contains(r) by {
        lemma_branches_from(rows, or_parts(condition), c, r);
    }
}

} // verus!
