//! What running scripts one after the other does, and how results are shown.

use vstd::prelude::*;

use crate::db::replies_lines;
use crate::db::reply_lines;
use crate::db::script_run;
use crate::executor::run::Machine;
use crate::executor::run::Reply;
use crate::executor::select::Answer;
use crate::number::show_nat;
use crate::sql::parser::script_of;
use crate::sql::script::law_scripts_in_turn;
use crate::sql::statement::Statement;
use crate::text::ends_with;
use crate::text::join;
use crate::text::trim;
use crate::texts::stands_at;

verus! {

/// Statements run one after the other: those of the second row start from where the first
/// row leaves off, and do not run where one of the first fails.
pub proof fn law_statements_in_turn(m: Machine, a: Seq<Statement>, b: Seq<Statement>, n: int)
    requires
        0 <= n <= b.len(),
    ensures
        ({
            let (mid, first) = m.executed_all(a, a.len() as int);
            let (last, second) = mid.executed_all(b, n);
            let (end, all) = m.executed_all(a + b, a.len() + n);
            &&& first matches Err(e) ==> end == mid && all == Err::<Seq<Reply>, Seq<char>>(e)
            &&& first is Ok && second is Ok ==> end == last && all == Ok::<Seq<Reply>, Seq<char>>(
                first->Ok_0 + second->Ok_0,
            )
            &&& first is Ok && second is Err ==> end == last && all == Err::<
                Seq<Reply>,
                Seq<char>,
            >(second->Err_0)
        }),
    decreases n,
{
    let k = a.len() as int;
    if n == 0 {
        lemma_same_start(m, a, b, k);
        match m.executed_all(a, k).1 {
            Ok(r) => {
                assert(r + Seq::<Reply>::empty() =~= r);
            },
            Err(_) => {},
        }
    } else {
        law_statements_in_turn(m, a, b, n - 1);
        assert((a + b)[k + n - 1] == b[n - 1]);
        let (mid, first) = m.executed_all(a, k);
        let (before, second) = mid.executed_all(b, n - 1);
        match (first, second) {
            (Ok(x), Ok(y)) => {
                match before.executed(b[n - 1]).1 {
                    Ok(r) => {
                        assert((x + y).push(r) =~= x + y.push(r));
                    },
                    Err(_) => {},
                }
            },
            _ => {},
        }
    }
}

proof fn lemma_same_start(m: Machine, a: Seq<Statement>, b: Seq<Statement>, n: int)
    requires
        n <= a.len(),
    ensures
        m.executed_all(a + b, n) == m.executed_all(a, n),
    decreases n,
{
    if n > 0 {
        lemma_same_start(m, a, b, n - 1);
        assert((a + b)[n - 1] == a[n - 1]);
    }
}

/// A script of two parts with a semicolon between them does what the parts do one after the
/// other, where both can be read, and its result shows the results of both.
pub proof fn law_scripts_run_in_turn(m: Machine, a: Seq<char>, b: Seq<char>)
    requires
        trim(a).len() > 0,
        trim(b).len() > 0,
        script_of(a) is Ok,
        script_of(b) is Ok,
    ensures
        ({
            let (mid, first) = script_run(m, a);
            let (last, second) = script_run(mid, b);
            let (end, all) = script_run(m, a + seq![';'] + b);
            &&& first is Err ==> end == mid && all == first
            &&& first is Ok ==> end == last
            &&& first is Ok && second is Err ==> all == second
            &&& first is Ok && second is Ok ==> all is Ok
        }),
{
    law_scripts_in_turn(a, b);
    let (x, y) = (script_of(a)->Ok_0, script_of(b)->Ok_0);
    law_statements_in_turn(m, x, y, y.len() as int);
    assert((x + y).len() == x.len() + y.len());
}

/// A script that cannot be read does nothing.
pub proof fn law_unreadable_script(m: Machine, sql: Seq<char>)
    requires
        script_of(sql) is Err,
    ensures
        script_run(m, sql).0 == m,
        script_run(m, sql).1 is Err,
{
}

/// The lines that show results are those of each of them, one after the other.
pub proof fn law_results_in_turn(a: Seq<Reply>, b: Seq<Reply>)
    ensures
        replies_lines(a + b) == replies_lines(a) + replies_lines(b),
    decreases b.len(),
{
    if b.len() == 0 {
        assert(a + b =~= a);
        assert(replies_lines(a) + replies_lines(b) =~= replies_lines(a));
    } else {
        assert((a + b).drop_last() =~= a + b.drop_last());
        law_results_in_turn(a, b.drop_last());
        assert(replies_lines(a + b) =~= replies_lines(a) + replies_lines(b));
    }
}

/// The result of a query is shown in three lines and one for each row: the columns, then
/// below them the rows in their order, with bars between the cells.
pub proof fn law_result_shown(a: Answer, i: int)
    requires
        0 <= i < a.rows.len(),
    ensures
        reply_lines(Reply::SelectResult(a)).len() == a.rows.len() + 3,
        reply_lines(Reply::SelectResult(a))[1] == join(a.columns, " | "@),
        reply_lines(Reply::SelectResult(a))[i + 3] == join(a.rows[i], " | "@),
{
}

/// An insertion shows the id of the row at the end of its line.
pub proof fn law_insertion_shown(id: u64)
    ensures
        reply_lines(Reply::Inserted(id)).len() == 1,
        ends_with(reply_lines(Reply::Inserted(id))[0], show_nat(id as nat)),
{
    let s = reply_lines(Reply::Inserted(id))[0];
    let d = show_nat(id as nat);
    assert(s.subrange(s.len() - d.len(), s.len() as int) =~= d);
}

/// The numbers of rows that were deleted, updated or selected are shown.
pub proof fn law_counts_shown(n: usize, a: Answer)
    ensures
        exists|i: int|
            #[trigger] stands_at(reply_lines(Reply::Deleted(n))[0], show_nat(n as nat), i),
        exists|i: int|
            #[trigger] stands_at(reply_lines(Reply::Updated(n))[0], show_nat(n as nat), i),
        exists|i: int|
            #[trigger] stands_at(
                reply_lines(Reply::SelectResult(a))[0],
                show_nat(a.rows.len()),
                i,
            ),
{
    let d = show_nat(n as nat);
    let x = "删除成功，共 "@;
    let s = reply_lines(Reply::Deleted(n))[0];
    assert(s.subrange(x.len() as int, x.len() as int + d.len()) =~= d);
    assert(stands_at(s, d, x.len() as int));
    let y = "更新成功，共 "@;
    let t = reply_lines(Reply::Updated(n))[0];
    assert(t.subrange(y.len() as int, y.len() as int + d.len()) =~= d);
    assert(stands_at(t, d, y.len() as int));
    let z = "查询结果 ("@;
    let e = show_nat(a.rows.len());
    let u = reply_lines(Reply::SelectResult(a))[0];
    assert(u.subrange(z.len() as int, z.len() as int + e.len()) =~= e);
    assert(stands_at(u, e, z.len() as int));
}

} // verus!
