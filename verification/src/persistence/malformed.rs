//! What is refused in logs and snapshots.

use vstd::prelude::*;

use crate::decimal::read_double;
use crate::number::read_i64;
use crate::number::read_nat;
use crate::persistence::wal::has_row;
use crate::persistence::wal::replayed;
use crate::storage::codec::fields;
use crate::storage::codec::value_coded;
use crate::storage::engine::Database;
use crate::storage::snapshot::import_line;
use crate::storage::snapshot::import_lines;
use crate::storage::snapshot::values_coded;
use crate::types::date_of;
use crate::types::time_of;
use crate::types::Datum;
use crate::values::lemma_no_prefix;
use crate::values::lemma_prefix;

verus! {

/// A record with an unknown code, with too few fields, without a readable id where it needs
/// one, or for a table that there is not, cannot be replayed.
pub proof fn law_record_refused(db: Database, line: Seq<char>)
    ensures
        ({
            let p = fields(line);
            let op = p[0];
            &&& op != "T"@ && op != "I"@ && op != "D"@ && op != "U"@ && op != "DROP"@ ==> replayed(
                db,
                line,
            ) is Err
            &&& op == "T"@ && p.len() < 3 ==> replayed(db, line) is Err
            &&& op == "I"@ && p.len() < 4 ==> replayed(db, line) is Err
            &&& op == "D"@ && p.len() < 3 ==> replayed(db, line) is Err
            &&& op == "U"@ && p.len() < 5 ==> replayed(db, line) is Err
            &&& op == "DROP"@ && p.len() < 2 ==> replayed(db, line) is Err
            &&& (op == "I"@ || op == "D"@ || op == "U"@) && read_nat(p[2], u64::MAX as nat)
                is None ==> replayed(db, line) is Err
            &&& (op == "I"@ || op == "D"@ || op == "U"@) && !db.has(p[1]) ==> replayed(
                db,
                line,
            ) is Err
            &&& op == "U"@ && read_nat(p[3], usize::MAX as nat) is None ==> replayed(db, line)
                is Err
            &&& op == "U"@ && value_coded(p[4]) is Err ==> replayed(db, line) is Err
            &&& op == "I"@ && values_coded(p.skip(3)) is Err ==> replayed(db, line) is Err
        }),
{
    lemma_codes();
}

proof fn lemma_codes()
    ensures
        "T"@ != "I"@ && "T"@ != "D"@ && "T"@ != "U"@ && "T"@ != "DROP"@,
        "I"@ != "D"@ && "I"@ != "U"@ && "I"@ != "DROP"@,
        "D"@ != "U"@ && "D"@ != "DROP"@,
        "U"@ != "DROP"@,
        "SCHEMA"@ != "ROW"@ && "SCHEMA"@ != "NEXTID"@ && "ROW"@ != "NEXTID"@,
{
    reveal_strlit("T");
    reveal_strlit("I");
    reveal_strlit("D");
    reveal_strlit("U");
    reveal_strlit("DROP");
    reveal_strlit("SCHEMA");
    reveal_strlit("ROW");
    reveal_strlit("NEXTID");
    assert("T"@[0] == 'T' && "I"@[0] == 'I' && "D"@[0] == 'D' && "U"@[0] == 'U');
    assert("D"@.len() == 1 && "DROP"@.len() == 4 && "T"@.len() == 1 && "I"@.len() == 1 && "U"@.len()
        == 1);
    assert("SCHEMA"@[0] == 'S' && "ROW"@[0] == 'R' && "NEXTID"@[0] == 'N');
}

/// A record that has been replayed does nothing more: a table that is there is not made
/// again, a table that is gone is not dropped again, and a row whose id is there is not put
/// in again.
pub proof fn law_record_done(db: Database, line: Seq<char>)
    requires
        replayed(db, line) is Ok,
    ensures
        ({
            let p = fields(line);
            &&& p[0] == "T"@ && db.has(p[1]) ==> replayed(db, line)->Ok_0 == db
            &&& p[0] == "DROP"@ && !db.has(p[1]) ==> replayed(db, line)->Ok_0 == db
            &&& p[0] == "I"@ && has_row(
                db.table(p[1]).rows,
                read_nat(p[2], u64::MAX as nat)->0 as u64,
            ) ==> replayed(db, line)->Ok_0 == db
        }),
{
    lemma_codes();
}

/// Empty lines and comments of a snapshot are passed over. A line of an unknown kind, with
/// too few fields, or without a readable id where it needs one, is refused, and so is a row
/// of a table that there is not; such a line changes nothing.
pub proof fn law_line_refused(db: Database, n: nat, line: Seq<char>)
    ensures
        line.len() == 0 || line[0] == '#' ==> import_line(db, n, line) == (
            db,
            None::<Seq<char>>,
        ),
        line.len() > 0 && line[0] != '#' ==> {
            let p = fields(line);
            let kind = p[0];
            &&& kind != "SCHEMA"@ && kind != "ROW"@ && kind != "NEXTID"@ ==> import_line(
                db,
                n,
                line,
            ).1 is Some
            &&& kind == "SCHEMA"@ && p.len() < 3 ==> import_line(db, n, line).1 is Some
            &&& kind == "ROW"@ && p.len() < 4 ==> import_line(db, n, line).1 is Some
            &&& kind == "NEXTID"@ && p.len() < 2 ==> import_line(db, n, line).1 is Some
            &&& kind == "ROW"@ && read_nat(p[2], u64::MAX as nat) is None ==> import_line(
                db,
                n,
                line,
            ).1 is Some
            &&& kind == "ROW"@ && !db.has(p[1]) ==> import_line(db, n, line).1 is Some
            &&& kind == "NEXTID"@ && read_nat(p[1], u64::MAX as nat) is None ==> import_line(
                db,
                n,
                line,
            ).1 is Some
        },
        import_line(db, n, line).1 is Some ==> import_line(db, n, line).0 == db,
{
    lemma_codes();
}

/// A snapshot is read up to the first line that is refused: what stands behind it does not
/// matter.
pub proof fn law_import_stops(db: Database, a: Seq<Seq<char>>, b: Seq<Seq<char>>, i: int)
    requires
        0 <= i <= a.len(),
    ensures
        import_lines(db, a, i).1 is Some ==> import_lines(db, a + b, i) == import_lines(db, a, i),
        import_lines(db, a, i).1 is None ==> import_lines(db, a + b, i) == import_lines(
            import_lines(db, a, i).0,
            a + b,
            a.len() as int,
        ),
    decreases a.len() - i,
{
    if i < a.len() {
        assert((a + b)[i] == a[i]);
        let (next, e) = import_line(db, (i + 1) as nat, a[i]);
        if e is None {
            law_import_stops(next, a, b, i + 1);
        }
    }
}

proof fn lemma_tags()
    ensures
        "INT:"@ == seq!['I', 'N', 'T', ':'],
        "FLOAT:"@ == seq!['F', 'L', 'O', 'A', 'T', ':'],
        "TEXT:"@ == seq!['T', 'E', 'X', 'T', ':'],
        "BOOL:"@ == seq!['B', 'O', 'O', 'L', ':'],
        "DATE:"@ == seq!['D', 'A', 'T', 'E', ':'],
        "TIME:"@ == seq!['T', 'I', 'M', 'E', ':'],
        "VEC:"@ == seq!['V', 'E', 'C', ':'],
{
    reveal_strlit("INT:");
    reveal_strlit("FLOAT:");
    reveal_strlit("TEXT:");
    reveal_strlit("BOOL:");
    reveal_strlit("DATE:");
    reveal_strlit("TIME:");
    reveal_strlit("VEC:");
    assert("INT:"@ =~= seq!['I', 'N', 'T', ':']);
    assert("FLOAT:"@ =~= seq!['F', 'L', 'O', 'A', 'T', ':']);
    assert("TEXT:"@ =~= seq!['T', 'E', 'X', 'T', ':']);
    assert("BOOL:"@ =~= seq!['B', 'O', 'O', 'L', ':']);
    assert("DATE:"@ =~= seq!['D', 'A', 'T', 'E', ':']);
    assert("TIME:"@ =~= seq!['T', 'I', 'M', 'E', ':']);
    assert("VEC:"@ =~= seq!['V', 'E', 'C', ':']);
}

/// A stored value is read by its tag: a whole number where it is one that fits, a number
/// where it is one, `true` or `false` and nothing else as a boolean, and a date or a time
/// that there is.
pub proof fn law_value_coded(t: Seq<char>)
    ensures
        value_coded("INT:"@ + t) is Ok <==> read_i64(t) is Some,
        read_i64(t) matches Some(n) ==> value_coded("INT:"@ + t) == Ok::<Datum, Seq<char>>(
            Datum::Integer(n),
        ),
        value_coded("FLOAT:"@ + t) is Ok <==> read_double(t) is Some,
        read_double(t) matches Some(x) ==> value_coded("FLOAT:"@ + t) == Ok::<Datum, Seq<char>>(
            Datum::Float(x),
        ),
        value_coded("TEXT:"@ + t) is Ok,
        value_coded("TEXT:"@ + t)->Ok_0 is Text,
        value_coded("BOOL:"@ + t) is Ok <==> t == "true"@ || t == "false"@,
        t == "true"@ ==> value_coded("BOOL:"@ + t) == Ok::<Datum, Seq<char>>(Datum::Boolean(true)),
        t == "false"@ ==> value_coded("BOOL:"@ + t) == Ok::<Datum, Seq<char>>(
            Datum::Boolean(false),
        ),
        value_coded("DATE:"@ + t) is Ok <==> date_of(t) is Ok,
        date_of(t) matches Ok(d) ==> value_coded("DATE:"@ + t) == Ok::<Datum, Seq<char>>(
            Datum::Date(d),
        ),
        value_coded("TIME:"@ + t) is Ok <==> time_of(t) is Ok,
        time_of(t) matches Ok(d) ==> value_coded("TIME:"@ + t) == Ok::<Datum, Seq<char>>(
            Datum::Time(d),
        ),
{
    lemma_tags();
    reveal_strlit("true");
    reveal_strlit("false");
    assert("true"@.len() != "false"@.len());
    lemma_prefix("INT:"@, t);
    assert(("INT:"@ + t).skip(4) =~= t);
    lemma_prefix("FLOAT:"@, t);
    lemma_no_prefix("FLOAT:"@, t, "INT:"@, 0);
    assert(("FLOAT:"@ + t).skip(6) =~= t);
    lemma_prefix("TEXT:"@, t);
    lemma_no_prefix("TEXT:"@, t, "INT:"@, 0);
    lemma_no_prefix("TEXT:"@, t, "FLOAT:"@, 0);
    lemma_prefix("BOOL:"@, t);
    lemma_no_prefix("BOOL:"@, t, "INT:"@, 0);
    lemma_no_prefix("BOOL:"@, t, "FLOAT:"@, 0);
    lemma_no_prefix("BOOL:"@, t, "TEXT:"@, 0);
    assert(("BOOL:"@ + t).skip(5) =~= t);
    lemma_prefix("DATE:"@, t);
    lemma_no_prefix("DATE:"@, t, "INT:"@, 0);
    lemma_no_prefix("DATE:"@, t, "FLOAT:"@, 0);
    lemma_no_prefix("DATE:"@, t, "TEXT:"@, 0);
    lemma_no_prefix("DATE:"@, t, "BOOL:"@, 0);
    assert(("DATE:"@ + t).skip(5) =~= t);
    lemma_prefix("TIME:"@, t);
    lemma_no_prefix("TIME:"@, t, "INT:"@, 0);
    lemma_no_prefix("TIME:"@, t, "FLOAT:"@, 0);
    lemma_no_prefix("TIME:"@, t, "TEXT:"@, 1);
    lemma_no_prefix("TIME:"@, t, "BOOL:"@, 0);
    lemma_no_prefix("TIME:"@, t, "DATE:"@, 0);
    assert(("TIME:"@ + t).skip(5) =~= t);
}

} // verus!
