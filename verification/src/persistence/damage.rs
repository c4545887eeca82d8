//! What the checks on a snapshot find out, and what the log keeps and tells.

use vstd::prelude::*;
use vstd::utf8::encode_utf8;

use crate::number::hex_value;
use crate::number::law_read_shown_hex;
use crate::number::show_hex;
use crate::persistence::check::checksum_error;
use crate::persistence::check::first_line;
use crate::persistence::check::header_error;
use crate::persistence::check::lemma_hex_char;
use crate::persistence::check::lemma_last_line;
use crate::persistence::check::lemma_through_newline;
use crate::persistence::load::loaded;
use crate::persistence::wal::after_line;
use crate::persistence::wal::after_log;
use crate::persistence::wal::record_count;
use crate::persistence::wal::refusals;
use crate::persistence::wal::replayed;
use crate::persistence::wal::replayed_count;
use crate::persistence::wal::Log;
use crate::storage::checksum::law_checksum_one_byte;
use crate::storage::engine::Database;
use crate::storage::snapshot::checksum_line;
use crate::storage::snapshot::header;
use crate::storage::snapshot::text_checksum;
use crate::text::trim;
use crate::text::trim_end_kind;
use crate::text::CharKind;

verus! {

// ---------------------------------------------------------------------------
// Snapshots
// ---------------------------------------------------------------------------

/// A text with a line behind it that gives a checksum.
pub open spec fn with_checksum(body: Seq<char>, sum: u64) -> Seq<char> {
    body + ("# checksum "@ + show_hex(sum as nat, 16)) + seq!['\n']
}

/// A snapshot passes the check of its checksum exactly where the checksum in its last line is
/// that of the lines before it.
pub proof fn law_checksum_checked(body: Seq<char>, sum: u64)
    requires
        body.len() > 0,
        body.last() == '\n',
    ensures
        checksum_error(with_checksum(body, sum)) is None <==> text_checksum(body) == sum,
{
    reveal_strlit("# checksum ");
    let h = show_hex(sum as nat, 16);
    let c = "# checksum "@ + h;
    let s = with_checksum(body, sum);
    law_read_shown_hex(sum);
    assert forall|i: int| 0 <= i < c.len() implies c[i] != '\n' by {
        if i >= 11 {
            assert(c[i] == h[i - 11]);
            assert(hex_value(h[i - 11]) is Some);
        }
    }
    assert(c.last() == h[15]);
    assert(hex_value(h[15]) is Some);
    lemma_hex_char(h[15]);
    assert(hex_value(h[0]) is Some);
    lemma_hex_char(h[0]);
    lemma_last_line(body, c);
    assert(s =~= body + c + seq!['\n']);
    assert(trim(c) == c);
    assert(c.subrange(0, 11) =~= "# checksum "@);
    assert(c.skip(11) =~= h);
    assert(trim(h) == h);
    let k = CharKind::Space;
    assert(s.last() == '\n');
    assert(s.drop_last() =~= body + c);
    assert((body + c).last() == c.last());
    assert(trim_end_kind(body + c, k) == body + c);
    assert(trim_end_kind(s, k) == body + c);
    lemma_through_newline(body, c);
}

/// A snapshot of which a single byte before the checksum was altered is refused.
pub proof fn law_altered_byte_is_refused(body: Seq<char>, altered: Seq<char>, i: int)
    requires
        altered.len() > 0,
        altered.last() == '\n',
        encode_utf8(altered).len() == encode_utf8(body).len(),
        0 <= i < encode_utf8(body).len(),
        encode_utf8(altered)[i] != encode_utf8(body)[i],
        forall|j: int|
            0 <= j < encode_utf8(body).len() && j != i ==> encode_utf8(altered)[j] == encode_utf8(
                body,
            )[j],
    ensures
        checksum_error(altered + checksum_line(body) + seq!['\n']) is Some,
        loaded(altered + checksum_line(body) + seq!['\n']) is Err,
{
    let sum = text_checksum(body);
    law_checksum_checked(altered, sum);
    law_checksum_one_byte(encode_utf8(altered), encode_utf8(body), i);
    assert(altered + checksum_line(body) + seq!['\n'] =~= with_checksum(altered, sum));
}

/// A text is taken for a snapshot exactly where its first line is that of a snapshot of this
/// version; no other is loaded.
pub proof fn law_first_line_checked(s: Seq<char>)
    ensures
        header_error(s) is None <==> first_line(s) == header(),
        first_line(s) != header() ==> loaded(s) is Err,
        header() == "# ProbeDB state v1"@,
{
    reveal_strlit("# ProbeDB state v1");
    reveal_strlit("# ProbeDB state");
    assert(header().subrange(0, 15) =~= "# ProbeDB state"@);
}

// ---------------------------------------------------------------------------
// The log
// ---------------------------------------------------------------------------

/// Outside of batch mode a record is ready at once. In batch mode it is kept back, until as
/// many are kept back as the threshold says: then all are ready, in the order in which they
/// came. Without a threshold nothing is ready before it is flushed.
pub proof fn law_log_appended(l: Log, entry: Seq<char>)
    ensures
        !l.batch ==> l.appended(entry).ready == l.ready.push(entry) && l.appended(entry).pending
            == l.pending,
        l.batch && l.threshold == 0 ==> l.appended(entry).ready == l.ready && l.appended(
            entry,
        ).pending == l.pending.push(entry),
        l.batch && l.pending.len() + 1 < l.threshold ==> l.appended(entry).ready == l.ready
            && l.appended(entry).pending == l.pending.push(entry),
        l.batch && l.threshold > 0 && l.pending.len() + 1 >= l.threshold ==> l.appended(
            entry,
        ).pending.len() == 0 && l.appended(entry).ready == l.ready + l.pending.push(entry),
        l.threshold > 0 && l.pending.len() < l.threshold ==> l.appended(entry).pending.len()
            < l.threshold,
        l.appended(entry).batch == l.batch,
        l.appended(entry).threshold == l.threshold,
{
}

/// Entering batch mode makes nothing ready and leaving it makes everything ready; both are
/// told by the mode afterwards.
pub proof fn law_log_batched(l: Log)
    ensures
        l.batched(true).batch,
        !l.batched(false).batch,
        l.batched(true).ready == l.ready,
        l.batched(true).pending == l.pending,
        l.batched(false).pending.len() == 0,
        l.batched(false).ready == l.ready + l.pending,
        l.flushed().pending.len() == 0,
        l.flushed().ready == l.ready + l.pending,
        l.flushed().batch == l.batch,
{
}

/// Empty lines and comments of a log change nothing, nor does a record that cannot be
/// replayed.
pub proof fn law_no_record(db: Database, line: Seq<char>)
    ensures
        line.len() == 0 || line[0] == '#' ==> after_line(db, line) == db,
        line.len() > 0 && line[0] != '#' && replayed(db, line) is Err ==> after_line(db, line)
            == db,
        line.len() > 0 && line[0] != '#' && replayed(db, line) is Ok ==> after_line(db, line)
            == replayed(db, line)->Ok_0,
{
}

/// Every record of a log is either replayed or refused, and each that is refused is told
/// with the number of its line.
pub proof fn law_replay_told(db: Database, l: Seq<Seq<char>>, n: int)
    requires
        0 <= n <= l.len(),
    ensures
        replayed_count(db, l, n) + refusals(db, l, n).len() == record_count(l.take(n)),
        forall|k: int|
            0 <= k < refusals(db, l, n).len() ==> ({
                let r = #[trigger] refusals(db, l, n)[k];
                &&& 1 <= r.number <= n
                &&& r.line == l[r.number - 1]
                &&& r.line.len() > 0 && r.line[0] != '#'
                &&& replayed(after_log(db, l, r.number - 1), r.line) == Err::<
                    Database,
                    Seq<char>,
                >(r.error)
            }),
        forall|j: int, k: int|
            0 <= j < k < refusals(db, l, n).len() ==> (#[trigger] refusals(db, l, n)[j]).number
                < (#[trigger] refusals(db, l, n)[k]).number,
    decreases n,
{
    if n > 0 {
        law_replay_told(db, l, n - 1);
        assert(l.take(n).drop_last() =~= l.take(n - 1));
        assert(l.take(n).last() == l[n - 1]);
    }
}

} // verus!
