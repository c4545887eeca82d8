//! Loading a database: the snapshot is checked and read, and the log is replayed on it.

use vstd::prelude::*;

use super::check::checksum_error;
use super::check::header_error;
use super::check::validate_checksum;
use super::check::validate_header;
use super::wal::after_log;
use super::wal::refusal_views;
use super::wal::refusals;
use super::wal::replay;
use super::wal::replayed_count;
use super::wal::Replay;
use crate::storage::engine::Database;
use crate::storage::engine::StorageEngine;
use crate::storage::snapshot::imported;
use crate::text::lines;

verus! {

/// The database that a snapshot holds, or what is wrong with it.
pub open spec fn loaded(s: Seq<char>) -> Result<Database, Seq<char>> {
    match (header_error(s), checksum_error(s), imported(s).1) {
        (Some(e), _, _) => Err(e),
        (None, Some(e), _) => Err(e),
        (None, None, Some(e)) => Err(e),
        (None, None, None) => Ok(imported(s).0),
    }
}

/// An engine or an error, by its view.
pub open spec fn engine_result(r: Result<StorageEngine, String>) -> Result<Database, Seq<char>> {
    match r {
        Ok(engine) => Ok(engine@),
        Err(e) => Err(e@),
    }
}

/// Reads a snapshot. One that is empty, of another kind or version, or changed since it
/// was written is refused.
pub fn load(state: &str) -> (r: Result<StorageEngine, String>)
    ensures
        engine_result(r) == loaded(state@),
        r is Ok ==> r->Ok_0.wf(),
{
    match validate_header(state) {
        Ok(_) => {},
        Err(e) => {
            return Err(e);
        },
    }
    match validate_checksum(state) {
        Ok(_) => {},
        Err(e) => {
            return Err(e);
        },
    }
    let mut engine = StorageEngine::new();
    match engine.import_state(state) {
        Ok(_) => Ok(engine),
        Err(e) => Err(e),
    }
}

/// The database after a crash: the log, replayed on what the snapshot holds.
pub open spec fn recovered(snapshot: Seq<char>, log: Seq<char>) -> Result<Database, Seq<char>> {
    match loaded(snapshot) {
        Ok(db) => Ok(after_log(db, lines(log), lines(log).len() as int)),
        Err(e) => Err(e),
    }
}

/// Reads a snapshot and replays a log on it.
pub fn recover(snapshot: &str, log: &str) -> (r: Result<(StorageEngine, Replay), String>)
    ensures
        match r {
            Ok((engine, done)) => {
                let db = loaded(snapshot@)->Ok_0;
                let l = lines(log@);
                &&& loaded(snapshot@) is Ok
                &&& engine.wf()
                &&& recovered(snapshot@, log@) == Ok::<Database, Seq<char>>(engine@)
                &&& done.replayed == replayed_count(db, l, l.len() as int)
                &&& refusal_views(done.skipped@) == refusals(db, l, l.len() as int)
            },
            Err(e) => loaded(snapshot@) == Err::<Database, Seq<char>>(e@),
        },
{
    match load(snapshot) {
        Ok(mut engine) => {
            let done = replay(log, &mut engine);
            Ok((engine, done))
        },
        Err(e) => Err(e),
    }
}

} // verus!
