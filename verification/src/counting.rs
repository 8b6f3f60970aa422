//! The entries that work appends tell how many live entries it leaves.

use vstd::prelude::*;

use crate::active::{
    dsn_total, lemma_appended_twice, lemma_create_numbers, lemma_delete_numbers,
    lemma_joined_sums, lemma_numbers_twice, lemma_relocate_numbers, lemma_tells_nothing,
    lemma_write_numbers,
};
use crate::bytes::k80_of;
use crate::chain::{
    lemma_appended_reads, lemma_extended_reads, lemma_find_key, lemma_find_prev,
    lemma_parsed_lengths, lemma_scan_deleted,
};
use crate::compactor::CompactJob;
use crate::def::{OP_CREATE, OP_DELETE, OP_WRITE};
use crate::effects::{all_hashed, hashed};
use crate::entry::{dump, fits, parse, serialized_len, well_formed, EntryView};
use crate::error::UpdateError;
use crate::hash::sha256;
use crate::indexer::{
    adjacent_values, keyed_values, lemma_adjacent_values, lemma_keyed_values,
};
use crate::model::{record_of, Core, Db, DeleteScan, ProgressView, Store};
use crate::numbering::{
    lemma_compact_numbers, lemma_finish_op_numbers, lemma_run_ops_numbers, lemma_run_sets_numbers,
    lemma_settle_numbers,
};
use crate::tasks::{ChangeSet, Op, OpRecord};

verus! {

impl Db {
    /// The entry at the place `place`, if it can be read, stands under the index key of its
    /// key.
    pub open spec fn filed_at(self, place: (u128, i64)) -> bool {
        self.load(place.1) matches Ok(bz) ==> place.0 == k80_of(sha256(parse(bz).key))
    }

    /// The index is finite, live entries stand before the end of the log and under the index
    /// keys of their keys, and nothing is cached for places behind it.
    pub open spec fn filed(self) -> bool {
        &&& self.index.dom().finite()
        &&& forall|p: i64| #[trigger]
            self.cache.contains_key((self.shard_id, p)) ==> p < self.buffer.end
        &&& forall|a: (u128, i64)| #[trigger]
            self.live(a) ==> a.1 < self.buffer.end && self.filed_at(a)
    }

    /// The number of live entries has grown, on the way to `next`, by the number of entries
    /// that were appended less the number of serial numbers that they take out of use.
    pub open spec fn counts(self, next: Db) -> bool {
        let log = self.appended(next);
        next.index.dom().len() == self.index.dom().len() + log.len() - dsn_total(log)
    }
}

/// What was counted on to one database and from there on to another was counted on to that
/// one.
proof fn lemma_counts_twice(db: Db, mid: Db, next: Db)
    requires
        db.numbers(mid),
        mid.numbers(next),
        db.counts(mid),
        mid.counts(next),
    ensures
        db.counts(next),
{
    lemma_appended_twice(db, mid, next);
    lemma_joined_sums(db.appended(mid), mid.appended(next), Set::empty());
}

/// An entry that is appended stays filed, and so do the others.
proof fn lemma_filed_append(
    db: Db,
    next: Db,
    e: EntryView,
    dsns: Seq<u64>,
    place: (u128, i64),
    sn: u64,
)
    requires
        db.filed(),
        fits(e, dsns),
        db.buffer.has_room(serialized_len(e, dsns.len())),
        next.buffer == db.buffer.append(e, dsns),
        next.cache == db.cache,
        next.file == db.file,
        next.shard_id == db.shard_id,
        next.index == db.index.insert(place, sn),
        place == (k80_of(sha256(e.key)), db.buffer.end),
    ensures
        next.filed(),
        !db.live(place),
        next.index.dom().len() == db.index.dom().len() + 1,
        db.extended_by(next),
        next.buffer.end > db.buffer.end,
{
    lemma_appended_reads(db, next, e, dsns);
    assert(!db.cache.contains_key((db.shard_id, place.1)));
    assert(next.read(next.shard_id, place.1) == Some(dump(e, dsns)));
    assert(!db.live(place));
    assert forall|a: (u128, i64)| #[trigger] next.live(a) implies a.1 < next.buffer.end
        && next.filed_at(a) by {
        if a != place {
            assert(db.live(a));
            lemma_extended_reads(db, next, a.1);
        }
    }
    assert(next.index.dom() =~= db.index.dom().insert(place));
}

/// Without one live entry, the others stay filed.
proof fn lemma_filed_remove(db: Db, gone: (u128, i64))
    requires
        db.filed(),
        db.live(gone),
    ensures
        ({
            let next = Db { index: db.index.remove(gone), ..db };
            &&& next.filed()
            &&& next.index.dom().len() + 1 == db.index.dom().len()
        }),
{
    let next = Db { index: db.index.remove(gone), ..db };
    assert forall|a: (u128, i64)| #[trigger] next.live(a) implies a.1 < next.buffer.end
        && next.filed_at(a) by {
        assert(db.live(a));
        assert(next.read(next.shard_id, a.1) == db.read(db.shard_id, a.1));
    }
    assert(next.index.dom() =~= db.index.dom().remove(gone));
}

/// Where a live entry is replaced by one of the same key, the number of live entries stays
/// the same.
proof fn lemma_filed_replace(db: Db, next: Db, old: (u128, i64), e: EntryView, dsns: Seq<u64>)
    requires
        db.filed(),
        db.live(old),
        old.0 == k80_of(sha256(e.key)),
        fits(e, dsns),
        db.buffer.has_room(serialized_len(e, dsns.len())),
        next.buffer == db.buffer.append(e, dsns),
        next.cache == db.cache,
        next.file == db.file,
        next.shard_id == db.shard_id,
        next.index == db.index.remove(old).insert((old.0, db.buffer.end), e.serial_number),
    ensures
        next.filed(),
        next.index.dom().len() == db.index.dom().len(),
        db.extended_by(next),
        next.buffer.end > db.buffer.end,
{
    let mid = Db { index: db.index.remove(old), ..db };
    lemma_filed_remove(db, old);
    lemma_filed_append(mid, next, e, dsns, (old.0, db.buffer.end), e.serial_number);
    lemma_appended_reads(db, next, e, dsns);
}

proof fn lemma_write_counts(db: Db, key_hash: Seq<u8>, key: Seq<u8>, value: Seq<u8>, next: Db)
    requires
        db.filed(),
        db.write(key_hash, key, value) == Ok::<Db, UpdateError>(next),
    ensures
        next.filed(),
        db.counts(next),
{
    let places = keyed_values(db.index, k80_of(key_hash));
    lemma_keyed_values(db.index, k80_of(key_hash));
    lemma_find_key(db, places, key);
    let old = db.find_key(places, key)->Ok_0;
    assert(db.live(old.place));
    let dsns = seq![old.entry().serial_number];
    lemma_filed_replace(db, next, old.place, db.written(old, key, value), dsns);
    lemma_write_numbers(db, key_hash, key, value, next);
}

proof fn lemma_create_counts(
    db: Db,
    key_hash: Seq<u8>,
    key: Seq<u8>,
    value: Seq<u8>,
    rec: Option<&OpRecord>,
    next: Db,
)
    requires
        db.filed(),
        key_hash == sha256(key),
        key_hash.len() == 32,
        db.create(key_hash, key, value, rec) == Ok::<Db, UpdateError>(next),
    ensures
        next.filed(),
        db.counts(next),
{
    let places = adjacent_values(db.index, k80_of(key_hash));
    lemma_adjacent_values(db.index, k80_of(key_hash));
    lemma_find_prev(db, places, key_hash, rec);
    let prev = db.find_prev(places, key_hash, rec)->Ok_0;
    assert(db.live(prev.place));
    let none = Seq::<u64>::empty();
    let dsns = seq![prev.entry().serial_number];
    let e = db.created(prev, key, value);
    let c = db.prev_before_created(prev, key_hash);
    let n = (k80_of(key_hash), db.buffer.end);
    assert(fits(c, dsns)) by {
        lemma_parsed_lengths(prev.bz);
    }
    let mid = Db {
        buffer: db.buffer.append(e, none),
        index: db.index.insert(n, e.serial_number),
        ..db
    };
    lemma_appended_reads(db, mid, e, none);
    lemma_filed_append(db, mid, e, none, n, e.serial_number);
    assert(mid.live(prev.place));
    lemma_filed_replace(mid, next, prev.place, c, dsns);
    lemma_create_numbers(db, key_hash, key, value, rec, next);
}

proof fn lemma_delete_counts(
    db: Db,
    key_hash: Seq<u8>,
    key: Seq<u8>,
    rec: Option<&OpRecord>,
    next: Db,
)
    requires
        db.filed(),
        key_hash == sha256(key),
        db.delete(key_hash, key, rec) == Ok::<Db, UpdateError>(next),
    ensures
        next.filed(),
        db.counts(next),
{
    let places = adjacent_values(db.index, k80_of(key_hash));
    lemma_adjacent_values(db.index, k80_of(key_hash));
    let none = DeleteScan { deleted: None, prev: None };
    lemma_scan_deleted(db, places, key_hash, key, rec, none);
    let (deleted, prev) = db.find_deleted(places, key_hash, key, rec)->Ok_0;
    assert(db.live(deleted.place) && db.live(prev.place));
    assert(db.filed_at(deleted.place));
    assert(deleted.place == (k80_of(key_hash), deleted.place.1));
    let c = db.prev_without_deleted(deleted, prev);
    let dsns = Db::deleted_sns(deleted, prev);
    assert(fits(c, dsns)) by {
        lemma_parsed_lengths(deleted.bz);
        lemma_parsed_lengths(prev.bz);
    }
    assert(dsns.len() == 2);
    let mid = Db { index: db.index.remove(deleted.place), ..db };
    lemma_filed_remove(db, deleted.place);
    assert(mid.live(prev.place));
    assert(db.filed_at(prev.place));
    lemma_filed_replace(mid, next, prev.place, c, dsns);
    lemma_delete_numbers(db, key_hash, key, rec, next);
}

proof fn lemma_relocate_counts(
    db: Db,
    job: CompactJob,
    rec: Option<&OpRecord>,
    comp_idx: int,
    next: Db,
)
    requires
        db.filed(),
        well_formed(job.entry_bz@),
        db.live((k80_of(sha256(parse(job.entry_bz@).key)), job.old_pos)),
        db.relocate(job, sha256(parse(job.entry_bz@).key), rec, comp_idx) == Ok::<
            Db,
            UpdateError,
        >(next),
    ensures
        next.filed(),
        db.counts(next),
{
    let key_hash = sha256(parse(job.entry_bz@).key);
    let old = Db::job_entry(job, key_hash);
    let e = db.moved(old.entry());
    let dsns = seq![old.entry().serial_number];
    lemma_parsed_lengths(old.bz);
    let replaced = db.replace(old, e);
    lemma_filed_replace(db, replaced, old.place, e, dsns);
    lemma_filed_numbers_alike(replaced, next);
    lemma_relocate_numbers(db, job, key_hash, rec, comp_idx, next);
}

/// Whether entries are filed does not depend on the numbers of a database.
proof fn lemma_filed_numbers_alike(db: Db, next: Db)
    requires
        db.filed(),
        next.shard_id == db.shard_id,
        next.cache == db.cache,
        next.file == db.file,
        next.index == db.index,
        next.buffer.start == db.buffer.start,
        next.buffer.end == db.buffer.end,
        next.buffer.entries == db.buffer.entries,
    ensures
        next.filed(),
{
    assert forall|a: (u128, i64)| #[trigger] next.live(a) implies a.1 < next.buffer.end
        && next.filed_at(a) by {
        assert(db.live(a));
        assert(next.read(next.shard_id, a.1) == db.read(db.shard_id, a.1));
    }
}

/// A compaction leaves the number of live entries as it is, and what it appends says so.
pub proof fn lemma_compact_counts(store: Store, rec: Option<&OpRecord>, comp_idx: int)
    requires
        store.db.filed(),
    ensures
        ({
            let (next, _) = store.compact(rec, comp_idx);
            &&& next.db.filed()
            &&& store.db.counts(next.db)
            &&& next.db.shard_id == store.db.shard_id
        }),
    decreases store.jobs.len(),
{
    lemma_tells_nothing(store.db, store.db);
    if store.jobs.len() > 0 {
        let job = store.jobs[0];
        let key_hash = sha256(parse(job.entry_bz@).key);
        lemma_compact_counts(store.return_job(), rec, comp_idx);
        if well_formed(job.entry_bz@) && store.db.live((k80_of(key_hash), job.old_pos)) {
            match store.db.relocate(job, key_hash, rec, comp_idx) {
                Err(_) => {},
                Ok(db) => {
                    lemma_relocate_counts(store.db, job, rec, comp_idx, db);
                },
            }
        }
    }
}

/// The compactions that are owed count the live entries.
pub proof fn lemma_settle_counts(core: Core, rec: Option<&OpRecord>)
    requires
        core.store.db.filed(),
    ensures
        ({
            let next = core.settle(rec).0.store.db;
            &&& next.filed()
            &&& core.store.db.counts(next)
            &&& next.shard_id == core.store.db.shard_id
        }),
    decreases core.progress.owed_end - core.progress.owed_next,
{
    let p = core.progress;
    lemma_tells_nothing(core.store.db, core.store.db);
    if p.owed_next < p.owed_end {
        lemma_compact_counts(core.store, rec, p.owed_next);
        lemma_compact_numbers(core.store, rec, p.owed_next);
        let (store, res) = core.store.compact(rec, p.owed_next);
        if res is Ok {
            let stepped = Core {
                store,
                progress: ProgressView { owed_next: p.owed_next + 1, ..p },
                ..core
            };
            lemma_settle_counts(stepped, rec);
            lemma_settle_numbers(stepped, rec);
            lemma_counts_twice(core.store.db, store.db, stepped.settle(rec).0.store.db);
        }
    }
}

proof fn lemma_commit_counts(core: Core, db: Db, count: int, rec: Option<&OpRecord>)
    requires
        db.filed(),
        core.store.db.numbers(db),
        core.store.db.counts(db),
        db.shard_id == core.store.db.shard_id,
    ensures
        ({
            let next = core.commit(db, count, rec).0.store.db;
            &&& next.filed()
            &&& core.store.db.counts(next)
            &&& next.shard_id == core.store.db.shard_id
        }),
{
    let owed = if db.is_compactible() {
        count
    } else {
        0
    };
    let begun = core.with_db(db).with_progress(
        ProgressView { owed_next: 0, owed_end: owed, ..core.progress },
    );
    lemma_settle_counts(begun, rec);
    lemma_settle_numbers(begun, rec);
    lemma_counts_twice(core.store.db, db, begun.settle(rec).0.store.db);
}

/// An operation counts the live entries, with its compactions.
pub proof fn lemma_run_op_counts(core: Core, op: &Op)
    requires
        core.store.db.filed(),
        op.key_hash@ == sha256(op.key@),
    ensures
        ({
            let next = core.run_op(op).0.store.db;
            &&& next.filed()
            &&& core.store.db.counts(next)
            &&& next.shard_id == core.store.db.shard_id
        }),
{
    let db = core.store.db;
    let rec = record_of(op);
    lemma_tells_nothing(db, db);
    if core.active_info(rec) is Ok {
        if op.op_type == OP_WRITE {
            match db.write(op.key_hash@, op.key@, op.value@) {
                Err(_) => {},
                Ok(mid) => {
                    lemma_write_counts(db, op.key_hash@, op.key@, op.value@, mid);
                    lemma_write_numbers(db, op.key_hash@, op.key@, op.value@, mid);
                    lemma_commit_counts(core, mid, 1, rec);
                },
            }
        } else if op.op_type == OP_CREATE {
            match db.create(op.key_hash@, op.key@, op.value@, rec) {
                Err(_) => {},
                Ok(mid) => {
                    lemma_create_counts(db, op.key_hash@, op.key@, op.value@, rec, mid);
                    lemma_create_numbers(db, op.key_hash@, op.key@, op.value@, rec, mid);
                    lemma_commit_counts(core, mid, 2, rec);
                },
            }
        } else if op.op_type == OP_DELETE {
            match db.delete(op.key_hash@, op.key@, rec) {
                Err(_) => {},
                Ok(mid) => {
                    lemma_delete_counts(db, op.key_hash@, op.key@, rec, mid);
                },
            }
        }
    }
}

/// Operations count the live entries.
pub proof fn lemma_run_ops_counts(core: Core, ops: Seq<Op>)
    requires
        core.store.db.filed(),
        hashed(ops),
    ensures
        ({
            let next = core.run_ops(ops).0.store.db;
            &&& next.filed()
            &&& core.store.db.counts(next)
            &&& next.shard_id == core.store.db.shard_id
        }),
    decreases ops.len() - core.progress.op_idx,
{
    let i = core.progress.op_idx;
    lemma_tells_nothing(core.store.db, core.store.db);
    if 0 <= i < ops.len() {
        let op = &ops[i];
        lemma_run_op_counts(core, op);
        lemma_settle_counts(core, record_of(op));
        let (mid, res) = core.finish_op(op);
        if res is Ok {
            let stepped = mid.with_progress(ProgressView { op_idx: i + 1, ..mid.progress });
            lemma_run_ops_counts(stepped, ops);
            lemma_finish_op_numbers(core, op);
            lemma_run_ops_numbers(stepped, ops);
            lemma_counts_twice(core.store.db, mid.store.db, stepped.run_ops(ops).0.store.db);
        }
    }
}

/// Change sets count the live entries.
pub proof fn lemma_run_sets_counts(core: Core, sets: Seq<ChangeSet>)
    requires
        core.store.db.filed(),
        all_hashed(sets),
    ensures
        ({
            let next = core.run_sets(sets).0.store.db;
            &&& next.filed()
            &&& core.store.db.counts(next)
            &&& next.shard_id == core.store.db.shard_id
        }),
    decreases sets.len() - core.progress.set_idx,
{
    let i = core.progress.set_idx;
    lemma_tells_nothing(core.store.db, core.store.db);
    if 0 <= i < sets.len() {
        assert(hashed(sets[i].ops@));
        lemma_run_ops_counts(core, sets[i].ops@);
        lemma_run_ops_numbers(core, sets[i].ops@);
        let (mid, res) = core.run_ops(sets[i].ops@);
        let db = mid.store.db;
        if res is Ok && db.curr_version < i64::MAX {
            let stepped_db = Db { curr_version: (db.curr_version + 1) as i64, ..db };
            let stepped = mid.with_db(stepped_db).with_progress(
                ProgressView { set_idx: i + 1, op_idx: 0, ..mid.progress },
            );
            lemma_filed_numbers_alike(db, stepped_db);
            lemma_run_sets_counts(stepped, sets);
            lemma_run_sets_numbers(stepped, sets);
            lemma_tells_nothing(db, stepped_db);
            lemma_counts_twice(core.store.db, db, stepped_db);
            lemma_numbers_twice(core.store.db, db, stepped_db);
            lemma_counts_twice(core.store.db, stepped_db, stepped.run_sets(sets).0.store.db);
        }
    }
}

/// A task counts the live entries, compactions included: their number grows by the number
/// of entries that the task appends less the number of serial numbers that these take out
/// of use. This holds however the task ends, and whether it begins or goes on, of every
/// store whose live entries are filed under the index keys of their keys when the task's
/// cache is in place; where a key is filed elsewhere, to delete it removes another place.
pub proof fn lemma_run_task_counts(core: Core, task_id: i64)
    requires
        core.tasks.contains_key(task_id),
        all_hashed(core.tasks[task_id].change_sets@),
        core.progress.task is None ==> core.begin(task_id).store.db.filed(),
        core.progress.task is Some ==> core.store.db.filed(),
    ensures
        core.store.db.counts(core.run_task(task_id).0.store.db),
{
    let db = core.store.db;
    lemma_tells_nothing(db, db);
    let begun = if core.progress.task is None {
        core.begin(task_id)
    } else {
        core
    };
    let sets = core.tasks[task_id].change_sets@;
    lemma_run_sets_counts(begun, sets);
    lemma_run_sets_numbers(begun, sets);
    let (done, _) = begun.run_sets(sets);
    let end = done.end(core.tasks[task_id].end_block);
    lemma_tells_nothing(db, begun.store.db);
    lemma_counts_twice(db, begun.store.db, done.store.db);
    lemma_numbers_twice(db, begun.store.db, done.store.db);
    lemma_tells_nothing(done.store.db, end.store.db);
    lemma_counts_twice(db, done.store.db, end.store.db);
}

} // verus!
