//! What the updater does, as functions on mathematical values.

use vstd::prelude::*;

use crate::buffer::{BufferView, EndBlock};
use crate::bytes::{bytes_before, k80_of};
use crate::cache::CacheView;
use crate::compactor::CompactJob;
use crate::compare::{
    dig_entry_agrees, new_entry_agrees, num_active_agrees, old_entry_agrees, prev_changed_agrees,
    prev_entry_agrees, put_entry_agrees, sn_start_agrees,
};
use crate::def::{
    compactible, DEFAULT_ENTRY_SIZE, IN_BLOCK_IDX_MASK, OP_CREATE, OP_DELETE, OP_READ, OP_WRITE,
};
use crate::entry::{fits, parse, serialized_len, well_formed, zeros, EntryView};
use crate::error::UpdateError;
use crate::file::{file_entry, file_has_entry};
use crate::hash::sha256;
use crate::indexer::{adjacent_values, keyed_values, IndexView};
use crate::tasks::{ChangeSet, Op, OpRecord, Task};

verus! {

/// The bytes of an entry as they come out of the entry file: it is read into
/// `DEFAULT_ENTRY_SIZE` bytes, and what lies beyond them is read as zeros.
pub open spec fn clipped(b: Seq<u8>) -> Seq<u8> {
    if b.len() <= DEFAULT_ENTRY_SIZE {
        b
    } else {
        b.take(DEFAULT_ENTRY_SIZE as int) + zeros((b.len() - DEFAULT_ENTRY_SIZE) as nat)
    }
}

/// An entry's bytes, with the index key and the position under which it was found.
#[verifier::ext_equal]
pub struct Located {
    pub place: (u128, i64),
    pub bz: Seq<u8>,
}

impl Located {
    pub open spec fn entry(self) -> EntryView {
        parse(self.bz)
    }
}

/// What a walk along the places next to a deleted key has found.
#[verifier::ext_equal]
pub struct DeleteScan {
    /// The entry of the deleted key.
    pub deleted: Option<Located>,
    /// The entry that names the deleted key as the next one.
    pub prev: Option<Located>,
}

/// `key_hash` lies strictly between the hash of an entry's key and the hash that the
/// entry names as the next one.
pub open spec fn between(prev_hash: Seq<u8>, key_hash: Seq<u8>, next_hash: Seq<u8>) -> bool {
    bytes_before(prev_hash, key_hash) && bytes_before(key_hash, next_hash)
}

/// The log, the index, and the numbers that go into new entries.
#[verifier::ext_equal]
pub struct Db {
    pub shard_id: usize,
    pub cache: CacheView,
    pub buffer: BufferView,
    pub file: Seq<u8>,
    pub index: IndexView,
    pub curr_version: i64,
    pub sn_start: u64,
    pub sn_end: u64,
    pub compact_done_pos: i64,
    pub utilization_div: i64,
    pub utilization_ratio: i64,
    pub compact_thres: i64,
    pub check_rec: bool,
}

impl Db {
    /// The bytes of the entry at `pos`: from the cache, else from the buffer, else,
    /// before the buffer, from the file.
    pub open spec fn read(self, shard_id: usize, pos: i64) -> Option<Seq<u8>> {
        if self.cache.contains_key((shard_id, pos)) {
            Some(self.cache[(shard_id, pos)])
        } else if self.buffer.entries.contains_key(pos) {
            Some(self.buffer.entries[pos])
        } else if pos < self.buffer.start && file_has_entry(self.file, pos) {
            Some(clipped(file_entry(self.file, pos)))
        } else {
            None
        }
    }

    /// The bytes of the whole entry at `pos`.
    pub open spec fn load(self, pos: i64) -> Result<Seq<u8>, UpdateError> {
        match self.read(self.shard_id, pos) {
            Some(bz) => if well_formed(bz) {
                Ok(bz)
            } else {
                Err(UpdateError::MalformedEntry)
            },
            None => Err(UpdateError::CannotReadEntry),
        }
    }

    pub open spec fn is_compactible(self) -> bool {
        compactible(
            self.utilization_div,
            self.utilization_ratio,
            self.compact_thres,
            self.index.dom().len(),
            self.sn_start,
            self.sn_end,
        )
    }

    /// `count` serial numbers and `bytes` bytes of the log can be used up.
    pub open spec fn room(self, count: int, bytes: int) -> Result<(), UpdateError> {
        if self.sn_end + count > u64::MAX {
            Err(UpdateError::SerialNumberOverflow)
        } else if !self.buffer.has_room(bytes) {
            Err(UpdateError::FilePositionOverflow)
        } else {
            Ok(())
        }
    }

    /// A new entry, under the current version and the serial number that is `ahead` of
    /// the next one.
    pub open spec fn entry(
        self,
        key: Seq<u8>,
        value: Seq<u8>,
        next_key_hash: Seq<u8>,
        ahead: int,
    ) -> EntryView {
        EntryView {
            key,
            value,
            next_key_hash,
            version: self.curr_version,
            serial_number: (self.sn_end + ahead) as u64,
        }
    }

    // ---- write ----

    /// The first of `places` whose entry has the key `key`.
    pub open spec fn find_key(self, places: Seq<(u128, i64)>, key: Seq<u8>) -> Result<
        Located,
        UpdateError,
    >
        decreases places.len(),
    {
        if places.len() == 0 {
            Err(UpdateError::WriteToNonExistKey)
        } else {
            match self.load(places[0].1) {
                Err(e) => Err(e),
                Ok(bz) => if parse(bz).key == key {
                    Ok(Located { place: places[0], bz })
                } else {
                    self.find_key(places.skip(1), key)
                },
            }
        }
    }

    /// The entry that replaces `old` when its key gets the value `value`.
    pub open spec fn written(self, old: Located, key: Seq<u8>, value: Seq<u8>) -> EntryView {
        self.entry(key, value, old.entry().next_key_hash, 0)
    }

    /// Puts the entry `e` in the place of `old`.
    pub open spec fn replace(self, old: Located, e: EntryView) -> Db {
        Db {
            buffer: self.buffer.append(e, seq![old.entry().serial_number]),
            index: self.index.remove(old.place).insert(
                (old.place.0, self.buffer.end),
                e.serial_number,
            ),
            sn_end: (self.sn_end + 1) as u64,
            ..self
        }
    }

    /// Replaces `old` by an entry with the value `value`.
    pub open spec fn write_over(self, old: Located, key: Seq<u8>, value: Seq<u8>) -> Result<
        Db,
        UpdateError,
    > {
        let e = self.written(old, key, value);
        if !fits(e, seq![old.entry().serial_number]) {
            Err(UpdateError::EntryTooLong)
        } else {
            match self.room(1, serialized_len(e, 1)) {
                Err(err) => Err(err),
                Ok(_) => Ok(self.replace(old, e)),
            }
        }
    }

    /// Gives the key `key`, which must exist, the value `value`.
    pub open spec fn write(self, key_hash: Seq<u8>, key: Seq<u8>, value: Seq<u8>) -> Result<
        Db,
        UpdateError,
    > {
        match self.find_key(keyed_values(self.index, k80_of(key_hash)), key) {
            Err(e) => Err(e),
            Ok(old) => self.write_over(old, key, value),
        }
    }

    // ---- create ----

    /// The first of `places` whose entry lies around `key_hash`.
    pub open spec fn find_prev(
        self,
        places: Seq<(u128, i64)>,
        key_hash: Seq<u8>,
        rec: Option<&OpRecord>,
    ) -> Result<Located, UpdateError>
        decreases places.len(),
    {
        if places.len() == 0 {
            Err(UpdateError::PrevKeyNotFound)
        } else {
            match self.load(places[0].1) {
                Err(e) => Err(e),
                Ok(bz) => if between(sha256(parse(bz).key), key_hash, parse(bz).next_key_hash) {
                    if self.check_rec && !prev_entry_agrees(rec, bz) {
                        Err(UpdateError::ComparePrevEntry)
                    } else {
                        Ok(Located { place: places[0], bz })
                    }
                } else {
                    self.find_prev(places.skip(1), key_hash, rec)
                },
            }
        }
    }

    /// The entry of a new key behind `prev`.
    pub open spec fn created(self, prev: Located, key: Seq<u8>, value: Seq<u8>) -> EntryView {
        self.entry(key, value, prev.entry().next_key_hash, 0)
    }

    /// What `prev` becomes when a key with the hash `key_hash` is put behind it.
    pub open spec fn prev_before_created(self, prev: Located, key_hash: Seq<u8>) -> EntryView {
        self.entry(prev.entry().key, prev.entry().value, key_hash, 1)
    }

    /// Puts a new key between `prev` and the key that `prev` names as the next one.
    pub open spec fn insert(
        self,
        prev: Located,
        key_hash: Seq<u8>,
        key: Seq<u8>,
        value: Seq<u8>,
    ) -> Db {
        let e = self.created(prev, key, value);
        let p = self.prev_before_created(prev, key_hash);
        let mid = self.buffer.append(e, Seq::empty());
        Db {
            buffer: mid.append(p, seq![prev.entry().serial_number]),
            index: self.index.insert(
                (k80_of(key_hash), self.buffer.end),
                e.serial_number,
            ).remove(prev.place).insert((prev.place.0, mid.end), p.serial_number),
            sn_end: (self.sn_end + 2) as u64,
            ..self
        }
    }

    /// Puts a new key behind `prev`.
    pub open spec fn insert_after(
        self,
        prev: Located,
        key_hash: Seq<u8>,
        key: Seq<u8>,
        value: Seq<u8>,
        rec: Option<&OpRecord>,
    ) -> Result<Db, UpdateError> {
        let e = self.created(prev, key, value);
        let p = self.prev_before_created(prev, key_hash);
        if !fits(e, Seq::empty()) {
            Err(UpdateError::EntryTooLong)
        } else {
            match self.room(2, serialized_len(e, 0) + serialized_len(p, 1)) {
                Err(err) => Err(err),
                Ok(_) => if self.check_rec && !new_entry_agrees(rec, e, Seq::empty()) {
                    Err(UpdateError::CompareNewEntry)
                } else if self.check_rec && !prev_changed_agrees(
                    rec,
                    p,
                    seq![prev.entry().serial_number],
                ) {
                    Err(UpdateError::ComparePrevChanged)
                } else {
                    Ok(self.insert(prev, key_hash, key, value))
                },
            }
        }
    }

    /// Adds the key `key`, whose hash no key may have.
    pub open spec fn create(
        self,
        key_hash: Seq<u8>,
        key: Seq<u8>,
        value: Seq<u8>,
        rec: Option<&OpRecord>,
    ) -> Result<Db, UpdateError> {
        match self.find_prev(adjacent_values(self.index, k80_of(key_hash)), key_hash, rec) {
            Err(e) => Err(e),
            Ok(prev) => self.insert_after(prev, key_hash, key, value, rec),
        }
    }

    // ---- delete ----

    /// Walks along `places` until the entry with the key `key`, and another entry that
    /// names `key_hash` as the next one, have been found.
    pub open spec fn scan_deleted(
        self,
        places: Seq<(u128, i64)>,
        key_hash: Seq<u8>,
        key: Seq<u8>,
        rec: Option<&OpRecord>,
        found: DeleteScan,
    ) -> Result<DeleteScan, UpdateError>
        decreases places.len(),
    {
        if places.len() == 0 || (found.deleted is Some && found.prev is Some) {
            Ok(found)
        } else {
            match self.load(places[0].1) {
                Err(e) => Err(e),
                Ok(bz) => {
                    let here = Some(Located { place: places[0], bz });
                    if found.deleted is None && parse(bz).key == key {
                        if self.check_rec && !old_entry_agrees(rec, bz) {
                            Err(UpdateError::CompareOldEntry)
                        } else {
                            self.scan_deleted(
                                places.skip(1),
                                key_hash,
                                key,
                                rec,
                                DeleteScan { deleted: here, ..found },
                            )
                        }
                    } else if found.prev is None && parse(bz).next_key_hash == key_hash {
                        if self.check_rec && !prev_entry_agrees(rec, bz) {
                            Err(UpdateError::ComparePrevEntry)
                        } else {
                            self.scan_deleted(
                                places.skip(1),
                                key_hash,
                                key,
                                rec,
                                DeleteScan { prev: here, ..found },
                            )
                        }
                    } else {
                        self.scan_deleted(places.skip(1), key_hash, key, rec, found)
                    }
                },
            }
        }
    }

    /// The entry with the key `key`, and the entry before it.
    pub open spec fn find_deleted(
        self,
        places: Seq<(u128, i64)>,
        key_hash: Seq<u8>,
        key: Seq<u8>,
        rec: Option<&OpRecord>,
    ) -> Result<(Located, Located), UpdateError> {
        match self.scan_deleted(
            places,
            key_hash,
            key,
            rec,
            DeleteScan { deleted: None, prev: None },
        ) {
            Err(e) => Err(e),
            Ok(found) => match found.deleted {
                None => Err(UpdateError::DeleteNonExistKey),
                Some(deleted) => match found.prev {
                    None => Err(UpdateError::PrevEntryNotFound),
                    Some(prev) => Ok((deleted, prev)),
                },
            },
        }
    }

    /// What `prev` becomes when `deleted`, which comes behind it, goes away.
    pub open spec fn prev_without_deleted(self, deleted: Located, prev: Located) -> EntryView {
        self.entry(prev.entry().key, prev.entry().value, deleted.entry().next_key_hash, 0)
    }

    /// The serial numbers that go out of use when `deleted` goes away.
    pub open spec fn deleted_sns(deleted: Located, prev: Located) -> Seq<u64> {
        seq![deleted.entry().serial_number, prev.entry().serial_number]
    }

    /// Takes `deleted`, whose key has the hash `key_hash`, out from behind `prev`.
    pub open spec fn unlink(self, deleted: Located, prev: Located, key_hash: Seq<u8>) -> Db {
        let p = self.prev_without_deleted(deleted, prev);
        Db {
            buffer: self.buffer.append(p, Db::deleted_sns(deleted, prev)),
            index: self.index.remove((k80_of(key_hash), deleted.place.1)).remove(
                prev.place,
            ).insert((prev.place.0, self.buffer.end), p.serial_number),
            sn_end: (self.sn_end + 1) as u64,
            ..self
        }
    }

    /// Takes `deleted` out from behind `prev`.
    pub open spec fn remove_after(
        self,
        deleted: Located,
        prev: Located,
        key_hash: Seq<u8>,
        rec: Option<&OpRecord>,
    ) -> Result<Db, UpdateError> {
        let p = self.prev_without_deleted(deleted, prev);
        match self.room(1, serialized_len(p, 2)) {
            Err(err) => Err(err),
            Ok(_) => if self.check_rec && !prev_changed_agrees(
                rec,
                p,
                Db::deleted_sns(deleted, prev),
            ) {
                Err(UpdateError::ComparePrevChanged)
            } else {
                Ok(self.unlink(deleted, prev, key_hash))
            },
        }
    }

    /// Removes the key `key`, which must exist.
    pub open spec fn delete(
        self,
        key_hash: Seq<u8>,
        key: Seq<u8>,
        rec: Option<&OpRecord>,
    ) -> Result<Db, UpdateError> {
        match self.find_deleted(adjacent_values(self.index, k80_of(key_hash)), key_hash, key, rec) {
            Err(e) => Err(e),
            Ok((deleted, prev)) => self.remove_after(deleted, prev, key_hash, rec),
        }
    }

    // ---- compaction ----

    /// The entry that a compaction writes in the place of `old`.
    pub open spec fn moved(self, old: EntryView) -> EntryView {
        EntryView { serial_number: self.sn_end, ..old }
    }

    /// The entry of a job, in its place in the index.
    pub open spec fn job_entry(job: CompactJob, key_hash: Seq<u8>) -> Located {
        Located { place: (k80_of(key_hash), job.old_pos), bz: job.entry_bz@ }
    }

    /// Moves the entry of `job`, whose key has the hash `key_hash`, to the end of the
    /// log.
    pub open spec fn relocate(
        self,
        job: CompactJob,
        key_hash: Seq<u8>,
        rec: Option<&OpRecord>,
        comp_idx: int,
    ) -> Result<Db, UpdateError> {
        let old = Db::job_entry(job, key_hash);
        let e = self.moved(old.entry());
        let old_sn = old.entry().serial_number;
        if self.check_rec && !dig_entry_agrees(rec, old.bz, comp_idx) {
            Err(UpdateError::CompareDigEntry)
        } else {
            match self.room(1, serialized_len(e, 1)) {
                Err(err) => Err(err),
                Ok(_) => if old_sn == u64::MAX {
                    Err(UpdateError::SerialNumberOverflow)
                } else if job.old_pos + old.bz.len() > i64::MAX {
                    Err(UpdateError::FilePositionOverflow)
                } else if self.check_rec && !put_entry_agrees(rec, e, seq![old_sn], comp_idx) {
                    Err(UpdateError::ComparePutEntry)
                } else {
                    Ok(
                        Db {
                            sn_start: (old_sn + 1) as u64,
                            compact_done_pos: (job.old_pos + old.bz.len()) as i64,
                            ..self.replace(old, e)
                        },
                    )
                },
            }
        }
    }
}

/// A database, with the jobs received for its compaction and those that go back.
#[verifier::ext_equal]
pub struct Store {
    pub db: Db,
    pub jobs: Seq<CompactJob>,
    pub returned: Seq<CompactJob>,
}

impl Store {
    /// The store after its first job has been taken and sent back.
    pub open spec fn return_job(self) -> Store {
        Store { jobs: self.jobs.skip(1), returned: self.returned.push(self.jobs[0]), ..self }
    }

    /// Takes jobs until one is for a live entry, and moves that entry.
    pub open spec fn compact(self, rec: Option<&OpRecord>, comp_idx: int) -> (
        Store,
        Result<(), UpdateError>,
    )
        decreases self.jobs.len(),
    {
        if self.jobs.len() == 0 {
            (self, Err(UpdateError::CompactJobsExhausted))
        } else {
            let job = self.jobs[0];
            let next = self.return_job();
            let key_hash = sha256(parse(job.entry_bz@).key);
            if !well_formed(job.entry_bz@) {
                (next, Err(UpdateError::MalformedEntry))
            } else if !self.db.index.contains_key((k80_of(key_hash), job.old_pos)) {
                next.compact(rec, comp_idx)
            } else {
                match self.db.relocate(job, key_hash, rec, comp_idx) {
                    Err(e) => (next, Err(e)),
                    Ok(db) => (Store { db, ..next }, Ok(())),
                }
            }
        }
    }
}

/// How far the current task has come.
#[verifier::ext_equal]
pub struct ProgressView {
    /// The task that has begun and not ended.
    pub task: Option<i64>,
    /// Change sets done.
    pub set_idx: int,
    /// Operations of the current change set done.
    pub op_idx: int,
    /// The compactions that the current operation still owes: those from `owed_next`
    /// up to `owed_end`.
    pub owed_next: int,
    pub owed_end: int,
}

/// No task has begun.
pub open spec fn idle() -> ProgressView {
    ProgressView { task: None, set_idx: 0, op_idx: 0, owed_next: 0, owed_end: 0 }
}

/// The record of an operation.
pub open spec fn record_of(op: &Op) -> Option<&OpRecord> {
    match &op.record {
        Some(r) => Some(r),
        None => None,
    }
}

/// A store and the work on it.
#[verifier::ext_equal]
pub struct Core {
    pub store: Store,
    pub progress: ProgressView,
    pub tasks: Map<i64, Task>,
}

impl Core {
    pub open spec fn with_db(self, db: Db) -> Core {
        Core { store: Store { db, ..self.store }, ..self }
    }

    pub open spec fn with_progress(self, progress: ProgressView) -> Core {
        Core { progress, ..self }
    }

    /// Runs the compactions that are owed.
    pub open spec fn settle(self, rec: Option<&OpRecord>) -> (Core, Result<(), UpdateError>)
        decreases self.progress.owed_end - self.progress.owed_next,
    {
        let p = self.progress;
        if p.owed_next >= p.owed_end {
            (self, Ok(()))
        } else {
            let (store, res) = self.store.compact(rec, p.owed_next);
            match res {
                Err(e) => (Core { store, ..self }, Err(e)),
                Ok(_) => Core {
                    store,
                    progress: ProgressView { owed_next: p.owed_next + 1, ..p },
                    ..self
                }.settle(rec),
            }
        }
    }

    /// Takes over the database `db` that an operation led to, and runs `count`
    /// compactions, if compaction is due then.
    pub open spec fn commit(self, db: Db, count: int, rec: Option<&OpRecord>) -> (
        Core,
        Result<(), UpdateError>,
    ) {
        let owed = if db.is_compactible() {
            count
        } else {
            0
        };
        self.with_db(db).with_progress(
            ProgressView { owed_next: 0, owed_end: owed, ..self.progress },
        ).settle(rec)
    }

    pub open spec fn write_kv(
        self,
        key_hash: Seq<u8>,
        key: Seq<u8>,
        value: Seq<u8>,
        rec: Option<&OpRecord>,
    ) -> (Core, Result<(), UpdateError>) {
        match self.store.db.write(key_hash, key, value) {
            Err(e) => (self, Err(e)),
            Ok(db) => self.commit(db, 1, rec),
        }
    }

    pub open spec fn create_kv(
        self,
        key_hash: Seq<u8>,
        key: Seq<u8>,
        value: Seq<u8>,
        rec: Option<&OpRecord>,
    ) -> (Core, Result<(), UpdateError>) {
        match self.store.db.create(key_hash, key, value, rec) {
            Err(e) => (self, Err(e)),
            Ok(db) => self.commit(db, 2, rec),
        }
    }

    pub open spec fn delete_kv(
        self,
        key_hash: Seq<u8>,
        key: Seq<u8>,
        rec: Option<&OpRecord>,
    ) -> (Core, Result<(), UpdateError>) {
        match self.store.db.delete(key_hash, key, rec) {
            Err(e) => (self, Err(e)),
            Ok(db) => (self.with_db(db), Ok(())),
        }
    }

    /// Whether the record agrees with the state before its operation.
    pub open spec fn active_info(self, rec: Option<&OpRecord>) -> Result<(), UpdateError> {
        let db = self.store.db;
        if !db.check_rec {
            Ok(())
        } else if !num_active_agrees(rec, db.index.dom().len()) {
            Err(UpdateError::IncorrectNumActive)
        } else if !sn_start_agrees(rec, db.sn_start) {
            Err(UpdateError::IncorrectSnStart)
        } else {
            Ok(())
        }
    }

    /// Begins and finishes one operation of this shard.
    pub open spec fn run_op(self, op: &Op) -> (Core, Result<(), UpdateError>) {
        let rec = record_of(op);
        match self.active_info(rec) {
            Err(e) => (self, Err(e)),
            Ok(_) => if op.op_type == OP_WRITE {
                self.write_kv(op.key_hash@, op.key@, op.value@, rec)
            } else if op.op_type == OP_CREATE {
                self.create_kv(op.key_hash@, op.key@, op.value@, rec)
            } else if op.op_type == OP_DELETE {
                self.delete_kv(op.key_hash@, op.key@, rec)
            } else if op.op_type == OP_READ {
                (self, Ok(()))
            } else {
                (self, Err(UpdateError::UnsupportedOperation))
            },
        }
    }

    /// Finishes one operation: begins it, unless it has begun already; passes over it
    /// where it is another shard's.
    pub open spec fn finish_op(self, op: &Op) -> (Core, Result<(), UpdateError>) {
        if op.shard_id != self.store.db.shard_id {
            (self, Ok(()))
        } else if self.progress.owed_next < self.progress.owed_end {
            self.settle(record_of(op))
        } else {
            self.run_op(op)
        }
    }

    /// Finishes a change set's operations, from the current one on.
    pub open spec fn run_ops(self, ops: Seq<Op>) -> (Core, Result<(), UpdateError>)
        decreases ops.len() - self.progress.op_idx,
    {
        if !(0 <= self.progress.op_idx < ops.len()) {
            (self, Ok(()))
        } else {
            let (core, res) = self.finish_op(&ops[self.progress.op_idx]);
            match res {
                Err(e) => (core, Err(e)),
                Ok(_) => core.with_progress(
                    ProgressView { op_idx: self.progress.op_idx + 1, ..core.progress },
                ).run_ops(ops),
            }
        }
    }

    /// Finishes a task's change sets, from the current one on.
    pub open spec fn run_sets(self, sets: Seq<ChangeSet>) -> (Core, Result<(), UpdateError>)
        decreases sets.len() - self.progress.set_idx,
    {
        if !(0 <= self.progress.set_idx < sets.len()) {
            (self, Ok(()))
        } else {
            let (core, res) = self.run_ops(sets[self.progress.set_idx].ops@);
            let db = core.store.db;
            match res {
                Err(e) => (core, Err(e)),
                Ok(_) => if db.curr_version == i64::MAX {
                    (core, Err(UpdateError::VersionOverflow))
                } else {
                    core.with_db(
                        Db { curr_version: (db.curr_version + 1) as i64, ..db },
                    ).with_progress(
                        ProgressView {
                            set_idx: self.progress.set_idx + 1,
                            op_idx: 0,
                            ..core.progress
                        },
                    ).run_sets(sets)
                },
            }
        }
    }

    /// Begins a task: takes over its cache, if it has one, and, if it is the first of
    /// its block, its id as the version.
    pub open spec fn begin(self, task_id: i64) -> Core {
        let db = self.store.db;
        self.with_db(
            Db {
                cache: match self.tasks[task_id].cache {
                    Some(c) => c@,
                    None => db.cache,
                },
                curr_version: if task_id & IN_BLOCK_IDX_MASK == 0 {
                    task_id
                } else {
                    db.curr_version
                },
                ..db
            },
        ).with_progress(ProgressView { task: Some(task_id), ..idle() })
    }

    /// Ends a task and, if `end_block` holds, its block.
    pub open spec fn end(self, end_block: bool) -> Core {
        let db = self.store.db;
        let block = EndBlock {
            compact_done_pos: db.compact_done_pos,
            sn_start: db.sn_start,
            sn_end: db.sn_end,
        };
        let ended = if end_block {
            self.with_db(
                Db {
                    buffer: BufferView { blocks: db.buffer.blocks.push(block), ..db.buffer },
                    ..db
                },
            )
        } else {
            self
        };
        ended.with_progress(idle())
    }

    /// Runs a task to its end: begins it, unless it has begun already.
    pub open spec fn run_task(self, task_id: i64) -> (Core, Result<(), UpdateError>) {
        if !self.tasks.contains_key(task_id) {
            (self, Err(UpdateError::UnknownTask))
        } else if self.progress.task is Some && self.progress.task != Some(task_id) {
            (self, Err(UpdateError::OtherTaskRunning))
        } else {
            let begun = if self.progress.task is None {
                self.begin(task_id)
            } else {
                self
            };
            let (core, res) = begun.run_sets(self.tasks[task_id].change_sets@);
            match res {
                Err(e) => (core, Err(e)),
                Ok(_) => (core.end(self.tasks[task_id].end_block), Ok(())),
            }
        }
    }
}

/// An updater: a core, the tasks that may be run, each with the task that comes next,
/// and the task whose turn it is.
#[verifier::ext_equal]
pub struct UpdaterView {
    pub core: Core,
    pub ready: Map<i64, i64>,
    pub next_task_id: i64,
}

impl UpdaterView {
    /// Runs tasks, one after the other, as long as the one whose turn it is may be run.
    pub open spec fn run_ready(self) -> (UpdaterView, Result<(), UpdateError>)
        decreases self.ready.dom().len(),
    {
        if !self.ready.dom().finite() || !self.ready.contains_key(self.next_task_id) {
            (self, Ok(()))
        } else {
            let (core, res) = self.core.run_task(self.next_task_id);
            match res {
                Err(e) => (UpdaterView { core, ..self }, Err(e)),
                Ok(_) => UpdaterView {
                    core,
                    ready: self.ready.remove(self.next_task_id),
                    next_task_id: self.ready[self.next_task_id],
                }.run_ready(),
            }
        }
    }

    /// Lets the task `task_id` be run, with `next_task_id` next, and runs what can be run.
    pub open spec fn deliver(self, task_id: i64, next_task_id: i64) -> (
        UpdaterView,
        Result<(), UpdateError>,
    ) {
        UpdaterView { ready: self.ready.insert(task_id, next_task_id), ..self }.run_ready()
    }
}

} // verus!
