//! The updater of one shard.

use std::collections::HashMap;
use std::sync::Arc;
use vstd::prelude::*;

use crate::buffer::EntryBufferWriter;
use crate::bytes::{append_bytes, bytes_equal, bytes_less, copy_bytes, k80_of, to_k80};
use crate::cache::EntryCache;
use crate::compactor::{CompactJob, Consumer};
use crate::compare::{
    compare_dig_entry, compare_new_entry, compare_old_entry, compare_prev_changed,
    compare_prev_entry, compare_put_entry, num_active_agrees, sn_start_agrees,
};
use crate::def::{
    is_compactible, DEFAULT_ENTRY_SIZE, IN_BLOCK_IDX_BITS, IN_BLOCK_IDX_MASK, OP_CREATE, OP_DELETE,
    OP_READ, OP_WRITE,
};
use crate::entry::{fits, parse, well_formed, Entry, EntryBz};
use crate::error::UpdateError;
use crate::file::{file_entry, EntryFile};
use crate::indexer::{adjacent_values, keyed_values, Indexer};
use crate::model::{
    between, clipped, idle, record_of, Core, Db, DeleteScan, Located, ProgressView, Store,
    UpdaterView,
};
use crate::tasks::{ChangeSet, Op, OpRecord, TaskHub};

verus! {

broadcast use vstd::std_specs::hash::group_hash_axioms;

/// An entry's bytes, with the index key and the position under which it was found.
pub struct Found {
    pub k80: u128,
    pub pos: i64,
    pub bz: Vec<u8>,
}

impl View for Found {
    type V = Located;

    open spec fn view(&self) -> Located {
        Located { place: (self.k80, self.pos), bz: self.bz@ }
    }
}

/// How far the current task has come.
#[derive(Clone, Copy, Debug)]
pub struct Progress {
    pub task: Option<i64>,
    pub set_idx: usize,
    pub op_idx: usize,
    pub owed_next: usize,
    pub owed_end: usize,
}

impl View for Progress {
    type V = ProgressView;

    open spec fn view(&self) -> ProgressView {
        ProgressView {
            task: self.task,
            set_idx: self.set_idx as int,
            op_idx: self.op_idx as int,
            owed_next: self.owed_next as int,
            owed_end: self.owed_end as int,
        }
    }
}

impl Progress {
    /// No task has begun.
    pub fn idle() -> (p: Self)
        ensures
            p@ == idle(),
    {
        Progress { task: None, set_idx: 0, op_idx: 0, owed_next: 0, owed_end: 0 }
    }
}

/// The entry that was found, if one was.
pub open spec fn located(found: Option<Found>) -> Option<Located> {
    match found {
        Some(f) => Some(f@),
        None => None,
    }
}

/// Whether `key_hash` lies strictly between the hash of an entry's key and the hash
/// that the entry names as the next one.
pub fn is_between(prev_hash: &[u8], key_hash: &[u8], next_hash: &[u8]) -> (r: bool)
    ensures
        r == between(prev_hash@, key_hash@, next_hash@),
{
    bytes_less(prev_hash, key_hash) && bytes_less(key_hash, next_hash)
}

/// Applies the operations of tasks to one shard of the store.
pub struct Updater {
    pub shard_id: usize,
    pub task_hub: TaskHub,
    pub update_buffer: EntryBufferWriter,
    pub cache: Arc<EntryCache>,
    pub entry_file: EntryFile,
    pub indexer: Indexer,
    /// The bytes of the entry that was read last.
    pub read_entry_buf: Vec<u8>,
    /// Goes into the new entries.
    pub curr_version: i64,
    /// Increased after compacting old entries.
    pub sn_start: u64,
    /// Increased after appending new entries.
    pub sn_end: u64,
    pub compact_consumer: Consumer,
    pub compact_done_pos: i64,
    pub utilization_div: i64,
    pub utilization_ratio: i64,
    pub compact_thres: i64,
    /// The tasks that may be run, each with the task that comes next.
    pub next_task_id_map: HashMap<i64, i64>,
    /// The task whose turn it is.
    pub next_task_id: i64,
    pub progress: Progress,
    /// Records are compared with what is done.
    pub check_rec: bool,
}

impl View for Updater {
    type V = UpdaterView;

    open spec fn view(&self) -> UpdaterView {
        UpdaterView {
            core: self.core_view(),
            ready: self.next_task_id_map@,
            next_task_id: self.next_task_id,
        }
    }
}

impl Updater {
    pub open spec fn db_view(&self) -> Db {
        Db {
            shard_id: self.shard_id,
            cache: self.cache@,
            buffer: self.update_buffer@,
            file: self.entry_file@,
            index: self.indexer@,
            curr_version: self.curr_version,
            sn_start: self.sn_start,
            sn_end: self.sn_end,
            compact_done_pos: self.compact_done_pos,
            utilization_div: self.utilization_div,
            utilization_ratio: self.utilization_ratio,
            compact_thres: self.compact_thres,
            check_rec: self.check_rec,
        }
    }

    pub open spec fn store_view(&self) -> Store {
        Store {
            db: self.db_view(),
            jobs: self.compact_consumer.jobs(),
            returned: self.compact_consumer.returned(),
        }
    }

    pub open spec fn core_view(&self) -> Core {
        Core { store: self.store_view(), progress: self.progress@, tasks: self.task_hub@ }
    }

    /// The index and the buffer are well-formed.
    pub open spec fn wf(&self) -> bool {
        self.indexer.wf() && self.update_buffer.wf()
    }

    /// An updater that has run no task; `next_task_id` is the first one.
    pub fn new(
        shard_id: usize,
        task_hub: TaskHub,
        update_buffer: EntryBufferWriter,
        entry_file: EntryFile,
        indexer: Indexer,
        curr_version: i64,
        sn_start: u64,
        sn_end: u64,
        compact_consumer: Consumer,
        compact_done_pos: i64,
        utilization_div: i64,
        utilization_ratio: i64,
        compact_thres: i64,
        next_task_id: i64,
        check_rec: bool,
    ) -> (u: Self)
        requires
            indexer.wf(),
            update_buffer.wf(),
        ensures
            u.wf(),
            u@ == (UpdaterView {
                core: Core {
                    store: Store {
                        db: Db {
                            shard_id,
                            cache: Map::empty(),
                            buffer: update_buffer@,
                            file: entry_file@,
                            index: indexer@,
                            curr_version,
                            sn_start,
                            sn_end,
                            compact_done_pos,
                            utilization_div,
                            utilization_ratio,
                            compact_thres,
                            check_rec,
                        },
                        jobs: compact_consumer.jobs(),
                        returned: compact_consumer.returned(),
                    },
                    progress: idle(),
                    tasks: task_hub@,
                },
                ready: Map::empty(),
                next_task_id,
            }),
            u.read_entry_buf@ == Seq::<u8>::empty(),
    {
        Updater {
            shard_id,
            task_hub,
            update_buffer,
            cache: Arc::new(EntryCache::new_uninit()),
            entry_file,
            indexer,
            read_entry_buf: Vec::with_capacity(DEFAULT_ENTRY_SIZE),
            curr_version,
            sn_start,
            sn_end,
            compact_consumer,
            compact_done_pos,
            utilization_div,
            utilization_ratio,
            compact_thres,
            next_task_id_map: HashMap::new(),
            next_task_id,
            progress: Progress::idle(),
            check_rec,
        }
    }

    /// Reads the entry at `file_pos` into `read_entry_buf`: from the cache, else from
    /// the update buffer, else from the entry file. Of an entry in the file that is
    /// longer than `DEFAULT_ENTRY_SIZE`, what lies beyond is read as zeros.
    pub fn read_entry(&mut self, shard_id: usize, file_pos: i64) -> (res: Result<(), UpdateError>)
        requires
            old(self).wf(),
        ensures
            final(self).wf(),
            final(self)@ == old(self)@,
            res is Ok == old(self).db_view().read(shard_id, file_pos) is Some,
            res matches Err(e) ==> e == UpdateError::CannotReadEntry,
            res is Ok ==> Some(final(self).read_entry_buf@) == old(self).db_view().read(
                shard_id,
                file_pos,
            ),
    {
        match self.cache.lookup(shard_id, file_pos) {
            Some(bz) => {
                self.read_entry_buf.clear();
                append_bytes(&mut self.read_entry_buf, bz.as_slice());
                assert(self.read_entry_buf@ =~= bz@);
                return Ok(());
            },
            None => {},
        }
        let (in_disk, accessed) = self.update_buffer.get_entry_bz_at(file_pos);
        match accessed {
            Some(bz) => {
                self.read_entry_buf.clear();
                append_bytes(&mut self.read_entry_buf, bz.as_slice());
                assert(self.read_entry_buf@ =~= bz@);
                return Ok(());
            },
            None => {},
        }
        if !in_disk {
            return Err(UpdateError::CannotReadEntry);
        }
        self.read_entry_buf.clear();
        self.read_entry_buf.resize(DEFAULT_ENTRY_SIZE, 0);
        match self.entry_file.read_entry(file_pos, &mut self.read_entry_buf) {
            Some(size) => {
                let ghost entry = file_entry(self.entry_file@, file_pos);
                self.read_entry_buf.resize(size, 0);
                assert(self.read_entry_buf@ =~= clipped(entry));
                Ok(())
            },
            None => Err(UpdateError::CannotReadEntry),
        }
    }

    /// The block that is being executed.
    fn height(&self) -> (h: i64)
        ensures
            h == self.curr_version >> IN_BLOCK_IDX_BITS,
    {
        self.curr_version >> IN_BLOCK_IDX_BITS
    }

    /// Reads the whole entry at `file_pos` into `read_entry_buf`.
    fn load(&mut self, file_pos: i64) -> (res: Result<(), UpdateError>)
        requires
            old(self).wf(),
        ensures
            final(self).wf(),
            final(self)@ == old(self)@,
            match old(self).db_view().load(file_pos) {
                Ok(bz) => res is Ok && final(self).read_entry_buf@ == bz && well_formed(bz),
                Err(e) => res == Err::<(), UpdateError>(e),
            },
    {
        match self.read_entry(self.shard_id, file_pos) {
            Err(e) => Err(e),
            Ok(_) => {
                let entry_bz = EntryBz { bz: self.read_entry_buf.as_slice() };
                if entry_bz.is_well_formed() {
                    Ok(())
                } else {
                    Err(UpdateError::MalformedEntry)
                }
            },
        }
    }

    /// Whether compaction is due.
    pub fn is_compactible(&self) -> (r: bool)
        requires
            self.wf(),
        ensures
            r == self.db_view().is_compactible(),
    {
        is_compactible(
            self.utilization_div,
            self.utilization_ratio,
            self.compact_thres,
            self.indexer.len(),
            self.sn_start,
            self.sn_end,
        )
    }

    /// Whether `count` serial numbers and `bytes` bytes of the log can be used up.
    fn room(&self, count: u64, bytes: usize) -> (res: Result<(), UpdateError>)
        ensures
            res == self.db_view().room(count as int, bytes as int),
    {
        if self.sn_end > u64::MAX - count {
            Err(UpdateError::SerialNumberOverflow)
        } else if !self.update_buffer.has_room(bytes) {
            Err(UpdateError::FilePositionOverflow)
        } else {
            Ok(())
        }
    }

    /// Looks for the entry of a key that is to be written.
    fn find_key(&mut self, key_hash: &[u8; 32], key: &[u8]) -> (res: Result<Found, UpdateError>)
        requires
            old(self).wf(),
        ensures
            final(self).wf(),
            final(self)@ == old(self)@,
            match old(self).db_view().find_key(
                keyed_values(old(self).db_view().index, k80_of(key_hash@)),
                key@,
            ) {
                Ok(old_entry) => res matches Ok(found) && found@ == old_entry && well_formed(
                    old_entry.bz,
                ),
                Err(e) => res matches Err(e1) && e1 == e,
            },
    {
        let positions = self.indexer.get_values(self.height(), key_hash.as_slice());
        let k80: u128 = to_k80(key_hash.as_slice());
        let ghost db = self.db_view();
        let ghost places = keyed_values(db.index, k80);
        let mut i: usize = 0;
        assert(places.skip(0) =~= places);
        while i < positions.len()
            invariant
                self.wf(),
                self@ == old(self)@,
                db == old(self).db_view(),
                k80 == k80_of(key_hash@),
                i <= positions@.len(),
                places == keyed_values(db.index, k80),
                places == positions@.map_values(|p: i64| (k80, p)),
                db.find_key(places, key@) == db.find_key(places.skip(i as int), key@),
            decreases positions@.len() - i,
        {
            let pos: i64 = positions[i];
            assert(places.skip(i as int)[0] == (k80, pos));
            assert(places.skip(i as int).skip(1) =~= places.skip(i + 1));
            match self.load(pos) {
                Err(e) => {
                    return Err(e);
                },
                Ok(_) => {},
            }
            let entry_bz = EntryBz { bz: self.read_entry_buf.as_slice() };
            if bytes_equal(entry_bz.key(), key) {
                return Ok(Found { k80, pos, bz: copy_bytes(self.read_entry_buf.as_slice()) });
            }
            i += 1;
        }
        Err(UpdateError::WriteToNonExistKey)
    }

    /// Gives the key of the entry `old_entry` the value `value`.
    pub fn write_over(&mut self, key: &[u8], value: &[u8], old_entry: &Found) -> (res: Result<
        (),
        UpdateError,
    >)
        requires
            old(self).wf(),
            well_formed(old_entry.bz@),
        ensures
            final(self).wf(),
            match old(self).db_view().write_over(old_entry@, key@, value@) {
                Ok(db) => {
                    &&& res == Ok::<(), UpdateError>(())
                    &&& final(self)@ == (UpdaterView {
                        core: old(self).core_view().with_db(db),
                        ..old(self)@
                    })
                },
                Err(e) => res == Err::<(), UpdateError>(e) && final(self)@ == old(self)@,
            },
    {
        let old_bz = EntryBz { bz: old_entry.bz.as_slice() };
        let new_entry = Entry {
            key,
            value,
            next_key_hash: old_bz.next_key_hash(),
            version: self.curr_version,
            serial_number: self.sn_end,
        };
        let dsn_list: [u64; 1] = [old_bz.serial_number()];
        assert(dsn_list@ =~= seq![old_entry@.entry().serial_number]);
        assert(new_entry@ == self.db_view().written(old_entry@, key@, value@));
        if !new_entry.has_valid_lengths(1) {
            assert(!fits(new_entry@, dsn_list@));
            return Err(UpdateError::EntryTooLong);
        }
        assert(fits(new_entry@, dsn_list@));
        match self.room(1, new_entry.get_serialized_len(1)) {
            Err(e) => {
                return Err(e);
            },
            Ok(_) => {},
        }
        let new_pos: i64 = self.update_buffer.append(&new_entry, dsn_list.as_slice());
        self.indexer.change_kv(old_entry.k80, old_entry.pos, new_pos, self.sn_end);
        self.sn_end = self.sn_end + 1;
        Ok(())
    }

    /// Replaces the value of a key that exists, and compacts where that is due.
    pub fn write_kv(
        &mut self,
        key_hash: &[u8; 32],
        key: &[u8],
        value: &[u8],
        r: Option<&OpRecord>,
    ) -> (res: Result<(), UpdateError>)
        requires
            old(self).wf(),
        ensures
            final(self).wf(),
            ({
                let (core, outcome) = old(self).core_view().write_kv(key_hash@, key@, value@, r);
                &&& res == outcome
                &&& final(self)@ == (UpdaterView { core, ..old(self)@ })
            }),
    {
        let old_entry = match self.find_key(key_hash, key) {
            Err(e) => {
                return Err(e);
            },
            Ok(found) => found,
        };
        match self.write_over(key, value, &old_entry) {
            Err(e) => {
                return Err(e);
            },
            Ok(_) => {},
        }
        self.commit(1, r)
    }

    /// Looks for the entry behind which a new key belongs.
    fn find_prev(&mut self, key_hash: &[u8; 32], r: Option<&OpRecord>) -> (res: Result<
        Found,
        UpdateError,
    >)
        requires
            old(self).wf(),
        ensures
            final(self).wf(),
            final(self)@ == old(self)@,
            match old(self).db_view().find_prev(
                adjacent_values(old(self).db_view().index, k80_of(key_hash@)),
                key_hash@,
                r,
            ) {
                Ok(prev) => res matches Ok(found) && found@ == prev && well_formed(prev.bz),
                Err(e) => res matches Err(e1) && e1 == e,
            },
    {
        let places = self.indexer.get_adjacent_values(self.height(), key_hash.as_slice());
        let ghost db = self.db_view();
        let mut i: usize = 0;
        assert(places@.skip(0) =~= places@);
        while i < places.len()
            invariant
                self.wf(),
                self@ == old(self)@,
                db == old(self).db_view(),
                i <= places@.len(),
                places@ == adjacent_values(db.index, k80_of(key_hash@)),
                db.find_prev(places@, key_hash@, r) == db.find_prev(
                    places@.skip(i as int),
                    key_hash@,
                    r,
                ),
            decreases places@.len() - i,
        {
            let (k80, pos): (u128, i64) = places[i];
            assert(places@.skip(i as int)[0] == (k80, pos));
            assert(places@.skip(i as int).skip(1) =~= places@.skip(i + 1));
            match self.load(pos) {
                Err(e) => {
                    return Err(e);
                },
                Ok(_) => {},
            }
            let prev_entry = EntryBz { bz: self.read_entry_buf.as_slice() };
            if is_between(
                prev_entry.key_hash().as_slice(),
                key_hash.as_slice(),
                prev_entry.next_key_hash(),
            ) {
                match compare_prev_entry(self.check_rec, r, &prev_entry) {
                    Err(e) => {
                        return Err(e);
                    },
                    Ok(_) => {},
                }
                return Ok(Found { k80, pos, bz: copy_bytes(self.read_entry_buf.as_slice()) });
            }
            i += 1;
        }
        Err(UpdateError::PrevKeyNotFound)
    }

    /// Puts a new key behind the entry `prev`.
    pub fn insert_after(
        &mut self,
        key_hash: &[u8; 32],
        key: &[u8],
        value: &[u8],
        r: Option<&OpRecord>,
        prev: &Found,
    ) -> (res: Result<(), UpdateError>)
        requires
            old(self).wf(),
            well_formed(prev.bz@),
        ensures
            final(self).wf(),
            match old(self).db_view().insert_after(prev@, key_hash@, key@, value@, r) {
                Ok(db) => {
                    &&& res == Ok::<(), UpdateError>(())
                    &&& final(self)@ == (UpdaterView {
                        core: old(self).core_view().with_db(db),
                        ..old(self)@
                    })
                },
                Err(e) => res == Err::<(), UpdateError>(e) && final(self)@ == old(self)@,
            },
    {
        let prev_entry = EntryBz { bz: prev.bz.as_slice() };
        let new_entry = Entry {
            key,
            value,
            next_key_hash: prev_entry.next_key_hash(),
            version: self.curr_version,
            serial_number: self.sn_end,
        };
        let no_dsn: [u64; 0] = [];
        assert(no_dsn@ =~= Seq::<u64>::empty());
        assert(new_entry@ == self.db_view().created(prev@, key@, value@));
        if !new_entry.has_valid_lengths(0) {
            assert(!fits(new_entry@, no_dsn@));
            return Err(UpdateError::EntryTooLong);
        }
        assert(fits(new_entry@, no_dsn@));
        if self.sn_end > u64::MAX - 2 {
            return Err(UpdateError::SerialNumberOverflow);
        }
        let prev_changed = Entry {
            key: prev_entry.key(),
            value: prev_entry.value(),
            next_key_hash: key_hash.as_slice(),
            version: self.curr_version,
            serial_number: self.sn_end + 1,
        };
        let dsn_list: [u64; 1] = [prev_entry.serial_number()];
        assert(dsn_list@ =~= seq![prev@.entry().serial_number]);
        assert(prev_changed@ == self.db_view().prev_before_created(prev@, key_hash@));
        assert(fits(prev_changed@, dsn_list@));
        match self.room(
            2,
            new_entry.get_serialized_len(0) + prev_changed.get_serialized_len(1),
        ) {
            Err(e) => {
                return Err(e);
            },
            Ok(_) => {},
        }
        match compare_new_entry(self.check_rec, r, &new_entry, no_dsn.as_slice()) {
            Err(e) => {
                return Err(e);
            },
            Ok(_) => {},
        }
        match compare_prev_changed(self.check_rec, r, &prev_changed, dsn_list.as_slice()) {
            Err(e) => {
                return Err(e);
            },
            Ok(_) => {},
        }
        let create_pos: i64 = self.update_buffer.append(&new_entry, no_dsn.as_slice());
        let new_pos: i64 = self.update_buffer.append(&prev_changed, dsn_list.as_slice());
        self.indexer.add_kv(key_hash.as_slice(), create_pos, self.sn_end);
        self.indexer.change_kv(prev.k80, prev.pos, new_pos, self.sn_end + 1);
        self.sn_end = self.sn_end + 2;
        Ok(())
    }

    /// Adds a key, and compacts twice where compaction is due.
    pub fn create_kv(
        &mut self,
        key_hash: &[u8; 32],
        key: &[u8],
        value: &[u8],
        r: Option<&OpRecord>,
    ) -> (res: Result<(), UpdateError>)
        requires
            old(self).wf(),
        ensures
            final(self).wf(),
            ({
                let (core, outcome) = old(self).core_view().create_kv(key_hash@, key@, value@, r);
                &&& res == outcome
                &&& final(self)@ == (UpdaterView { core, ..old(self)@ })
            }),
    {
        let prev = match self.find_prev(key_hash, r) {
            Err(e) => {
                return Err(e);
            },
            Ok(found) => found,
        };
        match self.insert_after(key_hash, key, value, r, &prev) {
            Err(e) => {
                return Err(e);
            },
            Ok(_) => {},
        }
        self.commit(2, r)
    }

    /// Looks for the entry of a key that is to be deleted, and for the entry before it.
    fn find_deleted(&mut self, key_hash: &[u8; 32], key: &[u8], r: Option<&OpRecord>) -> (res:
        Result<(Found, Found), UpdateError>)
        requires
            old(self).wf(),
        ensures
            final(self).wf(),
            final(self)@ == old(self)@,
            match old(self).db_view().find_deleted(
                adjacent_values(old(self).db_view().index, k80_of(key_hash@)),
                key_hash@,
                key@,
                r,
            ) {
                Ok((deleted, prev)) => {
                    &&& res matches Ok((d, p))
                    &&& d@ == deleted
                    &&& p@ == prev
                    &&& well_formed(deleted.bz)
                    &&& well_formed(prev.bz)
                },
                Err(e) => res matches Err(e1) && e1 == e,
            },
    {
        let places = self.indexer.get_adjacent_values(self.height(), key_hash.as_slice());
        let ghost db = self.db_view();
        let mut deleted: Option<Found> = None;
        let mut prev: Option<Found> = None;
        let mut i: usize = 0;
        assert(places@.skip(0) =~= places@);
        while i < places.len() && !(deleted.is_some() && prev.is_some())
            invariant
                self.wf(),
                self@ == old(self)@,
                db == old(self).db_view(),
                i <= places@.len(),
                places@ == adjacent_values(db.index, k80_of(key_hash@)),
                deleted matches Some(d) ==> well_formed(d.bz@),
                prev matches Some(p) ==> well_formed(p.bz@),
                db.scan_deleted(
                    places@,
                    key_hash@,
                    key@,
                    r,
                    DeleteScan { deleted: None, prev: None },
                ) == db.scan_deleted(
                    places@.skip(i as int),
                    key_hash@,
                    key@,
                    r,
                    DeleteScan { deleted: located(deleted), prev: located(prev) },
                ),
            decreases places@.len() - i,
        {
            let (k80, pos): (u128, i64) = places[i];
            assert(places@.skip(i as int)[0] == (k80, pos));
            assert(places@.skip(i as int).skip(1) =~= places@.skip(i + 1));
            match self.load(pos) {
                Err(e) => {
                    return Err(e);
                },
                Ok(_) => {},
            }
            let entry_bz = EntryBz { bz: self.read_entry_buf.as_slice() };
            if deleted.is_none() && bytes_equal(entry_bz.key(), key) {
                match compare_old_entry(self.check_rec, r, &entry_bz) {
                    Err(e) => {
                        return Err(e);
                    },
                    Ok(_) => {},
                }
                deleted = Some(
                    Found { k80, pos, bz: copy_bytes(self.read_entry_buf.as_slice()) },
                );
            } else if prev.is_none() && bytes_equal(
                entry_bz.next_key_hash(),
                key_hash.as_slice(),
            ) {
                match compare_prev_entry(self.check_rec, r, &entry_bz) {
                    Err(e) => {
                        return Err(e);
                    },
                    Ok(_) => {},
                }
                prev = Some(Found { k80, pos, bz: copy_bytes(self.read_entry_buf.as_slice()) });
            }
            i += 1;
        }
        match deleted {
            None => Err(UpdateError::DeleteNonExistKey),
            Some(d) => match prev {
                None => Err(UpdateError::PrevEntryNotFound),
                Some(p) => Ok((d, p)),
            },
        }
    }

    /// Takes the entry `deleted`, whose key has the hash `key_hash`, out from behind the
    /// entry `prev`.
    pub fn remove_after(
        &mut self,
        key_hash: &[u8; 32],
        r: Option<&OpRecord>,
        deleted: &Found,
        prev: &Found,
    ) -> (res: Result<(), UpdateError>)
        requires
            old(self).wf(),
            well_formed(deleted.bz@),
            well_formed(prev.bz@),
        ensures
            final(self).wf(),
            match old(self).db_view().remove_after(deleted@, prev@, key_hash@, r) {
                Ok(db) => {
                    &&& res == Ok::<(), UpdateError>(())
                    &&& final(self)@ == (UpdaterView {
                        core: old(self).core_view().with_db(db),
                        ..old(self)@
                    })
                },
                Err(e) => res == Err::<(), UpdateError>(e) && final(self)@ == old(self)@,
            },
    {
        let deleted_bz = EntryBz { bz: deleted.bz.as_slice() };
        let prev_entry = EntryBz { bz: prev.bz.as_slice() };
        let prev_changed = Entry {
            key: prev_entry.key(),
            value: prev_entry.value(),
            next_key_hash: deleted_bz.next_key_hash(),
            version: self.curr_version,
            serial_number: self.sn_end,
        };
        let dsn_list: [u64; 2] = [deleted_bz.serial_number(), prev_entry.serial_number()];
        assert(dsn_list@ =~= Db::deleted_sns(deleted@, prev@));
        assert(prev_changed@ == self.db_view().prev_without_deleted(deleted@, prev@));
        assert(fits(prev_changed@, dsn_list@));
        match self.room(1, prev_changed.get_serialized_len(2)) {
            Err(e) => {
                return Err(e);
            },
            Ok(_) => {},
        }
        match compare_prev_changed(self.check_rec, r, &prev_changed, dsn_list.as_slice()) {
            Err(e) => {
                return Err(e);
            },
            Ok(_) => {},
        }
        let new_pos: i64 = self.update_buffer.append(&prev_changed, dsn_list.as_slice());
        self.indexer.erase_kv(key_hash.as_slice(), deleted.pos);
        self.indexer.change_kv(prev.k80, prev.pos, new_pos, self.sn_end);
        self.sn_end = self.sn_end + 1;
        Ok(())
    }

    /// Removes a key that exists.
    pub fn delete_kv(&mut self, key_hash: &[u8; 32], key: &[u8], r: Option<&OpRecord>) -> (res:
        Result<(), UpdateError>)
        requires
            old(self).wf(),
        ensures
            final(self).wf(),
            ({
                let (core, outcome) = old(self).core_view().delete_kv(key_hash@, key@, r);
                &&& res == outcome
                &&& final(self)@ == (UpdaterView { core, ..old(self)@ })
            }),
    {
        let found = match self.find_deleted(key_hash, key, r) {
            Err(e) => {
                return Err(e);
            },
            Ok(found) => found,
        };
        self.remove_after(key_hash, r, &found.0, &found.1)
    }

    /// Moves the entry of `job`, whose key has the hash `key_hash`, to the end of the
    /// log.
    pub fn relocate(
        &mut self,
        r: Option<&OpRecord>,
        comp_idx: usize,
        job: &CompactJob,
        key_hash: &[u8; 32],
    ) -> (res: Result<(), UpdateError>)
        requires
            old(self).wf(),
            well_formed(job.entry_bz@),
        ensures
            final(self).wf(),
            match old(self).db_view().relocate(*job, key_hash@, r, comp_idx as int) {
                Ok(db) => {
                    &&& res == Ok::<(), UpdateError>(())
                    &&& final(self)@ == (UpdaterView {
                        core: old(self).core_view().with_db(db),
                        ..old(self)@
                    })
                },
                Err(e) => res == Err::<(), UpdateError>(e) && final(self)@ == old(self)@,
            },
    {
        let entry_bz = EntryBz { bz: job.entry_bz.as_slice() };
        match compare_dig_entry(self.check_rec, r, &entry_bz, comp_idx) {
            Err(e) => {
                return Err(e);
            },
            Ok(_) => {},
        }
        let new_entry = Entry {
            key: entry_bz.key(),
            value: entry_bz.value(),
            next_key_hash: entry_bz.next_key_hash(),
            version: entry_bz.version(),
            serial_number: self.sn_end,
        };
        let old_sn: u64 = entry_bz.serial_number();
        let dsn_list: [u64; 1] = [old_sn];
        assert(dsn_list@ =~= seq![old_sn]);
        assert(new_entry@ == self.db_view().moved(parse(job.entry_bz@)));
        assert(fits(new_entry@, dsn_list@));
        match self.room(1, new_entry.get_serialized_len(1)) {
            Err(e) => {
                return Err(e);
            },
            Ok(_) => {},
        }
        if old_sn == u64::MAX {
            return Err(UpdateError::SerialNumberOverflow);
        }
        let done_pos: i128 = job.old_pos as i128 + entry_bz.len() as i128;
        if done_pos > i64::MAX as i128 {
            return Err(UpdateError::FilePositionOverflow);
        }
        match compare_put_entry(self.check_rec, r, &new_entry, dsn_list.as_slice(), comp_idx) {
            Err(e) => {
                return Err(e);
            },
            Ok(_) => {},
        }
        let k80: u128 = to_k80(key_hash.as_slice());
        let new_pos: i64 = self.update_buffer.append(&new_entry, dsn_list.as_slice());
        self.indexer.change_kv(k80, job.old_pos, new_pos, self.sn_end);
        self.sn_end = self.sn_end + 1;
        self.sn_start = old_sn + 1;
        self.compact_done_pos = done_pos as i64;
        Ok(())
    }

    /// Moves one live entry to the end of the log. Takes jobs until one is for an entry
    /// that is still live; each job taken goes back to the producer.
    pub fn compact(&mut self, r: Option<&OpRecord>, comp_idx: usize) -> (res: Result<
        (),
        UpdateError,
    >)
        requires
            old(self).wf(),
        ensures
            final(self).wf(),
            ({
                let (store, outcome) = old(self).store_view().compact(r, comp_idx as int);
                &&& res == outcome
                &&& final(self)@ == (UpdaterView {
                    core: Core { store, ..old(self).core_view() },
                    ..old(self)@
                })
            }),
    {
        loop
            invariant
                self.wf(),
                self@ == (UpdaterView {
                    core: Core { store: self.store_view(), ..old(self).core_view() },
                    ..old(self)@
                }),
                old(self).store_view().compact(r, comp_idx as int) == self.store_view().compact(
                    r,
                    comp_idx as int,
                ),
            decreases self.compact_consumer.jobs().len(),
        {
            let ghost before = self.store_view();
            let job = match self.compact_consumer.consume() {
                None => {
                    return Err(UpdateError::CompactJobsExhausted);
                },
                Some(job) => job,
            };
            let entry_bz = EntryBz { bz: job.entry_bz.as_slice() };
            if !entry_bz.is_well_formed() {
                self.compact_consumer.send_returned(job);
                return Err(UpdateError::MalformedEntry);
            }
            let key_hash: [u8; 32] = entry_bz.key_hash();
            if self.indexer.key_exists(key_hash.as_slice(), job.old_pos) {
                let res = self.relocate(r, comp_idx, &job, &key_hash);
                self.compact_consumer.send_returned(job);
                return res;
            }
            self.compact_consumer.send_returned(job);
            assert(self.store_view() == before.return_job());
        }
    }

    /// Runs the compactions that the current operation owes.
    fn settle(&mut self, r: Option<&OpRecord>) -> (res: Result<(), UpdateError>)
        requires
            old(self).wf(),
        ensures
            final(self).wf(),
            ({
                let (core, outcome) = old(self).core_view().settle(r);
                &&& res == outcome
                &&& final(self)@ == (UpdaterView { core, ..old(self)@ })
            }),
    {
        while self.progress.owed_next < self.progress.owed_end
            invariant
                self.wf(),
                self@ == (UpdaterView { core: self.core_view(), ..old(self)@ }),
                old(self).core_view().settle(r) == self.core_view().settle(r),
            decreases self.progress.owed_end - self.progress.owed_next,
        {
            match self.compact(r, self.progress.owed_next) {
                Err(e) => {
                    return Err(e);
                },
                Ok(_) => {},
            }
            self.progress.owed_next = self.progress.owed_next + 1;
        }
        Ok(())
    }

    /// Runs `count` compactions, if compaction is due.
    fn commit(&mut self, count: usize, r: Option<&OpRecord>) -> (res: Result<(), UpdateError>)
        requires
            old(self).wf(),
        ensures
            final(self).wf(),
            ({
                let (core, outcome) = old(self).core_view().commit(
                    old(self).db_view(),
                    count as int,
                    r,
                );
                &&& res == outcome
                &&& final(self)@ == (UpdaterView { core, ..old(self)@ })
            }),
    {
        let owed: usize = if self.is_compactible() {
            count
        } else {
            0
        };
        self.progress.owed_next = 0;
        self.progress.owed_end = owed;
        self.settle(r)
    }

    /// Compares the active entries with the record, if records are to be checked.
    fn compare_active_info(&self, rec: Option<&OpRecord>) -> (res: Result<(), UpdateError>)
        requires
            self.wf(),
        ensures
            res == self.core_view().active_info(rec),
    {
        if self.check_rec {
            _compare_active_info(self, rec)
        } else {
            Ok(())
        }
    }

    /// Begins and finishes one operation of this shard.
    fn run_op(&mut self, op: &Op) -> (res: Result<(), UpdateError>)
        requires
            old(self).wf(),
        ensures
            final(self).wf(),
            ({
                let (core, outcome) = old(self).core_view().run_op(op);
                &&& res == outcome
                &&& final(self)@ == (UpdaterView { core, ..old(self)@ })
            }),
    {
        let r = get_record(op);
        match self.compare_active_info(r) {
            Err(e) => {
                return Err(e);
            },
            Ok(_) => {},
        }
        if op.op_type == OP_WRITE {
            self.write_kv(&op.key_hash, op.key.as_slice(), op.value.as_slice(), r)
        } else if op.op_type == OP_CREATE {
            self.create_kv(&op.key_hash, op.key.as_slice(), op.value.as_slice(), r)
        } else if op.op_type == OP_DELETE {
            self.delete_kv(&op.key_hash, op.key.as_slice(), r)
        } else if op.op_type == OP_READ {
            Ok(())
        } else {
            Err(UpdateError::UnsupportedOperation)
        }
    }

    /// Finishes one operation: begins it, unless it has begun already; passes over it
    /// where it is another shard's.
    fn finish_op(&mut self, op: &Op) -> (res: Result<(), UpdateError>)
        requires
            old(self).wf(),
        ensures
            final(self).wf(),
            ({
                let (core, outcome) = old(self).core_view().finish_op(op);
                &&& res == outcome
                &&& final(self)@ == (UpdaterView { core, ..old(self)@ })
            }),
    {
        if op.shard_id != self.shard_id {
            Ok(())
        } else if self.progress.owed_next < self.progress.owed_end {
            self.settle(get_record(op))
        } else {
            self.run_op(op)
        }
    }

    /// Finishes a change set's operations, from the current one on.
    fn run_ops(&mut self, ops: &Vec<Op>) -> (res: Result<(), UpdateError>)
        requires
            old(self).wf(),
        ensures
            final(self).wf(),
            ({
                let (core, outcome) = old(self).core_view().run_ops(ops@);
                &&& res == outcome
                &&& final(self)@ == (UpdaterView { core, ..old(self)@ })
            }),
    {
        let mut i: usize = self.progress.op_idx;
        while i < ops.len()
            invariant
                self.wf(),
                i == self.progress.op_idx,
                self@ == (UpdaterView { core: self.core_view(), ..old(self)@ }),
                old(self).core_view().run_ops(ops@) == self.core_view().run_ops(ops@),
            decreases ops@.len() - i,
        {
            match self.finish_op(&ops[i]) {
                Err(e) => {
                    return Err(e);
                },
                Ok(_) => {},
            }
            i += 1;
            self.progress.op_idx = i;
        }
        Ok(())
    }

    /// Finishes a task's change sets, from the current one on.
    fn run_sets(&mut self, sets: &Vec<ChangeSet>) -> (res: Result<(), UpdateError>)
        requires
            old(self).wf(),
        ensures
            final(self).wf(),
            ({
                let (core, outcome) = old(self).core_view().run_sets(sets@);
                &&& res == outcome
                &&& final(self)@ == (UpdaterView { core, ..old(self)@ })
            }),
    {
        let mut i: usize = self.progress.set_idx;
        while i < sets.len()
            invariant
                self.wf(),
                i == self.progress.set_idx,
                self@ == (UpdaterView { core: self.core_view(), ..old(self)@ }),
                old(self).core_view().run_sets(sets@) == self.core_view().run_sets(sets@),
            decreases sets@.len() - i,
        {
            match self.run_ops(&sets[i].ops) {
                Err(e) => {
                    return Err(e);
                },
                Ok(_) => {},
            }
            if self.curr_version == i64::MAX {
                return Err(UpdateError::VersionOverflow);
            }
            self.curr_version = self.curr_version + 1;
            i += 1;
            self.progress.set_idx = i;
            self.progress.op_idx = 0;
        }
        Ok(())
    }

    /// Runs a task to its end. Where it stops because no job for a live entry is left
    /// for a compaction that is due, a further call goes on from there.
    pub fn run_task(&mut self, task_id: i64) -> (res: Result<(), UpdateError>)
        requires
            old(self).wf(),
        ensures
            final(self).wf(),
            ({
                let (core, outcome) = old(self).core_view().run_task(task_id);
                &&& res == outcome
                &&& final(self)@ == (UpdaterView { core, ..old(self)@ })
            }),
    {
        let (cache_for_new_block, end_block) = match self.task_hub.check_begin_end(task_id) {
            Some(r) => r,
            None => {
                return Err(UpdateError::UnknownTask);
            },
        };
        let change_sets = match self.task_hub.get_change_sets(task_id) {
            Some(r) => r,
            None => {
                return Err(UpdateError::UnknownTask);
            },
        };
        match self.progress.task {
            Some(running) => {
                if running != task_id {
                    return Err(UpdateError::OtherTaskRunning);
                }
            },
            None => {
                if let Some(cache) = cache_for_new_block {
                    self.cache = cache;
                }
                if task_id & IN_BLOCK_IDX_MASK == 0 {
                    self.curr_version = task_id;
                }
                self.progress = Progress {
                    task: Some(task_id),
                    set_idx: 0,
                    op_idx: 0,
                    owed_next: 0,
                    owed_end: 0,
                };
            },
        }
        match self.run_sets(&change_sets) {
            Err(e) => {
                return Err(e);
            },
            Ok(_) => {},
        }
        if end_block {
            self.update_buffer.end_block(self.compact_done_pos, self.sn_start, self.sn_end);
        }
        self.progress = Progress::idle();
        Ok(())
    }

    /// Runs tasks, one after the other, as long as the one whose turn it is may be run.
    pub fn run_ready_tasks(&mut self) -> (res: Result<(), UpdateError>)
        requires
            old(self).wf(),
        ensures
            final(self).wf(),
            (final(self)@, res) == old(self)@.run_ready(),
            !old(self)@.ready.contains_key(old(self)@.next_task_id)
                ==> final(self).read_entry_buf@ == old(self).read_entry_buf@,
    {
        loop
            invariant
                self.wf(),
                old(self)@.run_ready() == self@.run_ready(),
                !old(self)@.ready.contains_key(old(self)@.next_task_id) ==> self@ == old(self)@
                    && self.read_entry_buf@ == old(self).read_entry_buf@,
            decreases self.next_task_id_map@.dom().len(),
        {
            let task_id: i64 = self.next_task_id;
            let next: i64 = match self.next_task_id_map.get(&task_id) {
                Some(next) => *next,
                None => {
                    return Ok(());
                },
            };
            match self.run_task(task_id) {
                Err(e) => {
                    return Err(e);
                },
                Ok(_) => {},
            }
            self.next_task_id_map.remove(&task_id);
            self.next_task_id = next;
        }
    }

    /// Lets the task `task_id` be run, with `next_task_id` next, and runs what can be
    /// run. Tasks can be delivered in any order; each is run when its turn comes.
    pub fn run_task_with_ooo_id(&mut self, task_id: i64, next_task_id: i64) -> (res: Result<
        (),
        UpdateError,
    >)
        requires
            old(self).wf(),
        ensures
            final(self).wf(),
            (final(self)@, res) == old(self)@.deliver(task_id, next_task_id),
            !old(self)@.ready.insert(task_id, next_task_id).contains_key(
                old(self)@.next_task_id,
            ) ==> final(self).read_entry_buf@ == old(self).read_entry_buf@,
    {
        self.next_task_id_map.insert(task_id, next_task_id);
        self.run_ready_tasks()
    }
}

/// The record of an operation.
fn get_record(op: &Op) -> (r: Option<&OpRecord>)
    ensures
        r == record_of(op),
{
    match &op.record {
        Some(r) => Some(r),
        None => None,
    }
}

/// Compares the active entries with the record.
pub fn _compare_active_info(updater: &Updater, rec: Option<&OpRecord>) -> (res: Result<
    (),
    UpdateError,
>)
    requires
        updater.wf(),
    ensures
        res == if !num_active_agrees(rec, updater.db_view().index.dom().len()) {
            Err::<(), UpdateError>(UpdateError::IncorrectNumActive)
        } else if !sn_start_agrees(rec, updater.sn_start) {
            Err(UpdateError::IncorrectSnStart)
        } else {
            Ok(())
        },
{
    match rec {
        Some(r) => {
            let num_active: usize = updater.indexer.len();
            if r.num_active != num_active {
                Err(UpdateError::IncorrectNumActive)
            } else if r.oldest_active_sn != updater.sn_start {
                Err(UpdateError::IncorrectSnStart)
            } else {
                Ok(())
            }
        },
        None => Ok(()),
    }
}

} // verus!
