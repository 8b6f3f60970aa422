//! What a record must say for its operation to end well.

use vstd::prelude::*;

use crate::active::lemma_numbers_one;
use crate::bytes::k80_of;
use crate::chain::lemma_parsed_lengths;
use crate::compaction::{
    due, first_live_job, lemma_compact_takes, lemma_relocate_moves, lemma_settle_one,
};
use crate::compactor::CompactJob;
use crate::entry::{is_dump, parse, well_formed};
use crate::error::UpdateError;
use crate::hash::sha256;
use crate::indexer::adjacent_values;
use crate::model::{Core, Db, DeleteScan, Located, ProgressView, Store};
use crate::operations::{bytes_at, lemma_create_does, lemma_delete_does, lemma_two_appended};
use crate::tasks::{Op, OpRecord};

verus! {

/// The entry `i` of `list` is `bz`.
pub open spec fn lists(list: Seq<Vec<u8>>, i: int, bz: Seq<u8>) -> bool {
    0 <= i < list.len() && list[i]@ == bz
}

/// Before an operation, its record must have the number of live entries and the least serial
/// number that can be in use; where both differ the number of entries is told.
pub proof fn lemma_active_info(core: Core, op: &Op, r: &OpRecord)
    requires
        core.store.db.check_rec,
        op.record == Some(*r),
    ensures
        r.num_active != core.store.db.index.dom().len() ==> core.run_op(op) == (
            core,
            Err::<(), UpdateError>(UpdateError::IncorrectNumActive),
        ),
        r.num_active == core.store.db.index.dom().len() && r.oldest_active_sn
            != core.store.db.sn_start ==> core.run_op(op) == (
            core,
            Err::<(), UpdateError>(UpdateError::IncorrectSnStart),
        ),
        r.num_active == core.store.db.index.dom().len() && r.oldest_active_sn
            == core.store.db.sn_start && op.op_type == 1 ==> core.run_op(op) == (
            core,
            Ok::<(), UpdateError>(()),
        ),
{
}

// ---- creation ----

proof fn lemma_find_prev_checked(
    db: Db,
    places: Seq<(u128, i64)>,
    key_hash: Seq<u8>,
    r: &OpRecord,
)
    requires
        db.check_rec,
    ensures
        db.find_prev(places, key_hash, Some(r)) == match db.find_prev(places, key_hash, None) {
            Ok(prev) => if lists(r.rd_list@, 0, prev.bz) {
                Ok::<Located, UpdateError>(prev)
            } else {
                Err(UpdateError::ComparePrevEntry)
            },
            Err(e) => Err(e),
        },
    decreases places.len(),
{
    if places.len() > 0 {
        lemma_find_prev_checked(db, places.skip(1), key_hash, r);
    }
}

proof fn lemma_insert_checked(
    db: Db,
    prev: Located,
    key_hash: Seq<u8>,
    key: Seq<u8>,
    value: Seq<u8>,
    r: &OpRecord,
    next: Db,
)
    requires
        db.check_rec,
        key_hash.len() == 32,
        well_formed(prev.bz),
        db.insert_after(prev, key_hash, key, value, None) == Ok::<Db, UpdateError>(next),
    ensures
        db.insert_after(prev, key_hash, key, value, Some(r)) == if !lists(
            r.wr_list@,
            r.wr_list@.len() - 1,
            db.appended(next)[0],
        ) {
            Err::<Db, UpdateError>(UpdateError::CompareNewEntry)
        } else if !lists(r.wr_list@, 0, db.appended(next)[1]) {
            Err(UpdateError::ComparePrevChanged)
        } else {
            Ok(next)
        },
{
    lemma_parsed_lengths(prev.bz);
    let e = db.created(prev, key, value);
    let c = db.prev_before_created(prev, key_hash);
    let dsns = seq![prev.entry().serial_number];
    lemma_two_appended(db, next, e, c, dsns);
    assert forall|b: Seq<u8>| is_dump(b, e, Seq::empty()) <==> b == db.appended(next)[0] by {}
    assert forall|b: Seq<u8>| is_dump(b, c, dsns) <==> b == db.appended(next)[1] by {}
}

/// A creation that ends well without a record ends the same way with one if and only if the
/// first entry that the record read is the new key's neighbour, the last that it wrote is the
/// new entry, and the first that it wrote is the changed neighbour. The first of these that
/// does not hold is told.
pub proof fn lemma_create_checked(
    db: Db,
    key_hash: Seq<u8>,
    key: Seq<u8>,
    value: Seq<u8>,
    r: &OpRecord,
    next: Db,
) -> (place: (u128, i64))
    requires
        db.check_rec,
        key_hash.len() == 32,
        db.index.dom().finite(),
        db.create(key_hash, key, value, None) == Ok::<Db, UpdateError>(next),
    ensures
        db.index.contains_key(place),
        db.reads_around(place, key_hash),
        db.create(key_hash, key, value, Some(r)) == if !lists(
            r.rd_list@,
            0,
            bytes_at(db, place),
        ) {
            Err::<Db, UpdateError>(UpdateError::ComparePrevEntry)
        } else if !lists(r.wr_list@, r.wr_list@.len() - 1, db.appended(next)[0]) {
            Err(UpdateError::CompareNewEntry)
        } else if !lists(r.wr_list@, 0, db.appended(next)[1]) {
            Err(UpdateError::ComparePrevChanged)
        } else {
            Ok(next)
        },
{
    let place = lemma_create_does(db, key_hash, key, value, None, next);
    let places = adjacent_values(db.index, k80_of(key_hash));
    lemma_find_prev_checked(db, places, key_hash, r);
    let prev = db.located(place);
    lemma_insert_checked(db, prev, key_hash, key, value, r, next);
    place
}

// ---- deletion ----

proof fn lemma_scan_checked(
    db: Db,
    places: Seq<(u128, i64)>,
    key_hash: Seq<u8>,
    key: Seq<u8>,
    r: &OpRecord,
    found: DeleteScan,
)
    requires
        db.check_rec,
        db.scan_deleted(places, key_hash, key, None, found) is Ok,
    ensures
        ({
            let after = db.scan_deleted(places, key_hash, key, None, found)->Ok_0;
            let res = db.scan_deleted(places, key_hash, key, Some(r), found);
            let old_ok = found.deleted is Some || after.deleted is None || lists(
                r.rd_list@,
                r.rd_list@.len() - 1,
                after.deleted->0.bz,
            );
            let prev_ok = found.prev is Some || after.prev is None || lists(
                r.rd_list@,
                0,
                after.prev->0.bz,
            );
            &&& found.deleted is Some ==> after.deleted == found.deleted
            &&& found.prev is Some ==> after.prev == found.prev
            &&& old_ok && prev_ok ==> res == Ok::<DeleteScan, UpdateError>(after)
            &&& !old_ok && prev_ok ==> res == Err::<DeleteScan, UpdateError>(
                UpdateError::CompareOldEntry,
            )
            &&& old_ok && !prev_ok ==> res == Err::<DeleteScan, UpdateError>(
                UpdateError::ComparePrevEntry,
            )
            &&& !old_ok && !prev_ok ==> res == Err::<DeleteScan, UpdateError>(
                UpdateError::CompareOldEntry,
            ) || res == Err::<DeleteScan, UpdateError>(UpdateError::ComparePrevEntry)
        }),
    decreases places.len(),
{
    if places.len() == 0 || (found.deleted is Some && found.prev is Some) {
    } else {
        let rest = places.skip(1);
        let bz = db.load(places[0].1)->Ok_0;
        let here = Some(Located { place: places[0], bz });
        if found.deleted is None && parse(bz).key == key {
            lemma_scan_checked(
                db,
                rest,
                key_hash,
                key,
                r,
                DeleteScan { deleted: here, ..found },
            );
        } else if found.prev is None && parse(bz).next_key_hash == key_hash {
            lemma_scan_checked(db, rest, key_hash, key, r, DeleteScan { prev: here, ..found });
        } else {
            lemma_scan_checked(db, rest, key_hash, key, r, found);
        }
    }
}

/// A deletion that ends well without a record ends the same way with one if and only if the
/// last entry that the record read is the deleted one, the first is the one before it, and
/// the first that it wrote is that one as changed. Where one alone does not hold, that one is
/// told.
pub proof fn lemma_delete_checked(
    db: Db,
    key_hash: Seq<u8>,
    key: Seq<u8>,
    r: &OpRecord,
    next: Db,
) -> (found: ((u128, i64), (u128, i64)))
    requires
        db.check_rec,
        db.index.dom().finite(),
        db.delete(key_hash, key, None) == Ok::<Db, UpdateError>(next),
    ensures
        parse(bytes_at(db, found.0)).key == key,
        parse(bytes_at(db, found.1)).next_key_hash == key_hash,
        ({
            let res = db.delete(key_hash, key, Some(r));
            let old_ok = lists(r.rd_list@, r.rd_list@.len() - 1, bytes_at(db, found.0));
            let prev_ok = lists(r.rd_list@, 0, bytes_at(db, found.1));
            let changed_ok = lists(r.wr_list@, 0, db.appended(next)[0]);
            &&& old_ok && prev_ok && changed_ok <==> res == Ok::<Db, UpdateError>(next)
            &&& old_ok && prev_ok && changed_ok <==> res is Ok
            &&& !old_ok && prev_ok ==> res == Err::<Db, UpdateError>(UpdateError::CompareOldEntry)
            &&& old_ok && !prev_ok ==> res == Err::<Db, UpdateError>(UpdateError::ComparePrevEntry)
            &&& old_ok && prev_ok && !changed_ok ==> res == Err::<Db, UpdateError>(
                UpdateError::ComparePrevChanged,
            )
        }),
{
    let found = lemma_delete_does(db, key_hash, key, None, next);
    let places = adjacent_values(db.index, k80_of(key_hash));
    let none = DeleteScan { deleted: None, prev: None };
    lemma_scan_checked(db, places, key_hash, key, r, none);
    lemma_unlink_checked(db, db.located(found.0), db.located(found.1), key_hash, r, next);
    found
}

proof fn lemma_unlink_checked(
    db: Db,
    deleted: Located,
    prev: Located,
    key_hash: Seq<u8>,
    r: &OpRecord,
    next: Db,
)
    requires
        db.check_rec,
        well_formed(deleted.bz),
        well_formed(prev.bz),
        db.remove_after(deleted, prev, key_hash, None) == Ok::<Db, UpdateError>(next),
    ensures
        db.remove_after(deleted, prev, key_hash, Some(r)) == if lists(
            r.wr_list@,
            0,
            db.appended(next)[0],
        ) {
            Ok::<Db, UpdateError>(next)
        } else {
            Err(UpdateError::ComparePrevChanged)
        },
{
    lemma_parsed_lengths(deleted.bz);
    lemma_parsed_lengths(prev.bz);
    let c = db.prev_without_deleted(deleted, prev);
    let dsns = Db::deleted_sns(deleted, prev);
    lemma_numbers_one(db, next, c, dsns);
    assert forall|b: Seq<u8>| is_dump(b, c, dsns) <==> b == db.appended(next)[0] by {}
}

// ---- compaction ----

/// An entry that can be moved without a record can be moved with one if and only if the
/// record's compaction of this number read that entry and wrote the moved one. The first of
/// these that does not hold is told.
pub proof fn lemma_relocate_checked(
    db: Db,
    job: CompactJob,
    r: &OpRecord,
    comp_idx: int,
    next: Db,
)
    requires
        db.check_rec,
        well_formed(job.entry_bz@),
        db.relocate(job, sha256(parse(job.entry_bz@).key), None, comp_idx) == Ok::<
            Db,
            UpdateError,
        >(next),
    ensures
        db.relocate(job, sha256(parse(job.entry_bz@).key), Some(r), comp_idx) == if !lists(
            r.dig_list@,
            comp_idx,
            job.entry_bz@,
        ) {
            Err::<Db, UpdateError>(UpdateError::CompareDigEntry)
        } else if !lists(r.put_list@, comp_idx, db.appended(next)[0]) {
            Err(UpdateError::ComparePutEntry)
        } else {
            Ok(next)
        },
{
    let old = parse(job.entry_bz@);
    let e = db.moved(old);
    let dsns = seq![old.serial_number];
    lemma_parsed_lengths(job.entry_bz@);
    lemma_numbers_one(db, next, e, dsns);
    assert forall|b: Seq<u8>| is_dump(b, e, dsns) <==> b == db.appended(next)[0] by {}
}

/// The record's compaction `comp_idx` read the entry of the first live job and wrote what
/// the compaction from `store` to `next` appended.
pub open spec fn recorded_compaction(
    store: Store,
    next: Store,
    r: &OpRecord,
    comp_idx: int,
) -> bool {
    exists|n: int|
        {
            &&& #[trigger] first_live_job(store.db, store.jobs, n)
            &&& lists(r.dig_list@, comp_idx, store.jobs[n].entry_bz@)
            &&& lists(r.put_list@, comp_idx, next.db.buffer.entries[store.db.buffer.end])
        }
}

/// A compaction that ends well with a record is the one that the record has under its number.
pub proof fn lemma_compact_checked(store: Store, r: &OpRecord, comp_idx: int)
    requires
        store.db.check_rec,
        store.compact(Some(r), comp_idx).1 is Ok,
    ensures
        recorded_compaction(store, store.compact(Some(r), comp_idx).0, r, comp_idx),
{
    let n = lemma_compact_takes(store, Some(r), comp_idx);
    let job = store.jobs[n];
    let db = store.db;
    let next = store.compact(Some(r), comp_idx).0.db;
    lemma_relocate_checked(db, job, r, comp_idx, next);
    lemma_relocate_moves(db, job, Some(r), comp_idx, next);
}

/// The compaction that a write runs is the first that its record has.
pub proof fn lemma_write_compaction_checked(
    core: Core,
    key_hash: Seq<u8>,
    key: Seq<u8>,
    value: Seq<u8>,
    r: &OpRecord,
    written: Db,
)
    requires
        core.store.db.check_rec,
        core.store.db.write(key_hash, key, value) == Ok::<Db, UpdateError>(written),
        core.write_kv(key_hash, key, value, Some(r)).1 is Ok,
        due(written),
    ensures
        recorded_compaction(
            Store { db: written, ..core.store },
            core.write_kv(key_hash, key, value, Some(r)).0.store,
            r,
            0,
        ),
{
    let begun = core.with_db(written).with_progress(
        ProgressView { owed_next: 0, owed_end: 1, ..core.progress },
    );
    assert(core.write_kv(key_hash, key, value, Some(r)) == begun.settle(Some(r)));
    lemma_settle_one(begun, Some(r));
    lemma_compact_checked(begun.store, r, 0);
}

/// The compactions that a creation runs are the first and the second that its record has.
pub proof fn lemma_create_compactions_checked(
    core: Core,
    key_hash: Seq<u8>,
    key: Seq<u8>,
    value: Seq<u8>,
    r: &OpRecord,
    created: Db,
) -> (mid: Store)
    requires
        core.store.db.check_rec,
        core.store.db.create(key_hash, key, value, Some(r)) == Ok::<Db, UpdateError>(created),
        core.create_kv(key_hash, key, value, Some(r)).1 is Ok,
        due(created),
    ensures
        recorded_compaction(Store { db: created, ..core.store }, mid, r, 0),
        recorded_compaction(mid, core.create_kv(key_hash, key, value, Some(r)).0.store, r, 1),
{
    let begun = core.with_db(created).with_progress(
        ProgressView { owed_next: 0, owed_end: 2, ..core.progress },
    );
    assert(core.create_kv(key_hash, key, value, Some(r)) == begun.settle(Some(r)));
    let mid = begun.store.compact(Some(r), 0).0;
    lemma_compact_checked(begun.store, r, 0);
    let half = Core {
        store: mid,
        progress: ProgressView { owed_next: 1, ..begun.progress },
        ..begun
    };
    assert(begun.settle(Some(r)) == half.settle(Some(r)));
    let n = lemma_compact_takes(begun.store, Some(r), 0);
    lemma_settle_one(half, Some(r));
    lemma_compact_checked(mid, r, 1);
    mid
}

} // verus!
