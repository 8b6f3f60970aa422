//! What a compaction moves, what it says of the moved entry, and how many an operation runs.

use vstd::prelude::*;

use crate::active::{
    lemma_appended_twice, lemma_create_numbers, lemma_delete_numbers, lemma_numbers_one,
    lemma_numbers_twice, lemma_write_numbers,
};
use crate::bytes::k80_of;
use crate::chain::lemma_parsed_lengths;
use crate::compactor::CompactJob;
use crate::entry::{entry_len, parse, parse_dsns, serialized_len, well_formed};
use crate::error::UpdateError;
use crate::hash::sha256;
use crate::model::{Core, Db, ProgressView, Store};
use crate::tasks::OpRecord;

verus! {

/// Where the entry of a job stands in the index, if it is live.
pub open spec fn job_place(job: CompactJob) -> (u128, i64) {
    (k80_of(sha256(parse(job.entry_bz@).key)), job.old_pos)
}

/// From `db` to `next`, the entry of `job` alone was moved: one entry was appended, which
/// says what the moved one said but for its serial number, and takes the moved one out of
/// use; the index item went along; the log is done with up to the end of the moved entry,
/// and the serial numbers up to its own.
pub open spec fn moved_to_end(db: Db, next: Db, job: CompactJob) -> bool {
    let old = parse(job.entry_bz@);
    let bz = next.buffer.entries[db.buffer.end];
    &&& db.numbers(next)
    &&& db.appended(next) == seq![bz]
    &&& parse(bz).key == old.key
    &&& parse(bz).value == old.value
    &&& parse(bz).next_key_hash == old.next_key_hash
    &&& parse(bz).version == old.version
    &&& parse(bz).serial_number == db.sn_end
    &&& parse_dsns(bz) == seq![old.serial_number]
    &&& next.sn_end == db.sn_end + 1
    &&& next.sn_start == old.serial_number + 1
    &&& next.compact_done_pos == job.old_pos + job.entry_bz@.len()
    &&& next.index == db.index.remove(job_place(job)).insert(
        (job_place(job).0, db.buffer.end),
        db.sn_end,
    )
    &&& next.buffer.start == db.buffer.start
    &&& next.buffer.blocks == db.buffer.blocks
    &&& next.shard_id == db.shard_id
    &&& next.cache == db.cache
    &&& next.file == db.file
    &&& next.curr_version == db.curr_version
    &&& next.utilization_div == db.utilization_div
    &&& next.utilization_ratio == db.utilization_ratio
    &&& next.compact_thres == db.compact_thres
    &&& next.check_rec == db.check_rec
}

/// The entry of a job that can be moved is moved to the end of the log as it is: key,
/// value, next hash and version stay, and the serial number alone is new. The log is done
/// with up to where the moved entry ended.
pub proof fn lemma_relocate_moves(
    db: Db,
    job: CompactJob,
    rec: Option<&OpRecord>,
    comp_idx: int,
    next: Db,
)
    requires
        well_formed(job.entry_bz@),
        db.relocate(job, sha256(parse(job.entry_bz@).key), rec, comp_idx) == Ok::<
            Db,
            UpdateError,
        >(next),
    ensures
        parse(next.buffer.entries[db.buffer.end]).key == parse(job.entry_bz@).key,
        parse(next.buffer.entries[db.buffer.end]).value == parse(job.entry_bz@).value,
        parse(next.buffer.entries[db.buffer.end]).next_key_hash == parse(
            job.entry_bz@,
        ).next_key_hash,
        parse(next.buffer.entries[db.buffer.end]).version == parse(job.entry_bz@).version,
        parse(next.buffer.entries[db.buffer.end]).serial_number == db.sn_end,
        next.compact_done_pos == job.old_pos + job.entry_bz@.len(),
        next.sn_start == parse(job.entry_bz@).serial_number + 1,
        moved_to_end(db, next, job),
{
    let old = Db::job_entry(job, sha256(parse(job.entry_bz@).key));
    lemma_parsed_lengths(old.bz);
    let dsns = seq![old.entry().serial_number];
    lemma_numbers_one(db, next, db.moved(old.entry()), dsns);
    assert(db.appended(next)[0] == next.buffer.entries[db.buffer.end]);
}

/// Without a record, a live entry can be moved if and only if there is a serial number for
/// it, one behind its own, and room in the log for it and behind where it stands.
pub proof fn lemma_relocate_succeeds(db: Db, job: CompactJob, comp_idx: int)
    requires
        well_formed(job.entry_bz@),
    ensures
        db.relocate(job, sha256(parse(job.entry_bz@).key), None, comp_idx) is Ok <==> {
            &&& db.sn_end < 0xffff_ffff_ffff_ffff
            &&& parse(job.entry_bz@).serial_number < 0xffff_ffff_ffff_ffff
            &&& db.buffer.end + serialized_len(parse(job.entry_bz@), 1) <= 0x7fff_ffff_ffff_ffff
            &&& job.old_pos + job.entry_bz@.len() <= 0x7fff_ffff_ffff_ffff
        },
{
}

/// The first `n` jobs, and no others, were taken and sent back, in order.
pub open spec fn took(store: Store, next: Store, n: int) -> bool {
    &&& 0 <= n <= store.jobs.len()
    &&& next.jobs == store.jobs.skip(n)
    &&& next.returned == store.returned + store.jobs.take(n)
}

/// The entry of the job `n` is live, and those of the jobs before it are not.
pub open spec fn first_live_job(db: Db, jobs: Seq<CompactJob>, n: int) -> bool {
    &&& 0 <= n < jobs.len()
    &&& well_formed(jobs[n].entry_bz@)
    &&& db.index.contains_key(job_place(jobs[n]))
    &&& forall|j: int|
        0 <= j < n ==> well_formed((#[trigger] jobs[j]).entry_bz@) && !db.index.contains_key(
            job_place(jobs[j]),
        )
}

pub(crate) proof fn lemma_compact_takes(
    store: Store,
    rec: Option<&OpRecord>,
    comp_idx: int,
) -> (n: int)
    requires
        store.compact(rec, comp_idx).1 is Ok,
    ensures
        ({
            let next = store.compact(rec, comp_idx).0;
            &&& first_live_job(store.db, store.jobs, n)
            &&& took(store, next, n + 1)
            &&& store.db.relocate(
                store.jobs[n],
                sha256(parse(store.jobs[n].entry_bz@).key),
                rec,
                comp_idx,
            ) == Ok::<Db, UpdateError>(next.db)
        }),
    decreases store.jobs.len(),
{
    let job = store.jobs[0];
    let rest = store.return_job();
    let next = store.compact(rec, comp_idx).0;
    if store.db.index.contains_key(job_place(job)) {
        assert(next.returned =~= store.returned + store.jobs.take(1));
        0
    } else {
        let m = lemma_compact_takes(rest, rec, comp_idx);
        let n = m + 1;
        assert(rest.jobs[m] == store.jobs[n]);
        assert forall|j: int| 0 <= j < n implies well_formed(
            (#[trigger] store.jobs[j]).entry_bz@,
        ) && !store.db.index.contains_key(job_place(store.jobs[j])) by {
            if j > 0 {
                assert(rest.jobs[j - 1] == store.jobs[j]);
            }
        }
        assert(next.jobs =~= store.jobs.skip(n + 1));
        assert(next.returned =~= store.returned + store.jobs.take(n + 1));
        n
    }
}

/// A compaction that ends well moves the entry of the first job whose entry is live, and
/// takes and sends back that job and those before it.
pub proof fn lemma_compact_moves(store: Store, rec: Option<&OpRecord>, comp_idx: int) -> (n: int)
    requires
        store.compact(rec, comp_idx).1 is Ok,
    ensures
        first_live_job(store.db, store.jobs, n),
        took(store, store.compact(rec, comp_idx).0, n + 1),
        moved_to_end(store.db, store.compact(rec, comp_idx).0.db, store.jobs[n]),
{
    let n = lemma_compact_takes(store, rec, comp_idx);
    let next = store.compact(rec, comp_idx).0.db;
    lemma_relocate_moves(store.db, store.jobs[n], rec, comp_idx, next);
    n
}

/// A compaction wants a job if and only if the entry of no job is live; then it has sent all
/// of them back and changed nothing else.
pub proof fn lemma_compact_wants_job(store: Store, rec: Option<&OpRecord>, comp_idx: int)
    ensures
        store.compact(rec, comp_idx).1 == Err::<(), UpdateError>(UpdateError::CompactJobsExhausted)
            <==> forall|j: int|
            0 <= j < store.jobs.len() ==> well_formed((#[trigger] store.jobs[j]).entry_bz@)
                && !store.db.index.contains_key(job_place(store.jobs[j])),
        store.compact(rec, comp_idx).1 == Err::<(), UpdateError>(UpdateError::CompactJobsExhausted)
            ==> store.compact(rec, comp_idx).0.db == store.db && took(
            store,
            store.compact(rec, comp_idx).0,
            store.jobs.len() as int,
        ),
    decreases store.jobs.len(),
{
    if store.jobs.len() > 0 {
        let rest = store.return_job();
        lemma_compact_wants_job(rest, rec, comp_idx);
        assert forall|j: int| 0 <= j < rest.jobs.len() implies #[trigger] rest.jobs[j]
            == store.jobs[j + 1] by {}
        let dead = |s: Store|
            forall|j: int|
                0 <= j < s.jobs.len() ==> well_formed((#[trigger] s.jobs[j]).entry_bz@)
                    && !s.db.index.contains_key(job_place(s.jobs[j]));
        let job = store.jobs[0];
        if well_formed(job.entry_bz@) && !store.db.index.contains_key(job_place(job)) {
            if dead(rest) {
                assert forall|j: int| 0 <= j < store.jobs.len() implies well_formed(
                    (#[trigger] store.jobs[j]).entry_bz@,
                ) && !store.db.index.contains_key(job_place(store.jobs[j])) by {
                    if j > 0 {
                        assert(rest.jobs[j - 1] == store.jobs[j]);
                    }
                }
                let next = store.compact(rec, comp_idx).0;
                assert(next.jobs =~= store.jobs.skip(store.jobs.len() as int));
                assert(next.returned =~= store.returned + store.jobs.take(
                    store.jobs.len() as int,
                ));
            }
            if dead(store) {
                assert forall|j: int| 0 <= j < rest.jobs.len() implies well_formed(
                    (#[trigger] rest.jobs[j]).entry_bz@,
                ) && !rest.db.index.contains_key(job_place(rest.jobs[j])) by {
                    assert(rest.jobs[j] == store.jobs[j + 1]);
                }
            }
        } else {
            assert(!(well_formed(store.jobs[0].entry_bz@) && !store.db.index.contains_key(
                job_place(store.jobs[0]),
            )));
        }
    } else {
        assert(store.returned =~= store.returned + store.jobs.take(0));
        assert(store.jobs =~= store.jobs.skip(0));
    }
}

/// The entries of the first `n` jobs are whole and not live.
pub open spec fn dead_before(db: Db, jobs: Seq<CompactJob>, n: int) -> bool {
    &&& 0 <= n <= jobs.len()
    &&& forall|j: int|
        0 <= j < n ==> well_formed((#[trigger] jobs[j]).entry_bz@) && !db.index.contains_key(
            job_place(jobs[j]),
        )
}

/// Behind jobs whose entries are not live, a job whose entry is cut off stops a compaction,
/// and so does one whose live entry cannot be moved; that job, too, is taken and sent back,
/// and the database stays as it was.
pub proof fn lemma_compact_stops(store: Store, rec: Option<&OpRecord>, comp_idx: int, n: int)
    requires
        dead_before(store.db, store.jobs, n),
        n < store.jobs.len(),
    ensures
        ({
            let job = store.jobs[n];
            let (next, res) = store.compact(rec, comp_idx);
            let moved = store.db.relocate(job, sha256(parse(job.entry_bz@).key), rec, comp_idx);
            &&& !well_formed(job.entry_bz@) ==> {
                &&& res == Err::<(), UpdateError>(UpdateError::MalformedEntry)
                &&& next.db == store.db
                &&& took(store, next, n + 1)
            }
            &&& well_formed(job.entry_bz@) && store.db.index.contains_key(job_place(job))
                && moved is Err ==> {
                &&& res == Err::<(), UpdateError>(moved->Err_0)
                &&& next.db == store.db
                &&& took(store, next, n + 1)
            }
        }),
    decreases n,
{
    let rest = store.return_job();
    let next = store.compact(rec, comp_idx).0;
    if n > 0 {
        assert(well_formed(store.jobs[0].entry_bz@));
        assert(!store.db.index.contains_key(job_place(store.jobs[0])));
        assert forall|j: int| 0 <= j < n - 1 implies well_formed(
            (#[trigger] rest.jobs[j]).entry_bz@,
        ) && !rest.db.index.contains_key(job_place(rest.jobs[j])) by {
            assert(rest.jobs[j] == store.jobs[j + 1]);
        }
        lemma_compact_stops(rest, rec, comp_idx, n - 1);
        assert(rest.jobs[n - 1] == store.jobs[n]);
        assert(rest.jobs.skip(n) =~= store.jobs.skip(n + 1));
        assert(rest.returned + rest.jobs.take(n) =~= store.returned + store.jobs.take(n + 1));
    } else {
        assert(rest.jobs =~= store.jobs.skip(1));
        assert(rest.returned =~= store.returned + store.jobs.take(1));
    }
}

/// With jobs in the order of the log, the log is done with up to a position behind which all
/// live entries stand, and that position never goes back: where the entry of `job` is the
/// first live one and entries do not overlap, no live entry stands before the new one.
pub proof fn lemma_done_pos_bounds(
    db: Db,
    job: CompactJob,
    rec: Option<&OpRecord>,
    comp_idx: int,
    next: Db,
)
    requires
        well_formed(job.entry_bz@),
        db.relocate(job, sha256(parse(job.entry_bz@).key), rec, comp_idx) == Ok::<
            Db,
            UpdateError,
        >(next),
        db.compact_done_pos <= job.old_pos,
        job.old_pos + job.entry_bz@.len() <= db.buffer.end,
        forall|a: (u128, i64)| #[trigger]
            db.live(a) && a != job_place(job) ==> a.1 >= job.old_pos + job.entry_bz@.len(),
    ensures
        next.compact_done_pos > db.compact_done_pos,
        forall|a: (u128, i64)| #[trigger] next.live(a) ==> a.1 >= next.compact_done_pos,
{
    lemma_relocate_moves(db, job, rec, comp_idx, next);
    assert(entry_len(job.entry_bz@) > 0);
    assert forall|a: (u128, i64)| #[trigger] next.live(a) implies a.1
        >= next.compact_done_pos by {
        if a != (job_place(job).0, db.buffer.end) {
            assert(db.live(a) && a != job_place(job));
        }
    }
}

// ---- how many compactions an operation runs ----

/// Compaction is due in `db`: the live entries are no fewer than the threshold, and no more
/// than the ratio of the serial numbers from `sn_start` up to `sn_end`.
pub open spec fn due(db: Db) -> bool {
    let live = db.index.dom().len();
    &&& live >= db.compact_thres
    &&& live * db.utilization_div <= (db.sn_end - db.sn_start) * db.utilization_ratio
}

/// One compaction from `store` to `next`: the entry of the first live job was moved.
pub open spec fn compacted_once(store: Store, next: Store) -> bool {
    exists|n: int|
        {
            &&& #[trigger] first_live_job(store.db, store.jobs, n)
            &&& took(store, next, n + 1)
            &&& moved_to_end(store.db, next.db, store.jobs[n])
        }
}

proof fn lemma_settle_none(core: Core, rec: Option<&OpRecord>)
    requires
        core.progress.owed_next == 0,
        core.progress.owed_end == 0,
    ensures
        core.settle(rec) == (core, Ok::<(), UpdateError>(())),
{
}

pub(crate) proof fn lemma_settle_one(core: Core, rec: Option<&OpRecord>)
    requires
        core.progress.owed_next + 1 == core.progress.owed_end,
        core.settle(rec).1 is Ok,
    ensures
        compacted_once(core.store, core.settle(rec).0.store),
        core.store.compact(rec, core.progress.owed_next).1 is Ok,
        core.settle(rec).0.store == core.store.compact(rec, core.progress.owed_next).0,
{
    reveal_with_fuel(Core::settle, 2);
    let n = lemma_compact_moves(core.store, rec, core.progress.owed_next);
    assert(first_live_job(core.store.db, core.store.jobs, n));
}

/// A write that ends well on a store where compaction is due after it has run exactly one:
/// it appends two entries, the new one and a live one that was moved, and one job after
/// another has been taken up to that one's. Where none is due it appends one entry, and
/// leaves the jobs, `sn_start` and `compact_done_pos` alone.
pub proof fn lemma_write_compacts_once(
    core: Core,
    key_hash: Seq<u8>,
    key: Seq<u8>,
    value: Seq<u8>,
    rec: Option<&OpRecord>,
    written: Db,
)
    requires
        core.store.db.write(key_hash, key, value) == Ok::<Db, UpdateError>(written),
        core.write_kv(key_hash, key, value, rec).1 is Ok,
    ensures
        ({
            let db = core.store.db;
            let next = core.write_kv(key_hash, key, value, rec).0.store;
            &&& db.numbers(next.db)
            &&& written.sn_end == db.sn_end + 1
            &&& written.sn_start == db.sn_start
            &&& written.compact_done_pos == db.compact_done_pos
            &&& due(written) ==> {
                &&& db.appended(next.db).len() == 2
                &&& next.db.sn_end == db.sn_end + 2
                &&& compacted_once(Store { db: written, ..core.store }, next)
            }
            &&& !due(written) ==> {
                &&& db.appended(next.db).len() == 1
                &&& next.db.sn_end == db.sn_end + 1
                &&& next == (Store { db: written, ..core.store })
            }
        }),
{
    let db = core.store.db;
    lemma_write_numbers(db, key_hash, key, value, written);
    let owed: int = if due(written) {
        1
    } else {
        0
    };
    let begun = core.with_db(written).with_progress(
        ProgressView { owed_next: 0, owed_end: owed, ..core.progress },
    );
    assert(core.write_kv(key_hash, key, value, rec) == begun.settle(rec));
    if due(written) {
        lemma_settle_one(begun, rec);
        let next = begun.settle(rec).0.store;
        let n = choose|n: int|
            {
                &&& #[trigger] first_live_job(begun.store.db, begun.store.jobs, n)
                &&& took(begun.store, next, n + 1)
                &&& moved_to_end(begun.store.db, next.db, begun.store.jobs[n])
            };
        lemma_numbers_twice(db, written, next.db);
        lemma_appended_twice(db, written, next.db);
    } else {
        lemma_settle_none(begun, rec);
    }
}

/// A creation that ends well on a store where compaction is due after it has run exactly
/// two, one after the other: it appends four entries. Where none is due it appends two, and
/// leaves the jobs, `sn_start` and `compact_done_pos` alone.
pub proof fn lemma_create_compacts_twice(
    core: Core,
    key_hash: Seq<u8>,
    key: Seq<u8>,
    value: Seq<u8>,
    rec: Option<&OpRecord>,
    created: Db,
)
    requires
        key_hash.len() == 32,
        core.store.db.create(key_hash, key, value, rec) == Ok::<Db, UpdateError>(created),
        core.create_kv(key_hash, key, value, rec).1 is Ok,
    ensures
        ({
            let db = core.store.db;
            let next = core.create_kv(key_hash, key, value, rec).0.store;
            &&& db.numbers(next.db)
            &&& created.sn_end == db.sn_end + 2
            &&& created.sn_start == db.sn_start
            &&& created.compact_done_pos == db.compact_done_pos
            &&& due(created) ==> {
                &&& db.appended(next.db).len() == 4
                &&& next.db.sn_end == db.sn_end + 4
                &&& exists|mid: Store|
                    #[trigger] compacted_once(Store { db: created, ..core.store }, mid)
                        && compacted_once(mid, next)
            }
            &&& !due(created) ==> {
                &&& db.appended(next.db).len() == 2
                &&& next.db.sn_end == db.sn_end + 2
                &&& next == (Store { db: created, ..core.store })
            }
        }),
{
    let db = core.store.db;
    lemma_create_numbers(db, key_hash, key, value, rec, created);
    let owed: int = if due(created) {
        2
    } else {
        0
    };
    let begun = core.with_db(created).with_progress(
        ProgressView { owed_next: 0, owed_end: owed, ..core.progress },
    );
    assert(core.create_kv(key_hash, key, value, rec) == begun.settle(rec));
    if due(created) {
        let mid = begun.store.compact(rec, 0).0;
        let n = lemma_compact_moves(begun.store, rec, 0);
        assert(first_live_job(begun.store.db, begun.store.jobs, n));
        assert(compacted_once(begun.store, mid));
        let half = Core {
            store: mid,
            progress: ProgressView { owed_next: 1, ..begun.progress },
            ..begun
        };
        assert(begun.settle(rec) == half.settle(rec));
        lemma_settle_one(half, rec);
        let next = half.settle(rec).0.store;
        let m = choose|m: int|
            {
                &&& #[trigger] first_live_job(mid.db, mid.jobs, m)
                &&& took(mid, next, m + 1)
                &&& moved_to_end(mid.db, next.db, mid.jobs[m])
            };
        lemma_numbers_twice(db, created, mid.db);
        lemma_appended_twice(db, created, mid.db);
        lemma_numbers_twice(db, mid.db, next.db);
        lemma_appended_twice(db, mid.db, next.db);
    } else {
        lemma_settle_none(begun, rec);
    }
}

/// A deletion never compacts: it appends one entry, and leaves the jobs, `sn_start` and
/// `compact_done_pos` alone.
pub proof fn lemma_delete_compacts_never(
    core: Core,
    key_hash: Seq<u8>,
    key: Seq<u8>,
    rec: Option<&OpRecord>,
)
    requires
        core.delete_kv(key_hash, key, rec).1 is Ok,
    ensures
        ({
            let db = core.store.db;
            let next = core.delete_kv(key_hash, key, rec).0.store;
            &&& db.appended(next.db).len() == 1
            &&& next.db.sn_end == db.sn_end + 1
            &&& next.jobs == core.store.jobs
            &&& next.returned == core.store.returned
            &&& next.db.sn_start == db.sn_start
            &&& next.db.compact_done_pos == db.compact_done_pos
        }),
{
    let next = core.store.db.delete(key_hash, key, rec)->Ok_0;
    lemma_delete_numbers(core.store.db, key_hash, key, rec, next);
}

} // verus!
