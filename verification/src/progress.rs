//! Work that stops for want of compaction jobs goes on as if it had not stopped, no job
//! is lost, and tasks can be delivered in any order.

use vstd::prelude::*;

use crate::bytes::k80_of;
use crate::compactor::CompactJob;
use crate::def::{OP_CREATE, OP_DELETE, OP_WRITE};
use crate::error::UpdateError;
use crate::indexer::{adjacent_values, keyed_values};
use crate::model::{record_of, Core, Db, DeleteScan, Located, ProgressView, Store, UpdaterView};
use crate::tasks::{ChangeSet, Op, OpRecord};

verus! {

// ---- jobs ----

impl Store {
    /// The jobs received so far, those sent back first.
    pub open spec fn all_jobs(self) -> Seq<CompactJob> {
        self.returned + self.jobs
    }

    /// The store after further jobs have been received.
    pub open spec fn fed(self, more: Seq<CompactJob>) -> Store {
        Store { jobs: self.jobs + more, ..self }
    }
}

impl Core {
    /// The core after further jobs have been received.
    pub open spec fn fed(self, more: Seq<CompactJob>) -> Core {
        Core { store: self.store.fed(more), ..self }
    }
}

impl UpdaterView {
    /// The updater after further jobs have been received.
    pub open spec fn fed(self, more: Seq<CompactJob>) -> UpdaterView {
        UpdaterView { core: self.core.fed(more), ..self }
    }
}

/// The work stopped because a job is wanted.
pub open spec fn wants_job(res: Result<(), UpdateError>) -> bool {
    res == Err::<(), UpdateError>(UpdateError::CompactJobsExhausted)
}

/// A compaction sends back each job that it takes, in order, and takes no other.
pub proof fn lemma_compact_keeps_jobs(store: Store, rec: Option<&OpRecord>, comp_idx: int)
    ensures
        store.compact(rec, comp_idx).0.all_jobs() == store.all_jobs(),
        store.compact(rec, comp_idx).0.jobs.len() <= store.jobs.len(),
    decreases store.jobs.len(),
{
    if store.jobs.len() > 0 {
        let next = store.return_job();
        assert(next.all_jobs() =~= store.all_jobs());
        lemma_compact_keeps_jobs(next, rec, comp_idx);
    }
}

/// A compaction that wants a job has taken all there were, and goes on with later jobs
/// as if they had been there; one that wants none leaves later jobs alone.
pub proof fn lemma_compact_fed(
    store: Store,
    rec: Option<&OpRecord>,
    comp_idx: int,
    more: Seq<CompactJob>,
)
    ensures
        ({
            let (next, res) = store.compact(rec, comp_idx);
            &&& !wants_job(res) ==> store.fed(more).compact(rec, comp_idx) == (next.fed(more), res)
            &&& wants_job(res) ==> {
                &&& store.fed(more).compact(rec, comp_idx) == next.fed(more).compact(rec, comp_idx)
                &&& next.jobs.len() == 0
                &&& next.db == store.db
            }
        }),
    decreases store.jobs.len(),
{
    if store.jobs.len() > 0 {
        let next = store.return_job();
        lemma_compact_fed(next, rec, comp_idx, more);
        let fed = store.fed(more);
        assert(fed.jobs[0] == store.jobs[0]);
        assert(fed.return_job() =~= next.fed(more)) by {
            assert(fed.jobs.skip(1) =~= store.jobs.skip(1) + more);
        }
    }
}

proof fn lemma_settle_keeps_jobs(core: Core, rec: Option<&OpRecord>)
    ensures
        core.settle(rec).0.store.all_jobs() == core.store.all_jobs(),
    decreases core.progress.owed_end - core.progress.owed_next,
{
    let p = core.progress;
    if p.owed_next < p.owed_end {
        lemma_compact_keeps_jobs(core.store, rec, p.owed_next);
        let (store, res) = core.store.compact(rec, p.owed_next);
        if res is Ok {
            lemma_settle_keeps_jobs(
                Core {
                    store,
                    progress: ProgressView { owed_next: p.owed_next + 1, ..p },
                    ..core
                },
                rec,
            );
        }
    }
}

proof fn lemma_settle_fed(core: Core, rec: Option<&OpRecord>, more: Seq<CompactJob>)
    ensures
        ({
            let (next, res) = core.settle(rec);
            &&& !wants_job(res) ==> core.fed(more).settle(rec) == (next.fed(more), res)
            &&& wants_job(res) ==> {
                &&& core.fed(more).settle(rec) == next.fed(more).settle(rec)
                &&& next.progress.owed_next < next.progress.owed_end
            }
            &&& res is Ok ==> next.progress.owed_next >= next.progress.owed_end
            &&& next.progress == (ProgressView {
                owed_next: next.progress.owed_next,
                ..core.progress
            })
            &&& next.tasks == core.tasks
            &&& next.store.db.shard_id == core.store.db.shard_id
        }),
    decreases core.progress.owed_end - core.progress.owed_next,
{
    let p = core.progress;
    if p.owed_next < p.owed_end {
        lemma_compact_fed(core.store, rec, p.owed_next, more);
        lemma_compact_shard(core.store, rec, p.owed_next);
        let (store, res) = core.store.compact(rec, p.owed_next);
        if res is Ok {
            let stepped = Core {
                store,
                progress: ProgressView { owed_next: p.owed_next + 1, ..p },
                ..core
            };
            lemma_settle_fed(stepped, rec, more);
        }
    }
}

proof fn lemma_compact_shard(store: Store, rec: Option<&OpRecord>, comp_idx: int)
    ensures
        store.compact(rec, comp_idx).0.db.shard_id == store.db.shard_id,
    decreases store.jobs.len(),
{
    if store.jobs.len() > 0 {
        lemma_compact_shard(store.return_job(), rec, comp_idx);
    }
}

// ---- operations ----

proof fn lemma_find_key_wants_none(db: Db, places: Seq<(u128, i64)>, key: Seq<u8>)
    ensures
        db.find_key(places, key) != Err::<Located, UpdateError>(UpdateError::CompactJobsExhausted),
    decreases places.len(),
{
    if places.len() > 0 {
        lemma_find_key_wants_none(db, places.skip(1), key);
    }
}

proof fn lemma_find_prev_wants_none(
    db: Db,
    places: Seq<(u128, i64)>,
    key_hash: Seq<u8>,
    rec: Option<&OpRecord>,
)
    ensures
        db.find_prev(places, key_hash, rec) != Err::<Located, UpdateError>(
            UpdateError::CompactJobsExhausted,
        ),
    decreases places.len(),
{
    if places.len() > 0 {
        lemma_find_prev_wants_none(db, places.skip(1), key_hash, rec);
    }
}

proof fn lemma_scan_deleted_wants_none(
    db: Db,
    places: Seq<(u128, i64)>,
    key_hash: Seq<u8>,
    key: Seq<u8>,
    rec: Option<&OpRecord>,
    found: DeleteScan,
)
    ensures
        db.scan_deleted(places, key_hash, key, rec, found) != Err::<DeleteScan, UpdateError>(
            UpdateError::CompactJobsExhausted,
        ),
    decreases places.len(),
{
    if places.len() > 0 && db.load(places[0].1) is Ok {
        let here = Some(Located { place: places[0], bz: db.load(places[0].1)->Ok_0 });
        let rest = places.skip(1);
        lemma_scan_deleted_wants_none(db, rest, key_hash, key, rec, found);
        lemma_scan_deleted_wants_none(
            db,
            rest,
            key_hash,
            key,
            rec,
            DeleteScan { deleted: here, ..found },
        );
        lemma_scan_deleted_wants_none(
            db,
            rest,
            key_hash,
            key,
            rec,
            DeleteScan { prev: here, ..found },
        );
    }
}

/// What an operation does before it compacts does not want a job.
proof fn lemma_op_wants_none(
    db: Db,
    key_hash: Seq<u8>,
    key: Seq<u8>,
    value: Seq<u8>,
    rec: Option<&OpRecord>,
)
    ensures
        db.write(key_hash, key, value) != Err::<Db, UpdateError>(
            UpdateError::CompactJobsExhausted,
        ),
        db.create(key_hash, key, value, rec) != Err::<Db, UpdateError>(
            UpdateError::CompactJobsExhausted,
        ),
        db.delete(key_hash, key, rec) != Err::<Db, UpdateError>(UpdateError::CompactJobsExhausted),
{
    let k = k80_of(key_hash);
    lemma_find_key_wants_none(db, keyed_values(db.index, k), key);
    lemma_find_prev_wants_none(db, adjacent_values(db.index, k), key_hash, rec);
    lemma_scan_deleted_wants_none(
        db,
        adjacent_values(db.index, k),
        key_hash,
        key,
        rec,
        DeleteScan { deleted: None, prev: None },
    );
}

proof fn lemma_run_op_keeps_jobs(core: Core, op: &Op)
    ensures
        core.run_op(op).0.store.all_jobs() == core.store.all_jobs(),
{
    let db = core.store.db;
    let rec = record_of(op);
    if op.op_type == OP_WRITE && db.write(op.key_hash@, op.key@, op.value@) is Ok {
        lemma_commit_keeps_jobs(core, db.write(op.key_hash@, op.key@, op.value@)->Ok_0, 1, rec);
    } else if op.op_type == OP_CREATE && db.create(op.key_hash@, op.key@, op.value@, rec) is Ok {
        lemma_commit_keeps_jobs(
            core,
            db.create(op.key_hash@, op.key@, op.value@, rec)->Ok_0,
            2,
            rec,
        );
    }
}

proof fn lemma_commit_keeps_jobs(core: Core, db: Db, count: int, rec: Option<&OpRecord>)
    ensures
        core.commit(db, count, rec).0.store.all_jobs() == core.store.all_jobs(),
{
    let owed = if db.is_compactible() {
        count
    } else {
        0
    };
    lemma_settle_keeps_jobs(
        core.with_db(db).with_progress(
            ProgressView { owed_next: 0, owed_end: owed, ..core.progress },
        ),
        rec,
    );
}

proof fn lemma_commit_fed(
    core: Core,
    db: Db,
    count: int,
    rec: Option<&OpRecord>,
    more: Seq<CompactJob>,
)
    requires
        db.shard_id == core.store.db.shard_id,
    ensures
        ({
            let (next, res) = core.commit(db, count, rec);
            &&& !wants_job(res) ==> core.fed(more).commit(db, count, rec) == (next.fed(more), res)
            &&& wants_job(res) ==> {
                &&& core.fed(more).commit(db, count, rec) == next.fed(more).settle(rec)
                &&& next.progress.owed_next < next.progress.owed_end
            }
            &&& res is Ok ==> next.progress.owed_next >= next.progress.owed_end
            &&& next.progress.task == core.progress.task
            &&& next.progress.set_idx == core.progress.set_idx
            &&& next.progress.op_idx == core.progress.op_idx
            &&& next.tasks == core.tasks
            &&& next.store.db.shard_id == core.store.db.shard_id
        }),
{
    let owed = if db.is_compactible() {
        count
    } else {
        0
    };
    let p = ProgressView { owed_next: 0, owed_end: owed, ..core.progress };
    let begun = core.with_db(db).with_progress(p);
    lemma_settle_fed(begun, rec, more);
    assert(core.fed(more).with_db(db).with_progress(p) == begun.fed(more));
}

/// Work that goes on in the task that has begun, in this shard.
spec fn same_work(core: Core, next: Core) -> bool {
    &&& next.progress.task == core.progress.task
    &&& next.progress.set_idx == core.progress.set_idx
    &&& next.tasks == core.tasks
    &&& next.store.db.shard_id == core.store.db.shard_id
}

proof fn lemma_finish_op_fed(core: Core, op: &Op, more: Seq<CompactJob>)
    requires
        core.progress.owed_next < core.progress.owed_end ==> op.shard_id == core.store.db.shard_id,
    ensures
        ({
            let (next, res) = core.finish_op(op);
            &&& !wants_job(res) ==> core.fed(more).finish_op(op) == (next.fed(more), res)
            &&& wants_job(res) ==> core.fed(more).finish_op(op) == next.fed(more).finish_op(op)
            &&& res is Ok ==> next.progress.owed_next >= next.progress.owed_end
            &&& next.progress.owed_next < next.progress.owed_end ==> op.shard_id
                == next.store.db.shard_id
            &&& same_work(core, next)
            &&& next.progress.op_idx == core.progress.op_idx
        }),
{
    let db = core.store.db;
    let rec = record_of(op);
    let fed = core.fed(more);
    if op.shard_id == db.shard_id {
        if core.progress.owed_next < core.progress.owed_end {
            lemma_settle_fed(core, rec, more);
        } else {
            lemma_op_wants_none(db, op.key_hash@, op.key@, op.value@, rec);
            assert(fed.active_info(rec) == core.active_info(rec));
            if core.active_info(rec) is Ok {
                if op.op_type == OP_WRITE {
                    if db.write(op.key_hash@, op.key@, op.value@) is Ok {
                        lemma_commit_fed(
                            core,
                            db.write(op.key_hash@, op.key@, op.value@)->Ok_0,
                            1,
                            rec,
                            more,
                        );
                    }
                } else if op.op_type == OP_CREATE {
                    if db.create(op.key_hash@, op.key@, op.value@, rec) is Ok {
                        lemma_commit_fed(
                            core,
                            db.create(op.key_hash@, op.key@, op.value@, rec)->Ok_0,
                            2,
                            rec,
                            more,
                        );
                    }
                } else if op.op_type == OP_DELETE {
                    if db.delete(op.key_hash@, op.key@, rec) is Ok {
                        let next = db.delete(op.key_hash@, op.key@, rec)->Ok_0;
                        assert(fed.with_db(next) == core.with_db(next).fed(more));
                    }
                }
            }
        }
    }
}

// ---- tasks ----

/// If compactions are owed, they are owed by an operation of this shard.
spec fn owed_in_ops(core: Core, ops: Seq<Op>) -> bool {
    core.progress.owed_next < core.progress.owed_end ==> {
        &&& 0 <= core.progress.op_idx < ops.len()
        &&& ops[core.progress.op_idx].shard_id == core.store.db.shard_id
    }
}

spec fn owed_in_sets(core: Core, sets: Seq<ChangeSet>) -> bool {
    core.progress.owed_next < core.progress.owed_end ==> {
        &&& 0 <= core.progress.set_idx < sets.len()
        &&& owed_in_ops(core, sets[core.progress.set_idx].ops@)
    }
}

impl Core {
    /// The task that has begun is known, and if compactions are owed, they are owed by
    /// an operation of it in this shard.
    pub closed spec fn coherent(self) -> bool {
        self.progress.task matches Some(task_id) ==> {
            &&& self.tasks.contains_key(task_id)
            &&& owed_in_sets(self, self.tasks[task_id].change_sets@)
        }
    }
}

/// Where no task has begun, nothing is owed to one.
pub proof fn lemma_idle_coherent(core: Core)
    requires
        core.progress.task is None,
    ensures
        core.coherent(),
{
}

proof fn lemma_run_ops_fed(core: Core, ops: Seq<Op>, more: Seq<CompactJob>)
    requires
        owed_in_ops(core, ops),
    ensures
        ({
            let (next, res) = core.run_ops(ops);
            &&& !wants_job(res) ==> core.fed(more).run_ops(ops) == (next.fed(more), res)
            &&& wants_job(res) ==> core.fed(more).run_ops(ops) == next.fed(more).run_ops(ops)
            &&& res is Ok ==> next.progress.owed_next >= next.progress.owed_end
            &&& owed_in_ops(next, ops)
            &&& same_work(core, next)
        }),
    decreases ops.len() - core.progress.op_idx,
{
    let i = core.progress.op_idx;
    if 0 <= i < ops.len() {
        let op = &ops[i];
        lemma_finish_op_fed(core, op, more);
        let (mid, res) = core.finish_op(op);
        if res is Ok {
            let p = ProgressView { op_idx: i + 1, ..mid.progress };
            lemma_run_ops_fed(mid.with_progress(p), ops, more);
            assert(mid.fed(more).with_progress(p) == mid.with_progress(p).fed(more));
        }
    }
}

proof fn lemma_run_ops_keeps_jobs(core: Core, ops: Seq<Op>)
    ensures
        core.run_ops(ops).0.store.all_jobs() == core.store.all_jobs(),
    decreases ops.len() - core.progress.op_idx,
{
    let i = core.progress.op_idx;
    if 0 <= i < ops.len() {
        let op = &ops[i];
        lemma_run_op_keeps_jobs(core, op);
        lemma_settle_keeps_jobs(core, record_of(op));
        let (mid, res) = core.finish_op(op);
        if res is Ok {
            lemma_run_ops_keeps_jobs(
                mid.with_progress(ProgressView { op_idx: i + 1, ..mid.progress }),
                ops,
            );
        }
    }
}

proof fn lemma_run_sets_fed(core: Core, sets: Seq<ChangeSet>, more: Seq<CompactJob>)
    requires
        owed_in_sets(core, sets),
    ensures
        ({
            let (next, res) = core.run_sets(sets);
            &&& !wants_job(res) ==> core.fed(more).run_sets(sets) == (next.fed(more), res)
            &&& wants_job(res) ==> core.fed(more).run_sets(sets) == next.fed(more).run_sets(sets)
            &&& owed_in_sets(next, sets)
            &&& next.progress.task == core.progress.task
            &&& next.tasks == core.tasks
        }),
    decreases sets.len() - core.progress.set_idx,
{
    let i = core.progress.set_idx;
    if 0 <= i < sets.len() {
        lemma_run_ops_fed(core, sets[i].ops@, more);
        let (mid, res) = core.run_ops(sets[i].ops@);
        let db = mid.store.db;
        if res is Ok && db.curr_version < i64::MAX {
            let next_db = Db { curr_version: (db.curr_version + 1) as i64, ..db };
            let p = ProgressView { set_idx: i + 1, op_idx: 0, ..mid.progress };
            let stepped = mid.with_db(next_db).with_progress(p);
            lemma_run_sets_fed(stepped, sets, more);
            assert(mid.fed(more).with_db(next_db).with_progress(p) == stepped.fed(more));
        }
    }
}

proof fn lemma_run_sets_keeps_jobs(core: Core, sets: Seq<ChangeSet>)
    ensures
        core.run_sets(sets).0.store.all_jobs() == core.store.all_jobs(),
    decreases sets.len() - core.progress.set_idx,
{
    let i = core.progress.set_idx;
    if 0 <= i < sets.len() {
        lemma_run_ops_keeps_jobs(core, sets[i].ops@);
        let (mid, res) = core.run_ops(sets[i].ops@);
        let db = mid.store.db;
        if res is Ok && db.curr_version < i64::MAX {
            lemma_run_sets_keeps_jobs(
                mid.with_db(
                    Db { curr_version: (db.curr_version + 1) as i64, ..db },
                ).with_progress(ProgressView { set_idx: i + 1, op_idx: 0, ..mid.progress }),
                sets,
            );
        }
    }
}

/// A task that stops because it wants a job goes on with later jobs, when it is run
/// again, as if they had been there from the start; one that wants none leaves later jobs
/// alone. The jobs that it takes go back in order.
pub proof fn lemma_run_task_fed(core: Core, task_id: i64, more: Seq<CompactJob>)
    requires
        core.coherent(),
    ensures
        ({
            let (next, res) = core.run_task(task_id);
            &&& !wants_job(res) ==> core.fed(more).run_task(task_id) == (next.fed(more), res)
            &&& wants_job(res) ==> core.fed(more).run_task(task_id) == next.fed(more).run_task(
                task_id,
            )
            &&& next.coherent()
            &&& next.tasks == core.tasks
            &&& next.store.all_jobs() == core.store.all_jobs()
        }),
{
    if core.tasks.contains_key(task_id) && (core.progress.task is None || core.progress.task
        == Some(task_id)) {
        let begun = if core.progress.task is None {
            core.begin(task_id)
        } else {
            core
        };
        let fed = core.fed(more);
        assert(fed.begin(task_id) == core.begin(task_id).fed(more));
        let sets = core.tasks[task_id].change_sets@;
        lemma_run_sets_fed(begun, sets, more);
        lemma_run_sets_keeps_jobs(begun, sets);
        let (done, res) = begun.run_sets(sets);
        let end_block = core.tasks[task_id].end_block;
        assert(done.fed(more).end(end_block) == done.end(end_block).fed(more));
    }
}

/// Tasks that stop because one of them wants a job go on with later jobs, when they are
/// run again, as if they had been there from the start; where none wants a job, later
/// jobs are left alone. The jobs that they take go back in order.
pub proof fn lemma_run_ready_fed(u: UpdaterView, more: Seq<CompactJob>)
    requires
        u.core.coherent(),
    ensures
        ({
            let (next, res) = u.run_ready();
            &&& !wants_job(res) ==> u.fed(more).run_ready() == (next.fed(more), res)
            &&& wants_job(res) ==> u.fed(more).run_ready() == next.fed(more).run_ready()
            &&& next.core.coherent()
            &&& next.core.store.all_jobs() == u.core.store.all_jobs()
        }),
    decreases u.ready.dom().len(),
{
    if u.ready.dom().finite() && u.ready.contains_key(u.next_task_id) {
        let task_id = u.next_task_id;
        lemma_run_task_fed(u.core, task_id, more);
        let (core, res) = u.core.run_task(task_id);
        if res is Ok {
            let stepped = UpdaterView {
                core,
                ready: u.ready.remove(task_id),
                next_task_id: u.ready[task_id],
            };
            lemma_run_ready_fed(stepped, more);
            assert(stepped.fed(more) == (UpdaterView {
                core: core.fed(more),
                ready: u.ready.remove(task_id),
                next_task_id: u.ready[task_id],
            }));
        }
    }
}

// ---- order of delivery ----

impl UpdaterView {
    /// The updater with one more task that may be run.
    pub open spec fn with_ready(self, task_id: i64, next_task_id: i64) -> UpdaterView {
        UpdaterView { ready: self.ready.insert(task_id, next_task_id), ..self }
    }

    /// The updater with more tasks that may be run, each given with the task that comes
    /// next.
    pub open spec fn with_all_ready(self, tasks: Seq<(i64, i64)>) -> UpdaterView
        decreases tasks.len(),
    {
        if tasks.len() == 0 {
            self
        } else {
            self.with_all_ready(tasks.drop_last()).with_ready(tasks.last().0, tasks.last().1)
        }
    }

    /// Delivers tasks, one after the other, until one delivery does not end well.
    pub open spec fn deliver_all(self, tasks: Seq<(i64, i64)>) -> (
        UpdaterView,
        Result<(), UpdateError>,
    )
        decreases tasks.len(),
    {
        if tasks.len() == 0 {
            (self, Ok(()))
        } else {
            let (before, res) = self.deliver_all(tasks.drop_last());
            match res {
                Err(e) => (before, Err(e)),
                Ok(_) => before.deliver(tasks.last().0, tasks.last().1),
            }
        }
    }
}

/// Each of `tasks` has its own id, and none has been delivered to `u` and not yet run.
pub open spec fn new_tasks(u: UpdaterView, tasks: Seq<(i64, i64)>) -> bool {
    &&& forall|i: int, j: int|
        0 <= i < j < tasks.len() ==> (#[trigger] tasks[i]).0 != (#[trigger] tasks[j]).0
    &&& forall|i: int| 0 <= i < tasks.len() ==> !u.ready.contains_key((#[trigger] tasks[i]).0)
}

/// Tasks that may be run can be run before or after one more is delivered.
proof fn lemma_deliver_later(u: UpdaterView, task_id: i64, next_task_id: i64)
    requires
        u.run_ready().1 is Ok,
        !u.ready.contains_key(task_id),
        u.ready.dom().finite(),
    ensures
        u.with_ready(task_id, next_task_id).run_ready() == u.run_ready().0.with_ready(
            task_id,
            next_task_id,
        ).run_ready(),
        u.run_ready().0.ready.dom().finite(),
    decreases u.ready.dom().len(),
{
    if u.ready.contains_key(u.next_task_id) {
        let id = u.next_task_id;
        let core = u.core.run_task(id).0;
        let stepped = UpdaterView { core, ready: u.ready.remove(id), next_task_id: u.ready[id] };
        lemma_deliver_later(stepped, task_id, next_task_id);
        let more = u.with_ready(task_id, next_task_id);
        assert(more.ready.remove(id) =~= stepped.with_ready(task_id, next_task_id).ready);
    }
}

proof fn lemma_with_all_ready(u: UpdaterView, tasks: Seq<(i64, i64)>)
    requires
        new_tasks(u, tasks),
    ensures
        u.with_all_ready(tasks).core == u.core,
        u.with_all_ready(tasks).next_task_id == u.next_task_id,
        u.ready.dom().finite() ==> u.with_all_ready(tasks).ready.dom().finite(),
        forall|id: i64| #[trigger]
            u.with_all_ready(tasks).ready.contains_key(id) <==> u.ready.contains_key(id) || exists|
                i: int,
            |
                0 <= i < tasks.len() && (#[trigger] tasks[i]).0 == id,
        forall|i: int|
            0 <= i < tasks.len() ==> u.with_all_ready(tasks).ready[(#[trigger] tasks[i]).0]
                == tasks[i].1,
        forall|id: i64| u.ready.contains_key(id) ==> #[trigger] u.with_all_ready(tasks).ready[id]
            == u.ready[id],
    decreases tasks.len(),
{
    if tasks.len() > 0 {
        let front = tasks.drop_last();
        lemma_with_all_ready(u, front);
        let all = u.with_all_ready(tasks).ready;
        assert(tasks[tasks.len() - 1] == tasks.last());
        assert forall|id: i64| #[trigger] all.contains_key(id) <==> u.ready.contains_key(id)
            || exists|i: int| 0 <= i < tasks.len() && (#[trigger] tasks[i]).0 == id by {
            if u.with_all_ready(front).ready.contains_key(id) && !u.ready.contains_key(id) {
                let i = choose|i: int| 0 <= i < front.len() && (#[trigger] front[i]).0 == id;
                assert(tasks[i].0 == id);
            }
            if exists|i: int| 0 <= i < tasks.len() && (#[trigger] tasks[i]).0 == id {
                let i = choose|i: int| 0 <= i < tasks.len() && (#[trigger] tasks[i]).0 == id;
                if i < front.len() {
                    assert(front[i].0 == id);
                }
            }
        }
        assert forall|i: int| 0 <= i < tasks.len() implies all[(#[trigger] tasks[i]).0]
            == tasks[i].1 by {
            if i < front.len() {
                assert(front[i] == tasks[i]);
            }
        }
    }
}

/// Where a run ends well, the task whose turn it is has not been delivered.
pub proof fn lemma_run_ready_runs_all(u: UpdaterView)
    requires
        u.ready.dom().finite(),
        u.run_ready().1 is Ok,
    ensures
        !u.run_ready().0.ready.contains_key(u.run_ready().0.next_task_id),
        forall|id: i64| #[trigger]
            u.run_ready().0.ready.contains_key(id) ==> u.ready.contains_key(id)
                && u.run_ready().0.ready[id] == u.ready[id],
    decreases u.ready.dom().len(),
{
    if u.ready.contains_key(u.next_task_id) {
        let id = u.next_task_id;
        let core = u.core.run_task(id).0;
        lemma_run_ready_runs_all(
            UpdaterView { core, ready: u.ready.remove(id), next_task_id: u.ready[id] },
        );
    }
}

/// Deliveries that end well leave the updater as one run with all the tasks would.
pub proof fn lemma_deliver_all(u: UpdaterView, tasks: Seq<(i64, i64)>)
    requires
        u.ready.dom().finite(),
        tasks.len() > 0,
        new_tasks(u, tasks),
        u.deliver_all(tasks).1 is Ok,
    ensures
        u.deliver_all(tasks) == u.with_all_ready(tasks).run_ready(),
    decreases tasks.len(),
{
    let front = tasks.drop_last();
    let last = tasks.last();
    if front.len() > 0 {
        assert(tasks[tasks.len() - 1] == last);
        assert forall|i: int| 0 <= i < front.len() implies #[trigger] front[i] == tasks[i] by {}
        lemma_deliver_all(u, front);
        lemma_with_all_ready(u, front);
        let all = u.with_all_ready(front);
        assert(!all.ready.contains_key(last.0)) by {
            if exists|i: int| 0 <= i < front.len() && (#[trigger] front[i]).0 == last.0 {
                let i = choose|i: int| 0 <= i < front.len() && (#[trigger] front[i]).0 == last.0;
                assert(tasks[i].0 == tasks[tasks.len() - 1].0);
            }
        }
        lemma_deliver_later(all, last.0, last.1);
    } else {
        assert(u.with_all_ready(front) == u);
        assert(u.deliver_all(front) == (u, Ok::<(), UpdateError>(())));
    }
}

/// Tasks can be delivered in any order: where the deliveries end well, the same tasks
/// lead to the same updater.
pub proof fn lemma_any_order(u: UpdaterView, tasks: Seq<(i64, i64)>, others: Seq<(i64, i64)>)
    requires
        u.ready.dom().finite(),
        new_tasks(u, tasks),
        new_tasks(u, others),
        forall|t: (i64, i64)| #[trigger] tasks.contains(t) <==> others.contains(t),
        u.deliver_all(tasks).1 is Ok,
        u.deliver_all(others).1 is Ok,
    ensures
        u.deliver_all(tasks) == u.deliver_all(others),
{
    if tasks.len() == 0 || others.len() == 0 {
        if others.len() > 0 {
            assert(others.contains(others[0]));
            assert(tasks.contains(others[0]));
        }
        if tasks.len() > 0 {
            assert(tasks.contains(tasks[0]));
            assert(others.contains(tasks[0]));
        }
        assert(tasks =~= others);
    } else {
        lemma_any_order_of_some(u, tasks, others);
    }
}

proof fn lemma_any_order_of_some(
    u: UpdaterView,
    tasks: Seq<(i64, i64)>,
    others: Seq<(i64, i64)>,
)
    requires
        u.ready.dom().finite(),
        tasks.len() > 0,
        others.len() > 0,
        new_tasks(u, tasks),
        new_tasks(u, others),
        forall|t: (i64, i64)| #[trigger] tasks.contains(t) <==> others.contains(t),
        u.deliver_all(tasks).1 is Ok,
        u.deliver_all(others).1 is Ok,
    ensures
        u.deliver_all(tasks) == u.deliver_all(others),
{
    lemma_deliver_all(u, tasks);
    lemma_deliver_all(u, others);
    lemma_with_all_ready(u, tasks);
    lemma_with_all_ready(u, others);
    let a = u.with_all_ready(tasks).ready;
    let b = u.with_all_ready(others).ready;
    assert forall|id: i64| #[trigger] a.contains_key(id) == b.contains_key(id) && (a.contains_key(
        id,
    ) ==> a[id] == b[id]) by {
        if !u.ready.contains_key(id) {
            if a.contains_key(id) {
                let i = choose|i: int| 0 <= i < tasks.len() && (#[trigger] tasks[i]).0 == id;
                assert(tasks.contains(tasks[i]));
                assert(others.contains(tasks[i]));
                let j = choose|j: int| 0 <= j < others.len() && others[j] == tasks[i];
                assert(others[j].0 == id);
            }
            if b.contains_key(id) {
                let j = choose|j: int| 0 <= j < others.len() && (#[trigger] others[j]).0 == id;
                assert(others.contains(others[j]));
                assert(tasks.contains(others[j]));
                let i = choose|i: int| 0 <= i < tasks.len() && tasks[i] == others[j];
                assert(tasks[i].0 == id);
            }
        }
    }
    assert(a =~= b);
    assert(u.with_all_ready(tasks) == u.with_all_ready(others));
}

} // verus!
