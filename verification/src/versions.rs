//! Which versions a task leaves, and which its entries carry.

use vstd::prelude::*;

use crate::active::{
    all_of_version, lemma_create_numbers, lemma_delete_numbers, lemma_write_numbers,
};
use crate::def::{
    lemma_block_bits, IN_BLOCK_IDX_MASK, OP_CREATE, OP_DELETE, OP_READ, OP_WRITE,
};
use crate::entry::parse;
use crate::error::UpdateError;
use crate::model::{record_of, Core, Db, ProgressView, Store};
use crate::tasks::{ChangeSet, Op, OpRecord, Task};

verus! {

/// The version, the shard and the tasks are the same, and the work stands in the same
/// change set of the same task.
spec fn same_set(core: Core, next: Core) -> bool {
    &&& next.store.db.curr_version == core.store.db.curr_version
    &&& next.store.db.shard_id == core.store.db.shard_id
    &&& next.tasks == core.tasks
    &&& next.progress.task == core.progress.task
    &&& next.progress.set_idx == core.progress.set_idx
}

proof fn lemma_compact_version(store: Store, rec: Option<&OpRecord>, comp_idx: int)
    ensures
        store.compact(rec, comp_idx).0.db.curr_version == store.db.curr_version,
        store.compact(rec, comp_idx).0.db.shard_id == store.db.shard_id,
    decreases store.jobs.len(),
{
    if store.jobs.len() > 0 {
        lemma_compact_version(store.return_job(), rec, comp_idx);
    }
}

proof fn lemma_settle_version(core: Core, rec: Option<&OpRecord>)
    ensures
        ({
            let (next, res) = core.settle(rec);
            &&& same_set(core, next)
            &&& next.progress.op_idx == core.progress.op_idx
            &&& res is Ok ==> next.progress.owed_next >= next.progress.owed_end
        }),
    decreases core.progress.owed_end - core.progress.owed_next,
{
    let p = core.progress;
    if p.owed_next < p.owed_end {
        lemma_compact_version(core.store, rec, p.owed_next);
        let (store, res) = core.store.compact(rec, p.owed_next);
        if res is Ok {
            lemma_settle_version(
                Core {
                    store,
                    progress: ProgressView { owed_next: p.owed_next + 1, ..p },
                    ..core
                },
                rec,
            );
        }
    }
}

proof fn lemma_commit_version(core: Core, db: Db, count: int, rec: Option<&OpRecord>)
    requires
        db.curr_version == core.store.db.curr_version,
        db.shard_id == core.store.db.shard_id,
    ensures
        ({
            let (next, res) = core.commit(db, count, rec);
            &&& same_set(core, next)
            &&& next.progress.op_idx == core.progress.op_idx
            &&& res is Ok ==> next.progress.owed_next >= next.progress.owed_end
        }),
{
    let owed = if db.is_compactible() {
        count
    } else {
        0
    };
    lemma_settle_version(
        core.with_db(db).with_progress(
            ProgressView { owed_next: 0, owed_end: owed, ..core.progress },
        ),
        rec,
    );
}

proof fn lemma_finish_op_version(core: Core, op: &Op)
    ensures
        ({
            let (next, res) = core.finish_op(op);
            &&& same_set(core, next)
            &&& next.progress.op_idx == core.progress.op_idx
            &&& res is Ok && core.progress.owed_next >= core.progress.owed_end
                ==> next.progress.owed_next >= next.progress.owed_end
        }),
{
    let db = core.store.db;
    let rec = record_of(op);
    lemma_settle_version(core, rec);
    if db.write(op.key_hash@, op.key@, op.value@) is Ok {
        lemma_commit_version(core, db.write(op.key_hash@, op.key@, op.value@)->Ok_0, 1, rec);
    }
    if db.create(op.key_hash@, op.key@, op.value@, rec) is Ok {
        lemma_commit_version(core, db.create(op.key_hash@, op.key@, op.value@, rec)->Ok_0, 2, rec);
    }
}

proof fn lemma_run_ops_version(core: Core, ops: Seq<Op>)
    ensures
        ({
            let (next, res) = core.run_ops(ops);
            &&& same_set(core, next)
            &&& res is Ok && core.progress.owed_next >= core.progress.owed_end
                ==> next.progress.owed_next >= next.progress.owed_end
        }),
    decreases ops.len() - core.progress.op_idx,
{
    let i = core.progress.op_idx;
    if 0 <= i < ops.len() {
        lemma_finish_op_version(core, &ops[i]);
        let (mid, res) = core.finish_op(&ops[i]);
        if res is Ok {
            lemma_run_ops_version(
                mid.with_progress(ProgressView { op_idx: i + 1, ..mid.progress }),
                ops,
            );
        }
    }
}

/// Change sets that end well take the version on by one each, whatever the store holds.
pub proof fn lemma_run_sets_version(core: Core, sets: Seq<ChangeSet>)
    requires
        0 <= core.progress.set_idx <= sets.len(),
    ensures
        ({
            let (next, res) = core.run_sets(sets);
            &&& next.tasks == core.tasks
            &&& next.store.db.shard_id == core.store.db.shard_id
            &&& res is Ok ==> next.store.db.curr_version == core.store.db.curr_version + (
            sets.len() - core.progress.set_idx)
        }),
    decreases sets.len() - core.progress.set_idx,
{
    let i = core.progress.set_idx;
    if i < sets.len() {
        lemma_run_ops_version(core, sets[i].ops@);
        let (mid, res) = core.run_ops(sets[i].ops@);
        let db = mid.store.db;
        if res is Ok && db.curr_version < i64::MAX {
            lemma_run_sets_version(
                mid.with_db(
                    Db { curr_version: (db.curr_version + 1) as i64, ..db },
                ).with_progress(ProgressView { set_idx: i + 1, op_idx: 0, ..mid.progress }),
                sets,
            );
        }
    }
}

/// The version under which the first change set of a task is run.
pub open spec fn first_version(curr_version: i64, task_id: i64) -> i64 {
    if task_id & IN_BLOCK_IDX_MASK == 0 {
        task_id
    } else {
        curr_version
    }
}

/// A task that ends well takes the version on by one for each of its change sets, whether
/// or not they hold operations of this shard, from its own id if it is the first of its
/// block. This holds of every store.
pub proof fn lemma_run_task_version(core: Core, task_id: i64)
    requires
        core.progress.task is None,
    ensures
        ({
            let (next, res) = core.run_task(task_id);
            &&& next.tasks == core.tasks
            &&& res is Ok ==> {
                &&& core.tasks.contains_key(task_id)
                &&& next.progress.task is None
                &&& next.store.db.curr_version == first_version(
                    core.store.db.curr_version,
                    task_id,
                ) + core.tasks[task_id].change_sets@.len()
            }
        }),
{
    if core.tasks.contains_key(task_id) {
        lemma_run_sets_version(core.begin(task_id), core.tasks[task_id].change_sets@);
    }
}

/// A task that ends well leaves the version that it found, or its own id where that is a
/// multiple of 16777216, taken on by one for each of its change sets.
pub proof fn lemma_task_version(core: Core, task_id: i64)
    requires
        core.progress.task is None,
        task_id >= 0,
        core.run_task(task_id).1 is Ok,
    ensures
        core.run_task(task_id).0.store.db.curr_version == (if task_id % 16777216 == 0 {
            task_id
        } else {
            core.store.db.curr_version
        }) + core.tasks[task_id].change_sets@.len(),
{
    lemma_run_task_version(core, task_id);
    lemma_block_bits(task_id);
}

impl Core {
    /// Runs tasks, one after the other, until one does not end well.
    pub open spec fn run_tasks(self, ids: Seq<i64>) -> (Core, Result<(), UpdateError>)
        decreases ids.len(),
    {
        if ids.len() == 0 {
            (self, Ok(()))
        } else {
            let (next, res) = self.run_task(ids[0]);
            match res {
                Err(e) => (next, Err(e)),
                Ok(_) => next.run_tasks(ids.skip(1)),
            }
        }
    }
}

/// Number of change sets of tasks.
pub open spec fn set_total(tasks: Map<i64, Task>, ids: Seq<i64>) -> int
    decreases ids.len(),
{
    if ids.len() == 0 {
        0
    } else {
        tasks[ids[0]].change_sets@.len() + set_total(tasks, ids.skip(1))
    }
}

proof fn lemma_later_tasks_version(core: Core, ids: Seq<i64>)
    requires
        core.progress.task is None,
        forall|i: int| 0 <= i < ids.len() ==> #[trigger] ids[i] & IN_BLOCK_IDX_MASK != 0,
        core.run_tasks(ids).1 is Ok,
    ensures
        core.run_tasks(ids).0.store.db.curr_version == core.store.db.curr_version + set_total(
            core.tasks,
            ids,
        ),
    decreases ids.len(),
{
    if ids.len() > 0 {
        let rest = ids.skip(1);
        assert forall|i: int| 0 <= i < rest.len() implies #[trigger] rest[i] & IN_BLOCK_IDX_MASK
            != 0 by {
            assert(rest[i] == ids[i + 1]);
        }
        lemma_run_task_version(core, ids[0]);
        lemma_later_tasks_version(core.run_task(ids[0]).0, rest);
    }
}

/// The tasks of a block that are run in order, from the one with index 0 on, and end well
/// leave the version that is the first one's id plus the number of all their change sets.
pub proof fn lemma_block_version(core: Core, ids: Seq<i64>)
    requires
        core.progress.task is None,
        ids.len() > 0,
        ids[0] & IN_BLOCK_IDX_MASK == 0,
        forall|i: int| 1 <= i < ids.len() ==> #[trigger] ids[i] & IN_BLOCK_IDX_MASK != 0,
        core.run_tasks(ids).1 is Ok,
    ensures
        core.run_tasks(ids).0.store.db.curr_version == ids[0] + set_total(core.tasks, ids),
{
    let rest = ids.skip(1);
    assert forall|i: int| 0 <= i < rest.len() implies #[trigger] rest[i] & IN_BLOCK_IDX_MASK
        != 0 by {
        assert(rest[i] == ids[i + 1]);
    }
    lemma_run_task_version(core, ids[0]);
    lemma_later_tasks_version(core.run_task(ids[0]).0, rest);
}

// ---- the versions of entries ----

impl Db {
    /// The database after an operation of this shard, before the compactions that follow.
    pub open spec fn step(self, op: &Op) -> Result<Db, UpdateError> {
        if op.op_type == OP_WRITE {
            self.write(op.key_hash@, op.key@, op.value@)
        } else if op.op_type == OP_CREATE {
            self.create(op.key_hash@, op.key@, op.value@, record_of(op))
        } else if op.op_type == OP_DELETE {
            self.delete(op.key_hash@, op.key@, record_of(op))
        } else if op.op_type == OP_READ {
            Ok(self)
        } else {
            Err(UpdateError::UnsupportedOperation)
        }
    }
}

impl Core {
    /// Where the work on change sets stands when the operation `j` of the change set `i` is
    /// its next one.
    pub open spec fn at_op(self, sets: Seq<ChangeSet>, i: int, j: int) -> Core {
        self.run_sets(sets.take(i)).0.run_ops(sets[i].ops@.take(j)).0
    }
}

/// The entries that an operation appends, other than by compaction, have the current
/// version.
pub proof fn lemma_step_version(db: Db, op: &Op, next: Db)
    requires
        db.step(op) == Ok::<Db, UpdateError>(next),
    ensures
        all_of_version(db.appended(next), db.curr_version),
{
    if op.op_type == OP_WRITE {
        lemma_write_numbers(db, op.key_hash@, op.key@, op.value@, next);
    } else if op.op_type == OP_CREATE {
        lemma_create_numbers(db, op.key_hash@, op.key@, op.value@, record_of(op), next);
    } else if op.op_type == OP_DELETE {
        lemma_delete_numbers(db, op.key_hash@, op.key@, record_of(op), next);
    }
}

/// Operations that end well come by each of them in turn.
proof fn lemma_ops_come_by(core: Core, ops: Seq<Op>, j: int)
    requires
        0 <= core.progress.op_idx <= j <= ops.len(),
        core.run_ops(ops).1 is Ok,
    ensures
        ({
            let (here, res) = core.run_ops(ops.take(j));
            &&& res is Ok
            &&& here.progress.op_idx == j
            &&& here.run_ops(ops) == core.run_ops(ops)
        }),
    decreases j - core.progress.op_idx,
{
    let i = core.progress.op_idx;
    let front = ops.take(j);
    if i < j {
        assert(front[i] == ops[i]);
        let (mid, _) = core.finish_op(&ops[i]);
        lemma_finish_op_version(core, &ops[i]);
        lemma_ops_come_by(
            mid.with_progress(ProgressView { op_idx: i + 1, ..mid.progress }),
            ops,
            j,
        );
    }
}

/// Change sets that end well come by each of them in turn, under the version that is due.
proof fn lemma_sets_come_by(core: Core, sets: Seq<ChangeSet>, i: int)
    requires
        0 <= core.progress.set_idx <= i <= sets.len(),
        core.progress.op_idx == 0,
        core.progress.owed_next >= core.progress.owed_end,
        core.run_sets(sets).1 is Ok,
    ensures
        ({
            let (here, res) = core.run_sets(sets.take(i));
            &&& res is Ok
            &&& here.progress.set_idx == i
            &&& here.progress.op_idx == 0
            &&& here.progress.owed_next >= here.progress.owed_end
            &&& here.store.db.shard_id == core.store.db.shard_id
            &&& here.store.db.curr_version == core.store.db.curr_version + (i
                - core.progress.set_idx)
            &&& here.run_sets(sets) == core.run_sets(sets)
        }),
    decreases i - core.progress.set_idx,
{
    let k = core.progress.set_idx;
    let front = sets.take(i);
    if k < i {
        assert(front[k] == sets[k]);
        lemma_run_ops_version(core, sets[k].ops@);
        let (mid, _) = core.run_ops(sets[k].ops@);
        let db = mid.store.db;
        lemma_sets_come_by(
            mid.with_db(Db { curr_version: (db.curr_version + 1) as i64, ..db }).with_progress(
                ProgressView { set_idx: k + 1, op_idx: 0, ..mid.progress },
            ),
            sets,
            i,
        );
    }
}

/// Change sets that end well come by the operation `j` of the change set `i`, and what an
/// operation of this shard appends there, other than by compaction, has the version from
/// which they started plus `i`.
pub proof fn lemma_entry_versions(core: Core, sets: Seq<ChangeSet>, i: int, j: int)
    requires
        core.progress.set_idx == 0,
        core.progress.op_idx == 0,
        core.progress.owed_next >= core.progress.owed_end,
        core.run_sets(sets).1 is Ok,
        0 <= i < sets.len(),
        0 <= j < sets[i].ops@.len(),
    ensures
        ({
            let here = core.at_op(sets, i, j);
            let op = sets[i].ops@[j];
            let db = here.store.db;
            &&& here.progress.set_idx == i
            &&& here.progress.op_idx == j
            &&& here.progress.owed_next >= here.progress.owed_end
            &&& here.run_sets(sets) == core.run_sets(sets)
            &&& db.curr_version == core.store.db.curr_version + i
            &&& op.shard_id == db.shard_id ==> {
                &&& db.step(&op) is Ok
                &&& forall|k: int|
                    #![trigger db.appended(db.step(&op)->Ok_0)[k]]
                    0 <= k < db.appended(db.step(&op)->Ok_0).len() ==> parse(
                        db.appended(db.step(&op)->Ok_0)[k],
                    ).version == core.store.db.curr_version + i
            }
        }),
{
    lemma_sets_come_by(core, sets, i);
    let begun = core.run_sets(sets.take(i)).0;
    let ops = sets[i].ops@;
    lemma_ops_come_by(begun, ops, j);
    lemma_run_ops_version(begun, ops.take(j));
    let here = begun.run_ops(ops.take(j)).0;
    let op = &ops[j];
    if op.shard_id == here.store.db.shard_id {
        assert(here.finish_op(op).1 is Ok);
        lemma_step_version(here.store.db, op, here.store.db.step(op)->Ok_0);
    }
}

/// In a task that ends well, what an operation of the change set `i` appends, other than
/// by compaction, has the task's first version plus `i`.
pub proof fn lemma_task_entry_versions(core: Core, task_id: i64, i: int, j: int)
    requires
        core.progress.task is None,
        core.run_task(task_id).1 is Ok,
        0 <= i < core.tasks[task_id].change_sets@.len(),
        0 <= j < core.tasks[task_id].change_sets@[i].ops@.len(),
    ensures
        ({
            let sets = core.tasks[task_id].change_sets@;
            let op = sets[i].ops@[j];
            let db = core.begin(task_id).at_op(sets, i, j).store.db;
            op.shard_id == db.shard_id ==> {
                &&& db.step(&op) is Ok
                &&& forall|k: int|
                    #![trigger db.appended(db.step(&op)->Ok_0)[k]]
                    0 <= k < db.appended(db.step(&op)->Ok_0).len() ==> parse(
                        db.appended(db.step(&op)->Ok_0)[k],
                    ).version == first_version(core.store.db.curr_version, task_id) + i
            }
        }),
{
    lemma_entry_versions(core.begin(task_id), core.tasks[task_id].change_sets@, i, j);
}

} // verus!
