//! Which tasks are run and when, and what a task leaves alone.

use vstd::prelude::*;

use crate::error::UpdateError;
use crate::model::{idle, record_of, Core, Db, ProgressView, Store, UpdaterView};
use crate::tasks::{ChangeSet, Op, OpRecord};

verus! {

/// `next` is of the shard of `db`, with what was read ahead for it, its file, the blocks
/// that have ended and the limits that are set for it.
pub open spec fn settings_alike(db: Db, next: Db) -> bool {
    &&& next.shard_id == db.shard_id
    &&& next.cache == db.cache
    &&& next.file == db.file
    &&& next.buffer.start == db.buffer.start
    &&& next.buffer.blocks == db.buffer.blocks
    &&& next.utilization_div == db.utilization_div
    &&& next.utilization_ratio == db.utilization_ratio
    &&& next.compact_thres == db.compact_thres
    &&& next.check_rec == db.check_rec
}

proof fn lemma_compact_settings(store: Store, rec: Option<&OpRecord>, comp_idx: int)
    ensures
        settings_alike(store.db, store.compact(rec, comp_idx).0.db),
    decreases store.jobs.len(),
{
    if store.jobs.len() > 0 {
        lemma_compact_settings(store.return_job(), rec, comp_idx);
    }
}

proof fn lemma_settle_settings(core: Core, rec: Option<&OpRecord>)
    ensures
        settings_alike(core.store.db, core.settle(rec).0.store.db),
        core.settle(rec).0.tasks == core.tasks,
    decreases core.progress.owed_end - core.progress.owed_next,
{
    let p = core.progress;
    if p.owed_next < p.owed_end {
        lemma_compact_settings(core.store, rec, p.owed_next);
        let store = core.store.compact(rec, p.owed_next).0;
        let rest = Core {
            store,
            progress: ProgressView { owed_next: p.owed_next + 1, ..p },
            ..core
        };
        lemma_settle_settings(rest, rec);
    }
}

/// However an operation ends, the shard, what was read ahead, the file, the ended blocks and
/// the limits stay as they were.
pub proof fn lemma_op_settings(core: Core, op: &Op)
    ensures
        settings_alike(core.store.db, core.finish_op(op).0.store.db),
        core.finish_op(op).0.tasks == core.tasks,
{
    let rec = record_of(op);
    lemma_settle_settings(core, rec);
    let db = core.store.db;
    match db.write(op.key_hash@, op.key@, op.value@) {
        Ok(next) => {
            lemma_commit_settings(core, next, 1, rec);
        },
        Err(_) => {},
    }
    match db.create(op.key_hash@, op.key@, op.value@, rec) {
        Ok(next) => {
            lemma_commit_settings(core, next, 2, rec);
        },
        Err(_) => {},
    }
}

proof fn lemma_commit_settings(core: Core, db: Db, count: int, rec: Option<&OpRecord>)
    requires
        settings_alike(core.store.db, db),
    ensures
        settings_alike(core.store.db, core.commit(db, count, rec).0.store.db),
        core.commit(db, count, rec).0.tasks == core.tasks,
{
    let owed = if db.is_compactible() {
        count
    } else {
        0
    };
    let begun = core.with_db(db).with_progress(
        ProgressView { owed_next: 0, owed_end: owed, ..core.progress },
    );
    lemma_settle_settings(begun, rec);
}

proof fn lemma_run_ops_settings(core: Core, ops: Seq<Op>)
    ensures
        settings_alike(core.store.db, core.run_ops(ops).0.store.db),
    decreases ops.len() - core.progress.op_idx,
{
    if 0 <= core.progress.op_idx < ops.len() {
        let op = &ops[core.progress.op_idx];
        lemma_op_settings(core, op);
        let (next, res) = core.finish_op(op);
        if res is Ok {
            lemma_run_ops_settings(
                next.with_progress(
                    ProgressView {
                        op_idx: core.progress.op_idx + 1,
                        ..next.progress
                    },
                ),
                ops,
            );
        }
    }
}

proof fn lemma_run_sets_settings(core: Core, sets: Seq<ChangeSet>)
    ensures
        settings_alike(core.store.db, core.run_sets(sets).0.store.db),
    decreases sets.len() - core.progress.set_idx,
{
    if 0 <= core.progress.set_idx < sets.len() {
        let ops = sets[core.progress.set_idx].ops@;
        lemma_run_ops_settings(core, ops);
        let (next, res) = core.run_ops(ops);
        let db = next.store.db;
        if res is Ok && db.curr_version != i64::MAX {
            lemma_run_sets_settings(
                next.with_db(Db { curr_version: (db.curr_version + 1) as i64, ..db }).with_progress(
                    ProgressView {
                        set_idx: core.progress.set_idx + 1,
                        op_idx: 0,
                        ..next.progress
                    },
                ),
                sets,
            );
        }
    }
}

/// A task that is run from its beginning to its end leaves its own cache behind, or the one
/// before where it has none. It adds a block to those that have ended if and only if it ends
/// one, and that says how far the log is done with and which serial numbers can be in use,
/// as they are when it ends. All other settings stay.
pub proof fn lemma_task_leaves(core: Core, task_id: i64)
    requires
        core.progress.task is None,
        core.run_task(task_id).1 is Ok,
    ensures
        ({
            let db = core.store.db;
            let next = core.run_task(task_id).0;
            let task = core.tasks[task_id];
            let blocks = next.store.db.buffer.blocks;
            &&& core.tasks.contains_key(task_id)
            &&& next.progress == idle()
            &&& task.cache matches Some(c) ==> next.store.db.cache == c@
            &&& task.cache is None ==> next.store.db.cache == db.cache
            &&& !task.end_block ==> blocks == db.buffer.blocks
            &&& task.end_block ==> {
                &&& blocks.len() == db.buffer.blocks.len() + 1
                &&& blocks.drop_last() == db.buffer.blocks
                &&& blocks.last().compact_done_pos == next.store.db.compact_done_pos
                &&& blocks.last().sn_start == next.store.db.sn_start
                &&& blocks.last().sn_end == next.store.db.sn_end
            }
            &&& next.store.db.shard_id == db.shard_id
            &&& next.store.db.file == db.file
            &&& next.store.db.utilization_div == db.utilization_div
            &&& next.store.db.utilization_ratio == db.utilization_ratio
            &&& next.store.db.compact_thres == db.compact_thres
            &&& next.store.db.check_rec == db.check_rec
        }),
{
    lemma_run_sets_settings(core.begin(task_id), core.tasks[task_id].change_sets@);
    let blocks = core.run_task(task_id).0.store.db.buffer.blocks;
    if core.tasks[task_id].end_block {
        assert(blocks.drop_last() =~= core.store.db.buffer.blocks);
    }
}

/// A task that the hub does not have, and one beside a task that has not ended, are not
/// begun.
pub proof fn lemma_task_refused(core: Core, task_id: i64)
    ensures
        !core.tasks.contains_key(task_id) ==> core.run_task(task_id) == (
            core,
            Err::<(), UpdateError>(UpdateError::UnknownTask),
        ),
        core.tasks.contains_key(task_id) && (core.progress.task matches Some(t) && t != task_id)
            ==> core.run_task(task_id) == (
            core,
            Err::<(), UpdateError>(UpdateError::OtherTaskRunning),
        ),
{
}

/// An operation of another shard changes nothing.
pub proof fn lemma_other_shard(core: Core, op: &Op)
    requires
        op.shard_id != core.store.db.shard_id,
    ensures
        core.finish_op(op) == (core, Ok::<(), UpdateError>(())),
{
}

/// A task that comes before its turn waits: nothing but the list of waiting tasks changes.
pub proof fn lemma_early_task_waits(u: UpdaterView, task_id: i64, next_task_id: i64)
    requires
        task_id != u.next_task_id,
        !u.ready.contains_key(u.next_task_id),
    ensures
        ({
            let (next, res) = u.deliver(task_id, next_task_id);
            &&& res is Ok
            &&& next.core == u.core
            &&& next.next_task_id == u.next_task_id
            &&& next.ready == u.ready.insert(task_id, next_task_id)
        }),
{
}

/// A task whose turn it is, and which ends well, is run once and waits no longer; then it is
/// the turn of the task that was named with it, and where that one does not wait nothing
/// else is run.
pub proof fn lemma_task_in_turn_runs(u: UpdaterView, task_id: i64, next_task_id: i64)
    requires
        task_id == u.next_task_id,
        u.ready.dom().finite(),
        !u.ready.contains_key(task_id),
        next_task_id != task_id,
        !u.ready.contains_key(next_task_id),
        u.core.run_task(task_id).1 is Ok,
    ensures
        ({
            let (next, res) = u.deliver(task_id, next_task_id);
            &&& res is Ok
            &&& next.core == u.core.run_task(task_id).0
            &&& next.next_task_id == next_task_id
            &&& next.ready == u.ready
        }),
{
    reveal_with_fuel(UpdaterView::run_ready, 2);
    assert(u.ready.insert(task_id, next_task_id).remove(task_id) =~= u.ready);
}

/// A task whose turn it is, and which does not end well, keeps its turn and waits on, with
/// the tasks behind it; what it has done so far stays done.
pub proof fn lemma_stopped_task_waits(u: UpdaterView)
    requires
        u.ready.dom().finite(),
        u.ready.contains_key(u.next_task_id),
        u.core.run_task(u.next_task_id).1 is Err,
    ensures
        ({
            let (next, res) = u.run_ready();
            &&& res == u.core.run_task(u.next_task_id).1
            &&& next.core == u.core.run_task(u.next_task_id).0
            &&& next.next_task_id == u.next_task_id
            &&& next.ready == u.ready
        }),
{
}

} // verus!
