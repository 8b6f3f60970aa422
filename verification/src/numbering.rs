//! However work goes and however it ends, the entries that it appends are numbered one
//! after the other.

use vstd::prelude::*;

use crate::active::{
    lemma_create_numbers, lemma_delete_numbers, lemma_numbers_twice, lemma_relocate_numbers,
    lemma_tells_nothing, lemma_write_numbers,
};
use crate::def::{OP_CREATE, OP_DELETE, OP_WRITE};
use crate::entry::{parse, well_formed};
use crate::hash::sha256;
use crate::model::{record_of, Core, Db, ProgressView, Store, UpdaterView};
use crate::tasks::{ChangeSet, Op, OpRecord};

verus! {

/// A compaction numbers what it appends.
pub proof fn lemma_compact_numbers(store: Store, rec: Option<&OpRecord>, comp_idx: int)
    ensures
        store.db.numbers(store.compact(rec, comp_idx).0.db),
    decreases store.jobs.len(),
{
    lemma_tells_nothing(store.db, store.db);
    if store.jobs.len() > 0 {
        let job = store.jobs[0];
        let key_hash = sha256(parse(job.entry_bz@).key);
        lemma_compact_numbers(store.return_job(), rec, comp_idx);
        if well_formed(job.entry_bz@) {
            match store.db.relocate(job, key_hash, rec, comp_idx) {
                Err(_) => {},
                Ok(db) => {
                    lemma_relocate_numbers(store.db, job, key_hash, rec, comp_idx, db);
                },
            }
        }
    }
}

/// The compactions that are owed number what they append.
pub proof fn lemma_settle_numbers(core: Core, rec: Option<&OpRecord>)
    ensures
        core.store.db.numbers(core.settle(rec).0.store.db),
    decreases core.progress.owed_end - core.progress.owed_next,
{
    let p = core.progress;
    lemma_tells_nothing(core.store.db, core.store.db);
    if p.owed_next < p.owed_end {
        lemma_compact_numbers(core.store, rec, p.owed_next);
        let (store, res) = core.store.compact(rec, p.owed_next);
        if res is Ok {
            let stepped = Core {
                store,
                progress: ProgressView { owed_next: p.owed_next + 1, ..p },
                ..core
            };
            lemma_settle_numbers(stepped, rec);
            lemma_numbers_twice(core.store.db, store.db, stepped.settle(rec).0.store.db);
        }
    }
}

/// The compactions that follow an operation number what they append.
pub proof fn lemma_commit_numbers(core: Core, db: Db, count: int, rec: Option<&OpRecord>)
    ensures
        db.numbers(core.commit(db, count, rec).0.store.db),
{
    let owed = if db.is_compactible() {
        count
    } else {
        0
    };
    lemma_settle_numbers(
        core.with_db(db).with_progress(
            ProgressView { owed_next: 0, owed_end: owed, ..core.progress },
        ),
        rec,
    );
}

/// An operation numbers what it appends, with its compactions.
pub proof fn lemma_run_op_numbers(core: Core, op: &Op)
    ensures
        core.store.db.numbers(core.run_op(op).0.store.db),
{
    let db = core.store.db;
    let rec = record_of(op);
    let (next, _) = core.run_op(op);
    lemma_tells_nothing(db, db);
    if core.active_info(rec) is Ok {
        if op.op_type == OP_WRITE {
            match db.write(op.key_hash@, op.key@, op.value@) {
                Err(_) => {},
                Ok(mid) => {
                    lemma_write_numbers(db, op.key_hash@, op.key@, op.value@, mid);
                    lemma_commit_numbers(core, mid, 1, rec);
                    lemma_numbers_twice(db, mid, next.store.db);
                },
            }
        } else if op.op_type == OP_CREATE {
            match db.create(op.key_hash@, op.key@, op.value@, rec) {
                Err(_) => {},
                Ok(mid) => {
                    lemma_create_numbers(db, op.key_hash@, op.key@, op.value@, rec, mid);
                    lemma_commit_numbers(core, mid, 2, rec);
                    lemma_numbers_twice(db, mid, next.store.db);
                },
            }
        } else if op.op_type == OP_DELETE {
            match db.delete(op.key_hash@, op.key@, rec) {
                Err(_) => {},
                Ok(mid) => {
                    lemma_delete_numbers(db, op.key_hash@, op.key@, rec, mid);
                },
            }
        }
    }
}

/// Finishing an operation numbers what is appended.
pub proof fn lemma_finish_op_numbers(core: Core, op: &Op)
    ensures
        core.store.db.numbers(core.finish_op(op).0.store.db),
{
    lemma_tells_nothing(core.store.db, core.store.db);
    lemma_run_op_numbers(core, op);
    lemma_settle_numbers(core, record_of(op));
}

/// Operations number what they append.
pub proof fn lemma_run_ops_numbers(core: Core, ops: Seq<Op>)
    ensures
        core.store.db.numbers(core.run_ops(ops).0.store.db),
    decreases ops.len() - core.progress.op_idx,
{
    let i = core.progress.op_idx;
    lemma_tells_nothing(core.store.db, core.store.db);
    if 0 <= i < ops.len() {
        let op = &ops[i];
        lemma_finish_op_numbers(core, op);
        let (mid, res) = core.finish_op(op);
        if res is Ok {
            let stepped = mid.with_progress(ProgressView { op_idx: i + 1, ..mid.progress });
            lemma_run_ops_numbers(stepped, ops);
            lemma_numbers_twice(core.store.db, mid.store.db, stepped.run_ops(ops).0.store.db);
        }
    }
}

/// Change sets number what they append.
pub proof fn lemma_run_sets_numbers(core: Core, sets: Seq<ChangeSet>)
    ensures
        core.store.db.numbers(core.run_sets(sets).0.store.db),
    decreases sets.len() - core.progress.set_idx,
{
    let i = core.progress.set_idx;
    lemma_tells_nothing(core.store.db, core.store.db);
    if 0 <= i < sets.len() {
        lemma_run_ops_numbers(core, sets[i].ops@);
        let (mid, res) = core.run_ops(sets[i].ops@);
        let db = mid.store.db;
        if res is Ok && db.curr_version < i64::MAX {
            let stepped_db = Db { curr_version: (db.curr_version + 1) as i64, ..db };
            let stepped = mid.with_db(stepped_db).with_progress(
                ProgressView { set_idx: i + 1, op_idx: 0, ..mid.progress },
            );
            lemma_run_sets_numbers(stepped, sets);
            lemma_tells_nothing(db, stepped_db);
            lemma_numbers_twice(core.store.db, db, stepped_db);
            lemma_numbers_twice(
                core.store.db,
                stepped_db,
                stepped.run_sets(sets).0.store.db,
            );
        }
    }
}

/// A task numbers what it appends, compactions included: its entries have the serial
/// numbers from `sn_end` on in order, and `sn_end` grows by their number. This holds of
/// every store, and however the task ends.
pub proof fn lemma_run_task_numbers(core: Core, task_id: i64)
    ensures
        core.store.db.numbers(core.run_task(task_id).0.store.db),
{
    let db = core.store.db;
    lemma_tells_nothing(db, db);
    if core.tasks.contains_key(task_id) {
        let begun = if core.progress.task is None {
            core.begin(task_id)
        } else {
            core
        };
        let sets = core.tasks[task_id].change_sets@;
        lemma_run_sets_numbers(begun, sets);
        let (done, _) = begun.run_sets(sets);
        let end = done.end(core.tasks[task_id].end_block);
        lemma_tells_nothing(db, begun.store.db);
        lemma_numbers_twice(db, begun.store.db, done.store.db);
        lemma_tells_nothing(done.store.db, end.store.db);
        lemma_numbers_twice(db, done.store.db, end.store.db);
    }
}

/// Tasks that are run in turn number what they append, one task after the other.
pub proof fn lemma_run_ready_numbers(u: UpdaterView)
    ensures
        u.core.store.db.numbers(u.run_ready().0.core.store.db),
    decreases u.ready.dom().len(),
{
    let db = u.core.store.db;
    lemma_tells_nothing(db, db);
    if u.ready.dom().finite() && u.ready.contains_key(u.next_task_id) {
        let task_id = u.next_task_id;
        lemma_run_task_numbers(u.core, task_id);
        let (core, res) = u.core.run_task(task_id);
        if res is Ok {
            let stepped = UpdaterView {
                core,
                ready: u.ready.remove(task_id),
                next_task_id: u.ready[task_id],
            };
            lemma_run_ready_numbers(stepped);
            lemma_numbers_twice(db, core.store.db, stepped.run_ready().0.core.store.db);
        }
    }
}

} // verus!
