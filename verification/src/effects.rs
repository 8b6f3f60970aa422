//! What running operations and tasks does to the contents of a shard.

use vstd::prelude::*;

use crate::active::{
    lemma_create_numbers, lemma_create_tells, lemma_delete_numbers, lemma_delete_tells,
    lemma_numbers_twice, lemma_relocate_tells, lemma_tells_nothing, lemma_tells_twice,
    lemma_write_numbers, lemma_write_tells,
};
use crate::buffer::EndBlock;
use crate::bytes::{bytes_before, k80_of};
use crate::cache::CacheView;
use crate::chain::{
    lemma_contents, lemma_create, lemma_create_succeeds, lemma_delete, lemma_extended_reads,
    lemma_extended_twice, lemma_job_stays_true, lemma_links, lemma_relocate, lemma_write,
    linked_in, linked_out, true_job,
};
use crate::compactor::CompactJob;
use crate::def::{OP_CREATE, OP_DELETE, OP_WRITE};
use crate::entry::{parse, well_formed};
use crate::error::UpdateError;
use crate::hash::sha256;
use crate::model::{between, idle, record_of, Core, Db, ProgressView, Store, UpdaterView};
use crate::numbering::{
    lemma_compact_numbers, lemma_finish_op_numbers, lemma_run_ops_numbers,
    lemma_run_ready_numbers, lemma_run_sets_numbers, lemma_run_task_numbers, lemma_settle_numbers,
};
use crate::tasks::{ChangeSet, Op, OpRecord, Task};

verus! {

/// The values of keys after one operation of the shard `shard_id` or of another.
pub open spec fn apply_op(
    contents: Map<Seq<u8>, Seq<u8>>,
    shard_id: usize,
    op: Op,
) -> Map<Seq<u8>, Seq<u8>> {
    if op.shard_id != shard_id {
        contents
    } else if op.op_type == OP_WRITE || op.op_type == OP_CREATE {
        contents.insert(op.key@, op.value@)
    } else if op.op_type == OP_DELETE {
        contents.remove(op.key@)
    } else {
        contents
    }
}

/// The values of keys after operations, one after the other.
pub open spec fn apply_ops(
    contents: Map<Seq<u8>, Seq<u8>>,
    shard_id: usize,
    ops: Seq<Op>,
) -> Map<Seq<u8>, Seq<u8>>
    decreases ops.len(),
{
    if ops.len() == 0 {
        contents
    } else {
        apply_ops(apply_op(contents, shard_id, ops[0]), shard_id, ops.skip(1))
    }
}

/// The values of keys after change sets, one after the other.
pub open spec fn apply_sets(
    contents: Map<Seq<u8>, Seq<u8>>,
    shard_id: usize,
    sets: Seq<ChangeSet>,
) -> Map<Seq<u8>, Seq<u8>>
    decreases sets.len(),
{
    if sets.len() == 0 {
        contents
    } else {
        apply_sets(apply_ops(contents, shard_id, sets[0].ops@), shard_id, sets.skip(1))
    }
}

/// Each operation comes with the hash of its key.
pub open spec fn hashed(ops: Seq<Op>) -> bool {
    forall|i: int|
        0 <= i < ops.len() ==> (#[trigger] ops[i]).key_hash@ == sha256(ops[i].key@)
}

/// Each operation of each change set comes with the hash of its key.
pub open spec fn all_hashed(sets: Seq<ChangeSet>) -> bool {
    forall|i: int| 0 <= i < sets.len() ==> hashed((#[trigger] sets[i]).ops@)
}

impl Store {
    /// The live entries form one list, and the jobs received are true.
    pub open spec fn valid(self) -> bool {
        &&& self.db.chained()
        &&& forall|i: int| 0 <= i < self.jobs.len() ==> true_job(self.db, #[trigger] self.jobs[i])
    }

    /// The store came from `before` by work on its entries.
    pub open spec fn follows(self, before: Store) -> bool {
        &&& self.valid()
        &&& before.db.extended_by(self.db)
        &&& before.db.tells(self.db)
        &&& self.db.check_rec == before.db.check_rec
        &&& self.db.curr_version == before.db.curr_version
        &&& self.db.sn_end >= before.db.sn_end
        &&& self.db.buffer.blocks == before.db.buffer.blocks
    }
}

proof fn lemma_jobs_stay_true(db: Db, next: Db, jobs: Seq<CompactJob>)
    requires
        db.extended_by(next),
        db.revives_nothing(next),
        forall|i: int| 0 <= i < jobs.len() ==> true_job(db, #[trigger] jobs[i]),
    ensures
        forall|i: int| 0 <= i < jobs.len() ==> true_job(next, #[trigger] jobs[i]),
{
    assert forall|i: int| 0 <= i < jobs.len() implies true_job(next, #[trigger] jobs[i]) by {
        lemma_job_stays_true(db, next, jobs[i]);
    }
}

/// A compaction changes no key, no value and no link.
pub proof fn lemma_compact(store: Store, rec: Option<&OpRecord>, comp_idx: int)
    requires
        store.valid(),
    ensures
        ({
            let (next, _) = store.compact(rec, comp_idx);
            &&& next.follows(store)
            &&& next.db.contents() == store.db.contents()
            &&& next.db.links() == store.db.links()
            &&& next.db.index.dom().len() == store.db.index.dom().len()
        }),
    decreases store.jobs.len(),
{
    lemma_tells_nothing(store.db, store.db);
    if store.jobs.len() > 0 {
        let job = store.jobs[0];
        let rest = store.return_job();
        let key_hash = sha256(parse(job.entry_bz@).key);
        assert(rest.valid()) by {
            assert forall|i: int| 0 <= i < rest.jobs.len() implies true_job(
                rest.db,
                #[trigger] rest.jobs[i],
            ) by {
                assert(rest.jobs[i] == store.jobs[i + 1]);
            }
        }
        if well_formed(job.entry_bz@) {
            let place = (k80_of(key_hash), job.old_pos);
            if !store.db.index.contains_key(place) {
                lemma_compact(rest, rec, comp_idx);
            } else {
                match store.db.relocate(job, key_hash, rec, comp_idx) {
                    Err(_) => {},
                    Ok(db) => {
                        assert(true_job(store.db, job));
                        assert(store.db.live(place));
                        lemma_relocate(store.db, job, key_hash, rec, comp_idx, db);
                        lemma_relocate_tells(store.db, job, key_hash, rec, comp_idx, db);
                        lemma_jobs_stay_true(store.db, db, rest.jobs);
                    },
                }
            }
        }
    }
}

/// The compactions that are owed change no key, no value and no link, and when they end
/// well none is owed any more.
pub proof fn lemma_settle(core: Core, rec: Option<&OpRecord>)
    requires
        core.store.valid(),
    ensures
        ({
            let (next, res) = core.settle(rec);
            &&& next.store.follows(core.store)
            &&& next.store.db.contents() == core.store.db.contents()
            &&& next.store.db.links() == core.store.db.links()
            &&& next.store.db.index.dom().len() == core.store.db.index.dom().len()
            &&& next.tasks == core.tasks
            &&& next.progress == (ProgressView {
                owed_next: next.progress.owed_next,
                ..core.progress
            })
            &&& res is Ok ==> next.progress.owed_next >= next.progress.owed_end
        }),
    decreases core.progress.owed_end - core.progress.owed_next,
{
    let p = core.progress;
    lemma_tells_nothing(core.store.db, core.store.db);
    if p.owed_next < p.owed_end {
        lemma_compact(core.store, rec, p.owed_next);
        let (store, res) = core.store.compact(rec, p.owed_next);
        if res is Ok {
            let stepped = Core {
                store,
                progress: ProgressView { owed_next: p.owed_next + 1, ..p },
                ..core
            };
            lemma_settle(stepped, rec);
            let next = stepped.settle(rec).0.store.db;
            lemma_extended_twice(core.store.db, store.db, next);
            lemma_compact_numbers(core.store, rec, p.owed_next);
            lemma_settle_numbers(stepped, rec);
            lemma_tells_twice(core.store.db, store.db, next);
        }
    }
}

proof fn lemma_commit(core: Core, db: Db, count: int, rec: Option<&OpRecord>)
    requires
        core.store.valid(),
        db.chained(),
        core.store.db.extended_by(db),
        core.store.db.revives_nothing(db),
        core.store.db.numbers(db),
        core.store.db.tells(db),
        db.check_rec == core.store.db.check_rec,
        db.curr_version == core.store.db.curr_version,
        db.sn_end >= core.store.db.sn_end,
        db.buffer.blocks == core.store.db.buffer.blocks,
    ensures
        ({
            let (next, res) = core.commit(db, count, rec);
            &&& next.store.follows(core.store)
            &&& next.store.db.contents() == db.contents()
            &&& next.store.db.links() == db.links()
            &&& next.store.db.index.dom().len() == db.index.dom().len()
            &&& next.tasks == core.tasks
            &&& next.progress == (ProgressView {
                owed_next: next.progress.owed_next,
                owed_end: next.progress.owed_end,
                ..core.progress
            })
            &&& res is Ok ==> next.progress.owed_next >= next.progress.owed_end
        }),
{
    let owed = if db.is_compactible() {
        count
    } else {
        0
    };
    let begun = core.with_db(db).with_progress(
        ProgressView { owed_next: 0, owed_end: owed, ..core.progress },
    );
    lemma_jobs_stay_true(core.store.db, db, core.store.jobs);
    lemma_settle(begun, rec);
    let next = begun.settle(rec).0.store.db;
    lemma_extended_twice(core.store.db, db, next);
    lemma_settle_numbers(begun, rec);
    lemma_tells_twice(core.store.db, db, next);
}

/// Work on operations keeps the store valid and the tasks as they are.
pub open spec fn works(core: Core, next: Core) -> bool {
    &&& next.store.follows(core.store)
    &&& next.tasks == core.tasks
    &&& next.progress.task == core.progress.task
}

/// The work stands at the same operation of the same change set.
pub open spec fn same_turn(core: Core, next: Core) -> bool {
    &&& next.progress.set_idx == core.progress.set_idx
    &&& next.progress.op_idx == core.progress.op_idx
}

/// Where a key can be written, the write changes its value and nothing else, however the
/// compaction that follows ends: the entries stay one list, with the same links.
pub proof fn lemma_write_kv(
    core: Core,
    key_hash: Seq<u8>,
    key: Seq<u8>,
    value: Seq<u8>,
    rec: Option<&OpRecord>,
)
    requires
        core.store.valid(),
        key_hash == sha256(key),
    ensures
        ({
            let (next, res) = core.write_kv(key_hash, key, value, rec);
            let db = core.store.db;
            &&& works(core, next)
            &&& same_turn(core, next)
            &&& db.write(key_hash, key, value) is Ok ==> {
                &&& db.contents().contains_key(key)
                &&& next.store.db.contents() == db.contents().insert(key, value)
                &&& next.store.db.links() == db.links()
                &&& next.store.db.index.dom().len() == db.index.dom().len()
                &&& res is Ok ==> next.progress.owed_next >= next.progress.owed_end
            }
            &&& res is Ok ==> db.write(key_hash, key, value) is Ok
        }),
{
    let db = core.store.db;
    lemma_tells_nothing(db, db);
    match db.write(key_hash, key, value) {
        Err(_) => {},
        Ok(next) => {
            lemma_write(db, key_hash, key, value, next);
            lemma_write_numbers(db, key_hash, key, value, next);
            lemma_write_tells(db, key_hash, key, value, next);
            lemma_commit(core, next, 1, rec);
        },
    }
}

/// Where a key can be created, the creation adds it and nothing else, however the
/// compactions that follow end: the entries are one list again, with one entry more. Of
/// the entries that were there, the one before the new key alone names another next key,
/// the new one, which names what that one named.
pub proof fn lemma_create_kv(
    core: Core,
    key_hash: Seq<u8>,
    key: Seq<u8>,
    value: Seq<u8>,
    rec: Option<&OpRecord>,
)
    requires
        core.store.valid(),
        key_hash == sha256(key),
        key_hash.len() == 32,
    ensures
        ({
            let (next, res) = core.create_kv(key_hash, key, value, rec);
            let db = core.store.db;
            &&& works(core, next)
            &&& same_turn(core, next)
            &&& db.create(key_hash, key, value, rec) is Ok ==> {
                &&& !db.contents().contains_key(key)
                &&& next.store.db.contents() == db.contents().insert(key, value)
                &&& exists|prev: Seq<u8>|
                    linked_in(db.links(), next.store.db.links(), key, prev)
                &&& next.store.db.index.dom().len() == db.index.dom().len() + 1
                &&& res is Ok ==> next.progress.owed_next >= next.progress.owed_end
            }
            &&& res is Ok ==> db.create(key_hash, key, value, rec) is Ok
        }),
{
    let db = core.store.db;
    lemma_tells_nothing(db, db);
    match db.create(key_hash, key, value, rec) {
        Err(_) => {},
        Ok(next) => {
            lemma_create(db, key_hash, key, value, rec, next);
            lemma_create_numbers(db, key_hash, key, value, rec, next);
            lemma_create_tells(db, key_hash, key, value, rec, next);
            lemma_commit(core, next, 2, rec);
            let prev = choose|prev: Seq<u8>| linked_in(db.links(), next.links(), key, prev);
            assert(linked_in(
                db.links(),
                core.create_kv(key_hash, key, value, rec).0.store.db.links(),
                key,
                prev,
            ));
        },
    }
}

/// Where a key can be deleted, the deletion removes it and nothing else: the entries are
/// one list again, with one entry less. Of the others, the one before the deleted key
/// alone names another next key, the one that the deleted one named.
pub proof fn lemma_delete_kv(
    core: Core,
    key_hash: Seq<u8>,
    key: Seq<u8>,
    rec: Option<&OpRecord>,
)
    requires
        core.store.valid(),
        key_hash == sha256(key),
    ensures
        ({
            let (next, res) = core.delete_kv(key_hash, key, rec);
            let db = core.store.db;
            &&& works(core, next)
            &&& next.progress == core.progress
            &&& res is Ok ==> {
                &&& db.contents().contains_key(key)
                &&& next.store.db.contents() == db.contents().remove(key)
                &&& exists|prev: Seq<u8>|
                    linked_out(db.links(), next.store.db.links(), key, prev)
                &&& next.store.db.index.dom().len() + 1 == db.index.dom().len()
            }
        }),
{
    let db = core.store.db;
    lemma_tells_nothing(db, db);
    match db.delete(key_hash, key, rec) {
        Err(_) => {},
        Ok(next) => {
            lemma_delete(db, key_hash, key, rec, next);
            lemma_delete_numbers(db, key_hash, key, rec, next);
            lemma_delete_tells(db, key_hash, key, rec, next);
            lemma_jobs_stay_true(db, next, core.store.jobs);
        },
    }
}

/// A key that is there cannot be created, and the attempt changes nothing.
pub proof fn lemma_create_existing(
    core: Core,
    key_hash: Seq<u8>,
    key: Seq<u8>,
    value: Seq<u8>,
    rec: Option<&OpRecord>,
)
    requires
        core.store.db.chained(),
        key_hash == sha256(key),
        key_hash.len() == 32,
        core.store.db.contents().contains_key(key),
    ensures
        core.create_kv(key_hash, key, value, rec) == (
            core,
            Err::<(), UpdateError>(UpdateError::PrevKeyNotFound),
        ),
{
    let db = core.store.db;
    let here = choose|here: (u128, i64)| db.holds(here, key);
    assert(db.live(here) && db.hash_at(here) == key_hash);
    assert forall|p: (u128, i64)| #[trigger] db.live(p) implies !between(
        db.hash_at(p),
        key_hash,
        db.next_hash_at(p),
    ) by {
        assert(!between(db.hash_at(p), db.hash_at(here), db.next_hash_at(p)));
    }
    lemma_create_succeeds(db, key_hash, key, value, rec);
}

/// A key that was created, with its compactions, cannot be created again, and the attempt
/// changes nothing.
pub proof fn lemma_create_twice(
    core: Core,
    key_hash: Seq<u8>,
    key: Seq<u8>,
    value: Seq<u8>,
    rec: Option<&OpRecord>,
    again: Seq<u8>,
    rec2: Option<&OpRecord>,
)
    requires
        core.store.valid(),
        key_hash == sha256(key),
        key_hash.len() == 32,
        core.create_kv(key_hash, key, value, rec).1 is Ok,
    ensures
        ({
            let created = core.create_kv(key_hash, key, value, rec).0;
            created.create_kv(key_hash, key, again, rec2) == (
                created,
                Err::<(), UpdateError>(UpdateError::PrevKeyNotFound),
            )
        }),
{
    lemma_create_kv(core, key_hash, key, value, rec);
    let created = core.create_kv(key_hash, key, value, rec).0;
    lemma_create_existing(created, key_hash, key, again, rec2);
}

/// A key stays as long as no operation of the shard deletes it.
pub proof fn lemma_key_stays(
    contents: Map<Seq<u8>, Seq<u8>>,
    shard_id: usize,
    ops: Seq<Op>,
    key: Seq<u8>,
)
    requires
        contents.contains_key(key),
        forall|i: int|
            0 <= i < ops.len() ==> !((#[trigger] ops[i]).shard_id == shard_id && ops[i].op_type
                == OP_DELETE && ops[i].key@ == key),
    ensures
        apply_ops(contents, shard_id, ops).contains_key(key),
    decreases ops.len(),
{
    if ops.len() > 0 {
        let rest = ops.skip(1);
        assert forall|i: int| 0 <= i < rest.len() implies !((#[trigger] rest[i]).shard_id
            == shard_id && rest[i].op_type == OP_DELETE && rest[i].key@ == key) by {
            assert(rest[i] == ops[i + 1]);
        }
        lemma_key_stays(apply_op(contents, shard_id, ops[0]), shard_id, rest, key);
    }
}

/// What one operation of the shard `shard_id` or of another does to the links.
pub open spec fn relinked_by_op(
    before: Map<Seq<u8>, Seq<u8>>,
    after: Map<Seq<u8>, Seq<u8>>,
    shard_id: usize,
    op: Op,
) -> bool {
    if op.shard_id == shard_id && op.op_type == OP_CREATE {
        exists|prev: Seq<u8>| linked_in(before, after, op.key@, prev)
    } else if op.shard_id == shard_id && op.op_type == OP_DELETE {
        exists|prev: Seq<u8>| linked_out(before, after, op.key@, prev)
    } else {
        after == before
    }
}

/// What operations, one after the other, do to the links.
pub open spec fn relinked_by_ops(
    before: Map<Seq<u8>, Seq<u8>>,
    after: Map<Seq<u8>, Seq<u8>>,
    shard_id: usize,
    ops: Seq<Op>,
) -> bool
    decreases ops.len(),
{
    if ops.len() == 0 {
        after == before
    } else {
        exists|mid: Map<Seq<u8>, Seq<u8>>| #[trigger]
            relinked_by_op(before, mid, shard_id, ops[0]) && relinked_by_ops(
                mid,
                after,
                shard_id,
                ops.skip(1),
            )
    }
}

/// What change sets, one after the other, do to the links.
pub open spec fn relinked_by_sets(
    before: Map<Seq<u8>, Seq<u8>>,
    after: Map<Seq<u8>, Seq<u8>>,
    shard_id: usize,
    sets: Seq<ChangeSet>,
) -> bool
    decreases sets.len(),
{
    if sets.len() == 0 {
        after == before
    } else {
        exists|mid: Map<Seq<u8>, Seq<u8>>| #[trigger]
            relinked_by_ops(before, mid, shard_id, sets[0].ops@) && relinked_by_sets(
                mid,
                after,
                shard_id,
                sets.skip(1),
            )
    }
}

/// An operation that ends well does to the contents and to the links what it is for, and
/// owes nothing then. However it ends, the live entries are one list.
pub proof fn lemma_run_op(core: Core, op: &Op)
    requires
        core.store.valid(),
        op.shard_id == core.store.db.shard_id,
        op.key_hash@ == sha256(op.key@),
        core.progress.owed_next >= core.progress.owed_end,
    ensures
        ({
            let (next, res) = core.run_op(op);
            &&& works(core, next)
            &&& same_turn(core, next)
            &&& res is Ok ==> next.progress.owed_next >= next.progress.owed_end
            &&& res is Ok ==> next.store.db.contents() == apply_op(
                core.store.db.contents(),
                core.store.db.shard_id,
                *op,
            )
            &&& res is Ok ==> relinked_by_op(
                core.store.db.links(),
                next.store.db.links(),
                core.store.db.shard_id,
                *op,
            )
        }),
{
    let rec = record_of(op);
    lemma_tells_nothing(core.store.db, core.store.db);
    if core.active_info(rec) is Ok {
        if op.op_type == OP_WRITE {
            lemma_write_kv(core, op.key_hash@, op.key@, op.value@, rec);
        } else if op.op_type == OP_CREATE {
            lemma_create_kv(core, op.key_hash@, op.key@, op.value@, rec);
        } else if op.op_type == OP_DELETE {
            lemma_delete_kv(core, op.key_hash@, op.key@, rec);
        }
    }
}

/// Operations that end well are applied to the contents and to the links, each of this
/// shard once and in their order.
pub proof fn lemma_run_ops(core: Core, ops: Seq<Op>)
    requires
        core.store.valid(),
        hashed(ops),
        0 <= core.progress.op_idx <= ops.len(),
        core.progress.owed_next >= core.progress.owed_end,
    ensures
        ({
            let (next, res) = core.run_ops(ops);
            &&& works(core, next)
            &&& next.progress.set_idx == core.progress.set_idx
            &&& res is Ok ==> next.progress.owed_next >= next.progress.owed_end
            &&& res is Ok ==> next.store.db.contents() == apply_ops(
                core.store.db.contents(),
                core.store.db.shard_id,
                ops.skip(core.progress.op_idx),
            )
            &&& res is Ok ==> relinked_by_ops(
                core.store.db.links(),
                next.store.db.links(),
                core.store.db.shard_id,
                ops.skip(core.progress.op_idx),
            )
        }),
    decreases ops.len() - core.progress.op_idx,
{
    let i = core.progress.op_idx;
    lemma_tells_nothing(core.store.db, core.store.db);
    if i < ops.len() {
        let op = &ops[i];
        let (mid, res) = core.finish_op(op);
        if op.shard_id == core.store.db.shard_id {
            lemma_run_op(core, op);
        }
        if res is Ok {
            let stepped = mid.with_progress(ProgressView { op_idx: i + 1, ..mid.progress });
            lemma_run_ops(stepped, ops);
            let next = stepped.run_ops(ops).0.store.db;
            lemma_extended_twice(core.store.db, mid.store.db, next);
            lemma_finish_op_numbers(core, op);
            lemma_run_ops_numbers(stepped, ops);
            lemma_tells_twice(core.store.db, mid.store.db, next);
            assert(ops.skip(i).skip(1) =~= ops.skip(i + 1));
            assert(ops.skip(i)[0] == *op);
            assert(relinked_by_op(
                core.store.db.links(),
                mid.store.db.links(),
                core.store.db.shard_id,
                ops.skip(i)[0],
            ));
        }
    }
}

/// Change sets that end well are applied to the contents and to the links in their order,
/// and each of them takes the version on by one.
pub proof fn lemma_run_sets(core: Core, sets: Seq<ChangeSet>)
    requires
        core.store.valid(),
        all_hashed(sets),
        0 <= core.progress.set_idx <= sets.len(),
        core.progress.op_idx == 0,
        core.progress.owed_next >= core.progress.owed_end,
    ensures
        ({
            let (next, res) = core.run_sets(sets);
            &&& next.store.valid()
            &&& core.store.db.extended_by(next.store.db)
            &&& core.store.db.tells(next.store.db)
            &&& next.tasks == core.tasks
            &&& next.progress.task == core.progress.task
            &&& next.store.db.buffer.blocks == core.store.db.buffer.blocks
            &&& res is Ok ==> next.store.db.contents() == apply_sets(
                core.store.db.contents(),
                core.store.db.shard_id,
                sets.skip(core.progress.set_idx),
            )
            &&& res is Ok ==> relinked_by_sets(
                core.store.db.links(),
                next.store.db.links(),
                core.store.db.shard_id,
                sets.skip(core.progress.set_idx),
            )
            &&& res is Ok ==> next.store.db.curr_version == core.store.db.curr_version + (
            sets.len() - core.progress.set_idx)
        }),
    decreases sets.len() - core.progress.set_idx,
{
    let i = core.progress.set_idx;
    lemma_tells_nothing(core.store.db, core.store.db);
    if i < sets.len() {
        assert(hashed(sets[i].ops@));
        lemma_run_ops(core, sets[i].ops@);
        let (mid, res) = core.run_ops(sets[i].ops@);
        let db = mid.store.db;
        assert(sets[i].ops@.skip(0) =~= sets[i].ops@);
        if res is Ok && db.curr_version < i64::MAX {
            let stepped_db = Db { curr_version: (db.curr_version + 1) as i64, ..db };
            let stepped = mid.with_db(stepped_db).with_progress(
                ProgressView { set_idx: i + 1, op_idx: 0, ..mid.progress },
            );
            lemma_same_entries(db, stepped_db);
            lemma_jobs_stay_true(db, stepped_db, mid.store.jobs);
            lemma_run_sets(stepped, sets);
            lemma_extended_twice(core.store.db, db, stepped_db);
            let next = stepped.run_sets(sets).0.store.db;
            lemma_extended_twice(core.store.db, stepped_db, next);
            lemma_tells_nothing(db, stepped_db);
            lemma_run_ops_numbers(core, sets[i].ops@);
            lemma_tells_twice(core.store.db, db, stepped_db);
            lemma_numbers_twice(core.store.db, db, stepped_db);
            lemma_run_sets_numbers(stepped, sets);
            lemma_tells_twice(core.store.db, stepped_db, next);
            assert(sets.skip(i).skip(1) =~= sets.skip(i + 1));
            assert(sets.skip(i)[0] == sets[i]);
            assert(relinked_by_ops(
                core.store.db.links(),
                mid.store.db.links(),
                core.store.db.shard_id,
                sets.skip(i)[0].ops@,
            ));
        }
    }
}

/// The entries of a database stand as they do in `next`, and have the same serial numbers.
spec fn same_entries(db: Db, next: Db) -> bool {
    &&& next.index == db.index
    &&& next.sn_end == db.sn_end
    &&& next.buffer.start == db.buffer.start
    &&& next.buffer.end == db.buffer.end
    &&& next.buffer.entries == db.buffer.entries
    &&& forall|p: i64| #[trigger]
        next.cache.contains_key((next.shard_id, p)) ==> p < next.buffer.end
    &&& forall|a: (u128, i64)| #[trigger] db.live(a) ==> next.load(a.1) == db.load(a.1)
}

/// Where the live entries are read as before, they are one list as before, with the
/// same contents.
proof fn lemma_same_reads(db: Db, next: Db)
    requires
        db.chained(),
        same_entries(db, next),
    ensures
        next.chained(),
        next.contents() == db.contents(),
        next.links() == db.links(),
{
    assert forall|a: (u128, i64)| #[trigger] next.live(a) implies db.live(a) && next.entry_at(a)
        == db.entry_at(a) && next.sound_at(a) by {
        assert(db.live(a));
        assert(db.sound_at(a));
    }
    assert forall|b: (u128, i64)| #[trigger] next.live(b) implies next.is_first(b) || exists|
        a: (u128, i64),
    | next.names(a, b) by {
        assert(db.live(b));
        if db.is_first(b) {
            assert forall|a: (u128, i64)| #[trigger] next.live(a) && a != b implies bytes_before(
                next.hash_at(b),
                next.hash_at(a),
            ) by {
                assert(db.live(a));
            }
        } else {
            let a = choose|a: (u128, i64)| db.names(a, b);
            assert(next.live(a));
            assert(next.names(a, b));
        }
    }
    assert(next.distinct()) by {
        assert forall|a: (u128, i64), b: (u128, i64)|
            #[trigger] next.live(a) && #[trigger] next.live(b) && a != b implies next.hash_at(a)
            != next.hash_at(b) && next.index[a] != next.index[b] by {
            assert(db.live(a) && db.live(b));
        }
    }
    assert(next.ordered()) by {
        assert forall|a: (u128, i64), b: (u128, i64)|
            #[trigger] next.live(a) && #[trigger] next.live(b) implies !between(
            next.hash_at(a),
            next.hash_at(b),
            next.next_hash_at(a),
        ) by {
            assert(db.live(a) && db.live(b));
        }
    }
    assert forall|k: Seq<u8>| #[trigger] next.links().contains_key(k)
        == db.links().contains_key(k) && (db.links().contains_key(k) ==> next.links()[k]
        == db.links()[k]) by {
        if next.links().contains_key(k) {
            let p = choose|p: (u128, i64)| next.holds(p, k);
            assert(next.live(p));
            assert(db.holds(p, k));
            lemma_links(db, p, k);
            lemma_links(next, p, k);
        }
        if db.links().contains_key(k) {
            let p = choose|p: (u128, i64)| db.holds(p, k);
            assert(db.live(p) && next.live(p));
            assert(next.holds(p, k));
        }
    }
    assert(next.links() =~= db.links());
    assert forall|k: Seq<u8>| #[trigger] next.contents().contains_key(k)
        == db.contents().contains_key(k) && (db.contents().contains_key(k) ==> next.contents()[k]
        == db.contents()[k]) by {
        if next.contents().contains_key(k) {
            let p = choose|p: (u128, i64)| next.holds(p, k);
            assert(next.live(p));
            assert(db.holds(p, k));
            lemma_contents(db, p, k);
        }
        if db.contents().contains_key(k) {
            let p = choose|p: (u128, i64)| db.holds(p, k);
            assert(next.live(p));
            assert(next.holds(p, k));
            lemma_contents(db, p, k);
            lemma_contents(next, p, k);
        }
    }
    assert(next.contents() =~= db.contents());
}

proof fn lemma_same_entries(db: Db, next: Db)
    requires
        db.chained(),
        next.shard_id == db.shard_id,
        next.cache == db.cache,
        next.file == db.file,
        next.index == db.index,
        next.sn_end == db.sn_end,
        next.buffer.start == db.buffer.start,
        next.buffer.end == db.buffer.end,
        next.buffer.entries == db.buffer.entries,
    ensures
        next.chained(),
        next.contents() == db.contents(),
        next.links() == db.links(),
        db.extended_by(next),
        db.revives_nothing(next),
{
    assert forall|a: (u128, i64)| #[trigger] db.live(a) implies next.load(a.1) == db.load(a.1) by {
        assert(next.read(next.shard_id, a.1) == db.read(db.shard_id, a.1));
    }
    lemma_same_reads(db, next);
}

impl Db {
    /// The database with `cache` for its cache.
    pub open spec fn with_cache(self, cache: CacheView) -> Db {
        Db { cache, ..self }
    }

    /// What `cache` has of this shard is what the log says.
    pub open spec fn tells_true(self, cache: CacheView) -> bool {
        forall|p: i64| #[trigger]
            cache.contains_key((self.shard_id, p)) ==> p < self.buffer.end && self.with_cache(
                Map::empty(),
            ).read(self.shard_id, p) == Some(cache[(self.shard_id, p)])
    }
}

/// A cache that tells the truth makes no difference to what is read.
pub proof fn lemma_true_cache_reads(db: Db, cache: CacheView, pos: i64)
    requires
        db.tells_true(cache),
    ensures
        db.with_cache(cache).load(pos) == db.with_cache(Map::empty()).load(pos),
{
    let plain = db.with_cache(Map::empty());
    if cache.contains_key((db.shard_id, pos)) {
        assert(plain.read(db.shard_id, pos) == Some(cache[(db.shard_id, pos)]));
    }
    assert(db.with_cache(cache).read(db.shard_id, pos) == plain.read(db.shard_id, pos));
}

/// A cache that tells the truth goes on to do so when the log grows.
pub proof fn lemma_cache_stays_true(db: Db, next: Db, cache: CacheView)
    requires
        db.with_cache(Map::empty()).extended_by(next.with_cache(Map::empty())),
        db.tells_true(cache),
    ensures
        next.tells_true(cache),
{
    let plain = db.with_cache(Map::empty());
    let next_plain = next.with_cache(Map::empty());
    assert forall|p: i64| #[trigger] cache.contains_key((next.shard_id, p)) implies p
        < next.buffer.end && next_plain.read(next.shard_id, p) == Some(
        cache[(next.shard_id, p)],
    ) by {
        assert(cache.contains_key((db.shard_id, p)));
        lemma_extended_reads(plain, next_plain, p);
        assert(next_plain.read(db.shard_id, p) == plain.read(db.shard_id, p));
    }
}

proof fn lemma_plain_extended(db: Db, next: Db)
    requires
        db.extended_by(next),
    ensures
        db.with_cache(Map::empty()).extended_by(next.with_cache(Map::empty())),
{
    let plain = db.with_cache(Map::empty());
    let next_plain = next.with_cache(Map::empty());
    assert forall|p: i64| p < plain.buffer.end implies (
    #[trigger] next_plain.buffer.entries.contains_key(p) == plain.buffer.entries.contains_key(
        p,
    )) by {
        assert(next.buffer.entries.contains_key(p) == db.buffer.entries.contains_key(p));
    }
    assert forall|p: i64| p < plain.buffer.end implies (#[trigger] next_plain.buffer.entries[p]
        == plain.buffer.entries[p]) by {
        assert(next.buffer.entries[p] == db.buffer.entries[p]);
    }
}

impl Core {
    /// The store is valid, and its cache and the caches of all tasks tell the truth.
    pub open spec fn valid(self) -> bool {
        &&& self.store.valid()
        &&& self.store.db.tells_true(self.store.db.cache)
        &&& forall|task_id: i64| #[trigger]
            self.tasks.contains_key(task_id) ==> (self.tasks[task_id].cache matches Some(c)
                ==> self.store.db.tells_true(c@))
    }
}

/// To begin a task changes no key, no value and no link.
proof fn lemma_begin(core: Core, task_id: i64)
    requires
        core.valid(),
        core.tasks.contains_key(task_id),
    ensures
        ({
            let begun = core.begin(task_id);
            let db = core.store.db;
            &&& begun.store.valid()
            &&& begun.store.db.contents() == db.contents()
            &&& begun.store.db.links() == db.links()
            &&& begun.store.db.tells_true(begun.store.db.cache)
            &&& db.with_cache(Map::empty()).extended_by(
                begun.store.db.with_cache(Map::empty()),
            )
        }),
{
    let db = core.store.db;
    let begun = core.begin(task_id).store.db;
    assert(db.tells_true(begun.cache));
    let plain = db.with_cache(Map::empty());
    assert forall|p: i64| #[trigger] begun.cache.contains_key((begun.shard_id, p)) implies p
        < begun.buffer.end && begun.with_cache(Map::empty()).read(begun.shard_id, p) == Some(
        begun.cache[(begun.shard_id, p)],
    ) by {
        assert(plain.read(db.shard_id, p) == Some(begun.cache[(db.shard_id, p)]));
        assert(begun.with_cache(Map::empty()).read(db.shard_id, p) == plain.read(db.shard_id, p));
    }
    assert forall|p: i64| #[trigger] begun.load(p) == db.load(p) by {
        lemma_true_cache_reads(db, db.cache, p);
        lemma_true_cache_reads(db, begun.cache, p);
        assert(db.with_cache(db.cache) == db);
        assert(begun.read(begun.shard_id, p) == db.with_cache(begun.cache).read(db.shard_id, p));
    }
    lemma_same_reads(db, begun);
    assert forall|i: int| 0 <= i < core.store.jobs.len() implies true_job(
        begun,
        #[trigger] core.store.jobs[i],
    ) by {
        let job = core.store.jobs[i];
        assert(true_job(db, job));
        assert(begun.load(job.old_pos) == db.load(job.old_pos));
        let place = (k80_of(sha256(parse(job.entry_bz@).key)), job.old_pos);
        assert(begun.live(place) == db.live(place));
    }
}

/// A task that ends well is applied to the contents and to the links: each operation of
/// this shard once, in the order of the change sets and of the operations in them. It takes
/// the version on by one for each change set, and its block ends with it if it is the last
/// of the block.
/// However it ends, the entries that it appends have the serial numbers from `sn_end` on
/// in order, `sn_end` grows by their number, and the number of live entries grows by
/// theirs less the number of serial numbers that they take out of use.
pub proof fn lemma_run_task(core: Core, task_id: i64)
    requires
        core.valid(),
        core.progress.task is None,
        core.tasks.contains_key(task_id),
        all_hashed(core.tasks[task_id].change_sets@),
    ensures
        ({
            let (next, res) = core.run_task(task_id);
            let task = core.tasks[task_id];
            let db = core.store.db;
            &&& next.valid()
            &&& next.tasks == core.tasks
            &&& next.store.db.shard_id == db.shard_id
            &&& db.numbers(next.store.db)
            &&& db.tells(next.store.db)
            &&& res is Ok ==> next.progress == idle()
            &&& res is Ok ==> next.store.db.contents() == apply_sets(
                db.contents(),
                db.shard_id,
                task.change_sets@,
            )
            &&& res is Ok ==> relinked_by_sets(
                db.links(),
                next.store.db.links(),
                db.shard_id,
                task.change_sets@,
            )
            &&& res is Ok ==> next.store.db.curr_version == core.begin(
                task_id,
            ).store.db.curr_version + task.change_sets@.len()
            &&& res is Ok ==> next.store.db.buffer.blocks == if task.end_block {
                db.buffer.blocks.push(
                    EndBlock {
                        compact_done_pos: next.store.db.compact_done_pos,
                        sn_start: next.store.db.sn_start,
                        sn_end: next.store.db.sn_end,
                    },
                )
            } else {
                db.buffer.blocks
            }
        }),
{
    let begun = core.begin(task_id);
    let sets = core.tasks[task_id].change_sets@;
    lemma_begin(core, task_id);
    lemma_run_sets(begun, sets);
    assert(sets.skip(0) =~= sets);
    let (done, res) = begun.run_sets(sets);
    lemma_caches_stay_true(core, begun, done);
    lemma_run_task_numbers(core, task_id);
    lemma_run_sets_numbers(begun, sets);
    lemma_tells_nothing(core.store.db, begun.store.db);
    lemma_tells_twice(core.store.db, begun.store.db, done.store.db);
    if res is Ok {
        let end = done.end(core.tasks[task_id].end_block);
        lemma_same_entries(done.store.db, end.store.db);
        lemma_jobs_stay_true(done.store.db, end.store.db, done.store.jobs);
        lemma_caches_stay_true(core, done, end);
        lemma_numbers_twice(core.store.db, begun.store.db, done.store.db);
        lemma_tells_nothing(done.store.db, end.store.db);
        lemma_tells_twice(core.store.db, done.store.db, end.store.db);
    }
}

/// `next` comes from `mid` by additions to the log, and `mid` from `core`.
proof fn lemma_caches_stay_true(core: Core, mid: Core, next: Core)
    requires
        core.valid(),
        core.store.db.with_cache(Map::empty()).extended_by(
            mid.store.db.with_cache(Map::empty()),
        ),
        mid.store.db.tells_true(mid.store.db.cache),
        mid.store.db.extended_by(next.store.db),
        next.tasks == core.tasks,
        next.store.valid(),
    ensures
        next.valid(),
        core.store.db.with_cache(Map::empty()).extended_by(
            next.store.db.with_cache(Map::empty()),
        ),
{
    lemma_plain_extended(mid.store.db, next.store.db);
    lemma_extended_twice(
        core.store.db.with_cache(Map::empty()),
        mid.store.db.with_cache(Map::empty()),
        next.store.db.with_cache(Map::empty()),
    );
    lemma_cache_stays_true(mid.store.db, next.store.db, mid.store.db.cache);
    assert forall|task_id: i64| #[trigger] next.tasks.contains_key(task_id) implies (
    next.tasks[task_id].cache matches Some(c) ==> next.store.db.tells_true(c@)) by {
        assert(core.tasks.contains_key(task_id));
        if core.tasks[task_id].cache is Some {
            lemma_cache_stays_true(
                core.store.db,
                next.store.db,
                core.tasks[task_id].cache->0@,
            );
        }
    }
}

// ---- tasks in turn ----

/// The values of keys after the tasks that may be run have been run in turn, from
/// `task_id` on.
pub open spec fn apply_ready(
    contents: Map<Seq<u8>, Seq<u8>>,
    shard_id: usize,
    tasks: Map<i64, Task>,
    ready: Map<i64, i64>,
    task_id: i64,
) -> Map<Seq<u8>, Seq<u8>>
    decreases ready.dom().len(),
{
    if !ready.dom().finite() || !ready.contains_key(task_id) {
        contents
    } else {
        apply_ready(
            apply_sets(contents, shard_id, tasks[task_id].change_sets@),
            shard_id,
            tasks,
            ready.remove(task_id),
            ready[task_id],
        )
    }
}

/// Tasks that are run in turn and end well are applied to the contents in turn. The
/// entries that they append are numbered, and tell how many entries are live.
pub proof fn lemma_run_ready(u: UpdaterView)
    requires
        u.core.valid(),
        u.core.progress.task is None,
        forall|task_id: i64| #[trigger]
            u.core.tasks.contains_key(task_id) ==> all_hashed(
                u.core.tasks[task_id].change_sets@,
            ),
    ensures
        ({
            let (next, res) = u.run_ready();
            &&& next.core.valid()
            &&& next.core.tasks == u.core.tasks
            &&& next.core.store.db.shard_id == u.core.store.db.shard_id
            &&& u.core.store.db.numbers(next.core.store.db)
            &&& u.core.store.db.tells(next.core.store.db)
            &&& res is Ok ==> next.core.progress.task is None
            &&& res is Ok ==> next.core.store.db.contents() == apply_ready(
                u.core.store.db.contents(),
                u.core.store.db.shard_id,
                u.core.tasks,
                u.ready,
                u.next_task_id,
            )
        }),
    decreases u.ready.dom().len(),
{
    let db = u.core.store.db;
    lemma_tells_nothing(db, db);
    lemma_run_ready_numbers(u);
    if u.ready.dom().finite() && u.ready.contains_key(u.next_task_id) {
        let task_id = u.next_task_id;
        if u.core.tasks.contains_key(task_id) {
            lemma_run_task(u.core, task_id);
            let (core, res) = u.core.run_task(task_id);
            if res is Ok {
                let stepped = UpdaterView {
                    core,
                    ready: u.ready.remove(task_id),
                    next_task_id: u.ready[task_id],
                };
                lemma_run_ready(stepped);
                lemma_tells_twice(db, core.store.db, stepped.run_ready().0.core.store.db);
            }
        }
    }
}

} // verus!
