//! Tasks: what is to be done to the store, and in which order.

use std::collections::HashMap;
use std::sync::Arc;
use vstd::prelude::*;

use crate::cache::EntryCache;

verus! {

broadcast use vstd::std_specs::hash::group_hash_axioms;

/// What an operation read and wrote when it was recorded.
#[derive(Debug)]
pub struct OpRecord {
    pub op_type: u8,
    /// Number of active entries before the operation.
    pub num_active: usize,
    /// The oldest active serial number before the operation.
    pub oldest_active_sn: u64,
    /// Entries read: the previous one first, the deleted one last.
    pub rd_list: Vec<Vec<u8>>,
    /// Entries written: the changed previous one first, the new one last.
    pub wr_list: Vec<Vec<u8>>,
    /// Entries read by the compactions that the operation caused.
    pub dig_list: Vec<Vec<u8>>,
    /// Entries written by the compactions that the operation caused.
    pub put_list: Vec<Vec<u8>>,
}

impl OpRecord {
    /// A record with nothing in it.
    pub fn new(op_type: u8) -> (r: Self)
        ensures
            r.op_type == op_type,
            r.num_active == 0,
            r.oldest_active_sn == 0,
            r.rd_list@.len() == 0,
            r.wr_list@.len() == 0,
            r.dig_list@.len() == 0,
            r.put_list@.len() == 0,
    {
        OpRecord {
            op_type,
            num_active: 0,
            oldest_active_sn: 0,
            rd_list: Vec::new(),
            wr_list: Vec::new(),
            dig_list: Vec::new(),
            put_list: Vec::new(),
        }
    }
}

/// One operation on one key.
#[derive(Debug)]
pub struct Op {
    pub op_type: u8,
    pub shard_id: usize,
    pub key_hash: [u8; 32],
    pub key: Vec<u8>,
    pub value: Vec<u8>,
    pub record: Option<OpRecord>,
}

/// Operations that take effect together, under one version.
#[derive(Debug)]
pub struct ChangeSet {
    pub ops: Vec<Op>,
}

/// One task of a block.
pub struct Task {
    /// The entries read ahead for the block, where the task begins one.
    pub cache: Option<Arc<EntryCache>>,
    /// The task ends its block.
    pub end_block: bool,
    pub change_sets: Arc<Vec<ChangeSet>>,
}

/// Calls `Arc::clone`. Trusted: the result points to the value that `a` points to.
#[verifier::external_body]
fn share<T>(a: &Arc<T>) -> (r: Arc<T>)
    ensures
        r == *a,
{
    a.clone()
}

/// The tasks that can be run, by task id.
pub struct TaskHub {
    tasks: HashMap<i64, Task>,
}

impl View for TaskHub {
    type V = Map<i64, Task>;

    closed spec fn view(&self) -> Map<i64, Task> {
        self.tasks@
    }
}

impl TaskHub {
    /// A hub with no task.
    pub fn new() -> (h: Self)
        ensures
            h@ == Map::<i64, Task>::empty(),
    {
        TaskHub { tasks: HashMap::new() }
    }

    /// Adds a task.
    pub fn add_task(&mut self, task_id: i64, task: Task)
        ensures
            final(self)@ == old(self)@.insert(task_id, task),
    {
        self.tasks.insert(task_id, task);
    }

    /// The entries read ahead, where the task begins a block, and whether it ends one.
    pub fn check_begin_end(&self, task_id: i64) -> (r: Option<(Option<Arc<EntryCache>>, bool)>)
        ensures
            r is Some == self@.contains_key(task_id),
            r matches Some((cache, end_block)) ==> cache == self@[task_id].cache && end_block
                == self@[task_id].end_block,
    {
        match self.tasks.get(&task_id) {
            Some(task) => {
                let cache = match &task.cache {
                    Some(c) => Some(share(c)),
                    None => None,
                };
                Some((cache, task.end_block))
            },
            None => None,
        }
    }

    /// The change sets of a task.
    pub fn get_change_sets(&self, task_id: i64) -> (r: Option<Arc<Vec<ChangeSet>>>)
        ensures
            r is Some == self@.contains_key(task_id),
            r matches Some(sets) ==> sets == self@[task_id].change_sets,
    {
        match self.tasks.get(&task_id) {
            Some(task) => Some(share(&task.change_sets)),
            None => None,
        }
    }
}

} // verus!
