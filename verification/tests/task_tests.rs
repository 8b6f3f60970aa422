use std::sync::Arc;

use qmdb::buffer::{EndBlock, EntryBufferWriter};
use qmdb::cache::EntryCache;
use qmdb::compactor::{CompactJob, Consumer};
use qmdb::def::{OP_CREATE, OP_DELETE, OP_READ, OP_WRITE};
use qmdb::entry::{Entry, EntryBz};
use qmdb::error::UpdateError;
use qmdb::file::EntryFile;
use qmdb::indexer::Indexer;
use qmdb::tasks::{ChangeSet, Op, OpRecord, Task, TaskHub};
use qmdb::updater::Updater;

const LAST_HASH: [u8; 32] = [0xff; 32];

fn new_updater() -> Updater {
    Updater::new(
        0,
        TaskHub::new(),
        EntryBufferWriter::new(0),
        EntryFile::new(Vec::new()),
        Indexer::new(),
        0,
        0,
        0,
        Consumer::new(),
        0,
        10,
        7,
        1000,
        0,
        false,
    )
}

fn entry_bytes(key: &[u8], value: &[u8]) -> Vec<u8> {
    let entry = Entry {
        key,
        value,
        next_key_hash: &LAST_HASH,
        version: 0,
        serial_number: 0,
    };
    entry.dump(&[])
}

fn hash(key: &[u8]) -> [u8; 32] {
    let bz = entry_bytes(key, b"");
    EntryBz { bz: &bz }.key_hash()
}

/// A key whose hash starts with a zero byte.
fn sentry_key() -> Vec<u8> {
    for i in 0u32..100_000 {
        let key = i.to_be_bytes().to_vec();
        if hash(&key)[0] == 0 {
            return key;
        }
    }
    panic!("no key with a small hash");
}

/// An updater whose shard holds one entry, which comes before all others.
fn updater_with_sentry() -> Updater {
    let mut updater = new_updater();
    let key = sentry_key();
    let bz = Entry {
        key: &key,
        value: b"",
        next_key_hash: &LAST_HASH,
        version: 0,
        serial_number: 0,
    };
    let pos = updater.update_buffer.append(&bz, &[]);
    updater.indexer.add_kv(&hash(&key), pos, 0);
    updater.sn_end = 1;
    updater
}

fn op_of(op_type: u8, key: &[u8], value: &[u8]) -> Op {
    Op {
        op_type,
        shard_id: 0,
        key_hash: hash(key),
        key: key.to_vec(),
        value: value.to_vec(),
        record: None,
    }
}

fn task_of(sets: Vec<Vec<Op>>, end_block: bool) -> Task {
    let mut change_sets = Vec::new();
    for ops in sets {
        change_sets.push(ChangeSet { ops });
    }
    Task {
        cache: None,
        end_block,
        change_sets: Arc::new(change_sets),
    }
}

fn lookup(updater: &mut Updater, key: &[u8]) -> Option<Vec<u8>> {
    for pos in updater.indexer.get_values(0, &hash(key)) {
        assert_eq!(updater.read_entry(0, pos), Ok(()));
        let bz = EntryBz {
            bz: &updater.read_entry_buf,
        };
        if bz.key() == key {
            return Some(bz.value().to_vec());
        }
    }
    None
}

/// The keys from the sentry on, in the order in which the entries name them.
fn walk(updater: &mut Updater, keys: &[&[u8]]) -> Vec<Vec<u8>> {
    let mut found = Vec::new();
    let mut here = hash(&sentry_key());
    while here != LAST_HASH {
        let positions = updater.indexer.get_values(0, &here);
        assert_eq!(positions.len(), 1);
        assert_eq!(updater.read_entry(0, positions[0]), Ok(()));
        let bz = EntryBz {
            bz: &updater.read_entry_buf,
        };
        assert_eq!(bz.key_hash(), here);
        if keys.contains(&bz.key()) {
            found.push(bz.key().to_vec());
        }
        let mut next = [0u8; 32];
        next.copy_from_slice(bz.next_key_hash());
        assert!(here < next);
        here = next;
    }
    found
}

#[test]
fn test_run_task() {
    let mut updater = updater_with_sentry();
    let task_id = 5 << 24;
    updater.task_hub.add_task(
        task_id,
        task_of(
            vec![
                vec![
                    op_of(OP_CREATE, b"a", b"1"),
                    op_of(OP_CREATE, b"b", b"2"),
                    op_of(OP_CREATE, b"c", b"3"),
                ],
                vec![
                    op_of(OP_WRITE, b"b", b"22"),
                    op_of(OP_DELETE, b"a", b""),
                    op_of(OP_READ, b"c", b""),
                ],
            ],
            true,
        ),
    );
    assert_eq!(updater.run_task(task_id), Ok(()));
    assert_eq!(lookup(&mut updater, b"a"), None);
    assert_eq!(lookup(&mut updater, b"b"), Some(b"22".to_vec()));
    assert_eq!(lookup(&mut updater, b"c"), Some(b"3".to_vec()));
    assert_eq!(updater.indexer.len(), 3);
    assert_eq!(updater.curr_version, task_id + 2);
    assert_eq!(updater.sn_end, 1 + 6 + 1 + 1);
    assert_eq!(updater.update_buffer.block_count(), 1);
    assert_eq!(
        updater.update_buffer.block(0),
        EndBlock {
            compact_done_pos: 0,
            sn_start: 0,
            sn_end: 9,
        }
    );
    assert!(updater.progress.task.is_none());
}

#[test]
fn entries_stay_one_list_in_the_order_of_hashes() {
    let mut updater = updater_with_sentry();
    let keys: [&[u8]; 5] = [b"one", b"two", b"three", b"four", b"five"];
    let mut sorted: Vec<&[u8]> = keys.to_vec();
    sorted.sort_by_key(|key| hash(key));
    for key in keys {
        assert_eq!(updater.create_kv(&hash(key), key, b"v", None), Ok(()));
        assert_eq!(
            updater.create_kv(&hash(key), key, b"v", None),
            Err(UpdateError::PrevKeyNotFound)
        );
    }
    assert_eq!(walk(&mut updater, &keys), sorted);
    let gone = sorted.remove(2);
    assert_eq!(updater.delete_kv(&hash(gone), gone, None), Ok(()));
    assert_eq!(walk(&mut updater, &keys), sorted);
    assert_eq!(
        updater.delete_kv(&hash(gone), gone, None),
        Err(UpdateError::DeleteNonExistKey)
    );
    assert_eq!(updater.write_kv(&hash(sorted[0]), sorted[0], b"w", None), Ok(()));
    assert_eq!(walk(&mut updater, &keys), sorted);
    assert_eq!(updater.create_kv(&hash(gone), gone, b"again", None), Ok(()));
    assert_eq!(updater.delete_kv(&hash(gone), gone, None), Ok(()));
    assert_eq!(walk(&mut updater, &keys), sorted);
    assert_eq!(lookup(&mut updater, sorted[0]), Some(b"w".to_vec()));
    let first = sentry_key();
    assert_eq!(
        updater.delete_kv(&hash(&first), &first, None),
        Err(UpdateError::PrevEntryNotFound)
    );
}

#[test]
fn operations_of_other_shards_are_passed_over() {
    let mut updater = updater_with_sentry();
    let mut other = op_of(OP_CREATE, b"a", b"1");
    other.shard_id = 3;
    let mut odd = op_of(99, b"a", b"1");
    odd.shard_id = 3;
    updater
        .task_hub
        .add_task(1, task_of(vec![vec![other, odd]], false));
    assert_eq!(updater.run_task(1), Ok(()));
    assert_eq!(updater.indexer.len(), 1);
    assert_eq!(updater.curr_version, 1);
    assert_eq!(updater.update_buffer.block_count(), 0);
}

#[test]
fn a_task_brings_its_cache() {
    let mut updater = new_updater();
    let key = sentry_key();
    let bz = entry_bytes(&key, b"cached");
    let mut cache = EntryCache::new_uninit();
    cache.insert(0, 4096, &EntryBz { bz: &bz });
    updater.indexer.add_kv(&hash(&key), 4096, 0);
    let mut task = task_of(vec![vec![op_of(OP_WRITE, &key, b"new")]], false);
    task.cache = Some(Arc::new(cache));
    updater.task_hub.add_task(2, task);
    assert_eq!(updater.run_task(2), Ok(()));
    assert_eq!(lookup(&mut updater, &key), Some(b"new".to_vec()));
    assert!(updater.cache.lookup(0, 4096).is_some());
}

#[test]
fn bad_tasks_are_refused() {
    let mut updater = updater_with_sentry();
    assert_eq!(updater.run_task(7), Err(UpdateError::UnknownTask));
    updater
        .task_hub
        .add_task(7, task_of(vec![vec![op_of(99, b"a", b"1")]], false));
    updater.task_hub.add_task(8, task_of(vec![], false));
    assert_eq!(updater.run_task(7), Err(UpdateError::UnsupportedOperation));
    assert_eq!(updater.run_task(8), Err(UpdateError::OtherTaskRunning));
    assert_eq!(updater.indexer.len(), 1);
    assert_eq!(updater.sn_end, 1);
}

#[test]
fn the_version_has_a_limit() {
    let mut updater = updater_with_sentry();
    updater.curr_version = i64::MAX;
    updater.task_hub.add_task(1, task_of(vec![vec![]], false));
    updater.task_hub.add_task(2, task_of(vec![], false));
    assert_eq!(updater.run_task(1), Err(UpdateError::VersionOverflow));
    assert_eq!(updater.curr_version, i64::MAX);
}

#[test]
fn records_are_checked_when_asked_for() {
    let mut updater = updater_with_sentry();
    let mut op = op_of(OP_READ, b"a", b"");
    let mut record = OpRecord::new(OP_READ);
    record.num_active = 2;
    op.record = Some(record);
    updater.task_hub.add_task(1, task_of(vec![vec![op]], false));
    assert_eq!(updater.run_task(1), Ok(()));

    let mut updater = updater_with_sentry();
    updater.check_rec = true;
    let mut op = op_of(OP_READ, b"a", b"");
    let mut record = OpRecord::new(OP_READ);
    record.num_active = 2;
    op.record = Some(record);
    updater.task_hub.add_task(1, task_of(vec![vec![op]], false));
    assert_eq!(updater.run_task(1), Err(UpdateError::IncorrectNumActive));

    let mut updater = updater_with_sentry();
    updater.check_rec = true;
    let mut op = op_of(OP_READ, b"a", b"");
    let mut record = OpRecord::new(OP_READ);
    record.num_active = 1;
    record.oldest_active_sn = 9;
    op.record = Some(record);
    updater.task_hub.add_task(1, task_of(vec![vec![op]], false));
    assert_eq!(updater.run_task(1), Err(UpdateError::IncorrectSnStart));
}

#[test]
fn a_true_record_of_a_creation_is_accepted() {
    let mut updater = updater_with_sentry();
    updater.check_rec = true;
    let sentry = sentry_key();
    let before = entry_bytes(&sentry, b"");
    let new_entry = Entry {
        key: b"a",
        value: b"1",
        next_key_hash: &LAST_HASH,
        version: 0,
        serial_number: 1,
    };
    let key_hash = hash(b"a");
    let changed = Entry {
        key: &sentry,
        value: b"",
        next_key_hash: &key_hash,
        version: 0,
        serial_number: 2,
    };
    let mut record = OpRecord::new(OP_CREATE);
    record.num_active = 1;
    record.rd_list.push(before.clone());
    record.wr_list.push(changed.dump(&[0]));
    record.wr_list.push(new_entry.dump(&[0]));
    assert_eq!(
        updater.create_kv(&key_hash, b"a", b"1", Some(&record)),
        Err(UpdateError::CompareNewEntry)
    );
    record.wr_list[0] = changed.dump(&[]);
    record.wr_list[1] = new_entry.dump(&[]);
    assert_eq!(
        updater.create_kv(&key_hash, b"a", b"1", Some(&record)),
        Err(UpdateError::ComparePrevChanged)
    );
    record.wr_list[0] = changed.dump(&[0]);
    record.rd_list[0] = changed.dump(&[0]);
    assert_eq!(
        updater.create_kv(&key_hash, b"a", b"1", Some(&record)),
        Err(UpdateError::ComparePrevEntry)
    );
    assert_eq!(updater.sn_end, 1);
    record.rd_list[0] = before;
    assert_eq!(
        updater.create_kv(&key_hash, b"a", b"1", Some(&record)),
        Ok(())
    );
    let mut record = OpRecord::new(OP_DELETE);
    record.rd_list.push(changed.dump(&[0]));
    record.rd_list.push(changed.dump(&[0]));
    assert_eq!(
        updater.delete_kv(&key_hash, b"a", Some(&record)),
        Err(UpdateError::CompareOldEntry)
    );
}

/// Two keys, of which the first can be compacted after each write.
fn compacting_updater() -> (Updater, Vec<CompactJob>) {
    let mut updater = updater_with_sentry();
    assert_eq!(updater.create_kv(&hash(b"a"), b"a", b"1", None), Ok(()));
    assert_eq!(updater.create_kv(&hash(b"b"), b"b", b"2", None), Ok(()));
    let mut jobs = Vec::new();
    let sentry = sentry_key();
    for key in [&sentry[..], b"a", b"b"] {
        let pos = updater.indexer.get_values(0, &hash(key))[0];
        assert_eq!(updater.read_entry(0, pos), Ok(()));
        jobs.push(CompactJob {
            old_pos: pos,
            entry_bz: updater.read_entry_buf.clone(),
        });
    }
    updater.compact_thres = 0;
    updater.utilization_div = 1;
    updater.utilization_ratio = 1;
    let task = task_of(
        vec![
            vec![
                op_of(OP_WRITE, b"a", b"11"),
                op_of(OP_CREATE, b"c", b"3"),
                op_of(OP_DELETE, b"b", b""),
            ],
            vec![op_of(OP_CREATE, b"b", b"222")],
        ],
        true,
    );
    updater.task_hub.add_task(16, task);
    (updater, jobs)
}

#[test]
fn a_task_goes_on_when_jobs_come_late() {
    let (mut early, jobs) = compacting_updater();
    for job in jobs {
        early.compact_consumer.produce(job);
    }
    let first = early.run_task(16);

    let (mut late, jobs) = compacting_updater();
    let mut last = late.run_task(16);
    assert_eq!(last, Err(UpdateError::CompactJobsExhausted));
    assert_eq!(late.progress.task, Some(16));
    assert_eq!(lookup(&mut late, b"a"), Some(b"11".to_vec()));
    for job in jobs {
        late.compact_consumer.produce(job);
        last = late.run_task(16);
    }
    assert_eq!(last, first);
    assert_eq!(late.sn_end, early.sn_end);
    assert_eq!(late.sn_start, early.sn_start);
    assert_eq!(late.compact_done_pos, early.compact_done_pos);
    assert_eq!(late.indexer.len(), early.indexer.len());
    assert_eq!(late.curr_version, early.curr_version);
    assert_eq!(late.progress.set_idx, early.progress.set_idx);
    assert_eq!(late.progress.op_idx, early.progress.op_idx);
    let keys: [&[u8]; 3] = [b"a", b"b", b"c"];
    assert_eq!(walk(&mut late, &keys), walk(&mut early, &keys));
    for key in keys {
        assert_eq!(
            late.indexer.get_values(0, &hash(key)),
            early.indexer.get_values(0, &hash(key))
        );
    }
    loop {
        let a = late.compact_consumer.receive_returned();
        let b = early.compact_consumer.receive_returned();
        match (a, b) {
            (Some(a), Some(b)) => {
                assert_eq!(a.old_pos, b.old_pos);
                assert_eq!(a.entry_bz, b.entry_bz);
            }
            (None, None) => break,
            _ => panic!("the jobs sent back differ"),
        }
    }
}

#[test]
fn compaction_keeps_keys_and_values() {
    let (mut updater, jobs) = compacting_updater();
    for job in jobs {
        updater.compact_consumer.produce(job);
    }
    let sn_end = updater.sn_end;
    assert_eq!(updater.compact(None, 0), Ok(()));
    assert_eq!(updater.compact(None, 1), Ok(()));
    assert_eq!(updater.sn_end, sn_end + 2);
    assert_eq!(updater.indexer.len(), 3);
    assert_eq!(lookup(&mut updater, b"a"), Some(b"1".to_vec()));
    assert_eq!(lookup(&mut updater, b"b"), Some(b"2".to_vec()));
    let keys: [&[u8]; 2] = [b"a", b"b"];
    assert_eq!(walk(&mut updater, &keys).len(), 2);
}

#[test]
fn tasks_run_in_turn_however_they_are_delivered() {
    let orders = [[0usize, 1, 2], [2, 1, 0], [1, 2, 0], [2, 0, 1]];
    let deliveries = [(0i64, 10i64), (10, 5), (5, 77)];
    let mut ends = Vec::new();
    for order in orders {
        let mut updater = updater_with_sentry();
        updater
            .task_hub
            .add_task(0, task_of(vec![vec![op_of(OP_CREATE, b"a", b"1")]], false));
        updater
            .task_hub
            .add_task(10, task_of(vec![vec![op_of(OP_WRITE, b"a", b"2")]], true));
        updater
            .task_hub
            .add_task(5, task_of(vec![vec![op_of(OP_WRITE, b"a", b"3")]], false));
        for i in order {
            let (task_id, next) = deliveries[i];
            assert_eq!(updater.run_task_with_ooo_id(task_id, next), Ok(()));
        }
        assert_eq!(updater.next_task_id, 77);
        assert!(updater.next_task_id_map.is_empty());
        assert_eq!(lookup(&mut updater, b"a"), Some(b"3".to_vec()));
        assert_eq!(updater.update_buffer.block(0).sn_end, 4);
        ends.push((updater.sn_end, updater.curr_version));
    }
    assert_eq!(ends, vec![(5, 3); 4]);
}

#[test]
fn delivered_tasks_wait_for_their_turn() {
    let mut updater = updater_with_sentry();
    updater
        .task_hub
        .add_task(1, task_of(vec![vec![op_of(OP_CREATE, b"a", b"1")]], false));
    assert_eq!(updater.run_task_with_ooo_id(1, 2), Ok(()));
    assert_eq!(updater.indexer.len(), 1);
    assert_eq!(updater.next_task_id, 0);
    assert_eq!(
        updater.run_task_with_ooo_id(0, 1),
        Err(UpdateError::UnknownTask)
    );
    updater.task_hub.add_task(0, task_of(vec![], false));
    assert_eq!(updater.run_ready_tasks(), Ok(()));
    assert_eq!(updater.next_task_id, 2);
    assert_eq!(updater.indexer.len(), 2);
}

/// The entries of the log from `pos` on.
fn log_from(updater: &mut Updater, pos: i64) -> Vec<Vec<u8>> {
    let mut log = Vec::new();
    let mut pos = pos;
    while updater.read_entry(0, pos) == Ok(()) {
        pos += updater.read_entry_buf.len() as i64;
        log.push(updater.read_entry_buf.clone());
    }
    log
}

#[test]
fn a_task_numbers_the_entries_that_it_appends() {
    let (mut updater, _) = compacting_updater();
    updater.compact_thres = 4;
    let before = log_from(&mut updater, 0).len();
    let sn_end = updater.sn_end;
    let count = updater.indexer.len();
    assert_eq!(before as u64, sn_end);
    let mut res = updater.run_task(16);
    while res == Err(UpdateError::CompactJobsExhausted) {
        let old_pos = updater.indexer.get_values(0, &hash(b"a"))[0];
        assert_eq!(updater.read_entry(0, old_pos), Ok(()));
        let entry_bz = updater.read_entry_buf.clone();
        updater
            .compact_consumer
            .produce(CompactJob { old_pos, entry_bz });
        res = updater.run_task(16);
    }
    assert_eq!(res, Ok(()));
    let log = log_from(&mut updater, 0).split_off(before);
    let mut dsn_total = 0;
    for (i, bz) in log.iter().enumerate() {
        let entry = EntryBz { bz };
        assert_eq!(entry.serial_number(), sn_end + i as u64);
        dsn_total += bz[4] as usize;
    }
    assert_eq!(updater.sn_end, sn_end + log.len() as u64);
    assert_eq!(updater.indexer.len(), count + log.len() - dsn_total);
    assert_eq!(log.len(), 1 + (2 + 2) + 1 + (2 + 2));
}

#[test]
fn creating_and_deleting_restores_the_links() {
    let mut updater = updater_with_sentry();
    for key in [b"one", b"two"] {
        assert_eq!(updater.create_kv(&hash(key), key, b"v", None), Ok(()));
    }
    let keys: [&[u8]; 3] = [b"one", b"two", b"new"];
    let links = |updater: &mut Updater| {
        let mut found = Vec::new();
        for key in [&sentry_key()[..], b"one", b"two", b"new"] {
            for pos in updater.indexer.get_values(0, &hash(key)) {
                assert_eq!(updater.read_entry(0, pos), Ok(()));
                let bz = EntryBz {
                    bz: &updater.read_entry_buf,
                };
                found.push((bz.key().to_vec(), bz.next_key_hash().to_vec()));
            }
        }
        found
    };
    let before = links(&mut updater);
    let sn_end = updater.sn_end;
    assert_eq!(updater.create_kv(&hash(b"new"), b"new", b"v", None), Ok(()));
    let between = links(&mut updater);
    assert_eq!(between.len(), before.len() + 1);
    let changed = before.iter().filter(|link| !between.contains(link)).count();
    assert_eq!(changed, 1);
    assert_eq!(walk(&mut updater, &keys).len(), 3);
    assert_eq!(updater.delete_kv(&hash(b"new"), b"new", None), Ok(()));
    assert_eq!(links(&mut updater), before);
    assert_eq!(updater.sn_end, sn_end + 3);
}

#[test]
fn a_delivery_before_its_turn_changes_the_waiting_tasks_only() {
    let mut updater = updater_with_sentry();
    assert_eq!(updater.read_entry(0, 0), Ok(()));
    let buf = updater.read_entry_buf.clone();
    let (sn_end, version) = (updater.sn_end, updater.curr_version);
    assert_eq!(updater.run_task_with_ooo_id(3, 4), Ok(()));
    assert_eq!(updater.run_task_with_ooo_id(3, 5), Ok(()));
    assert_eq!(updater.next_task_id_map.len(), 1);
    assert_eq!(updater.next_task_id_map.get(&3), Some(&5));
    assert_eq!(updater.next_task_id, 0);
    assert_eq!(updater.read_entry_buf, buf);
    assert_eq!((updater.sn_end, updater.curr_version), (sn_end, version));
    assert_eq!(updater.indexer.len(), 1);
}

#[test]
fn a_block_counts_its_change_sets() {
    let mut updater = updater_with_sentry();
    let block = 7 << 24;
    let first = task_of(
        vec![
            vec![op_of(OP_CREATE, b"a", b"1")],
            vec![],
            vec![op_of(OP_CREATE, b"b", b"2"), op_of(OP_WRITE, b"a", b"3")],
        ],
        false,
    );
    let second = task_of(vec![vec![op_of(OP_WRITE, b"b", b"4")], vec![]], true);
    updater.task_hub.add_task(block, first);
    updater.task_hub.add_task(block + 1, second);
    updater.curr_version = 99;
    let start = log_from(&mut updater, 0).len();
    assert_eq!(updater.run_task(block), Ok(()));
    assert_eq!(updater.curr_version, block + 3);
    assert_eq!(updater.run_task(block + 1), Ok(()));
    assert_eq!(updater.curr_version, block + 5);
    let log = log_from(&mut updater, 0).split_off(start);
    let mut versions = Vec::new();
    for bz in &log {
        versions.push(EntryBz { bz }.version() - block);
    }
    assert_eq!(versions, vec![0, 0, 2, 2, 2, 3]);
}

#[test]
fn a_key_is_created_once_even_with_compactions() {
    let (mut updater, jobs) = compacting_updater();
    for job in jobs {
        updater.compact_consumer.produce(job);
    }
    let len = updater.indexer.len();
    let sn_end = updater.sn_end;
    assert_eq!(updater.create_kv(&hash(b"new"), b"new", b"1", None), Ok(()));
    assert_eq!(updater.sn_end, sn_end + 4);
    assert_eq!(updater.indexer.len(), len + 1);
    let keys: [&[u8]; 3] = [b"a", b"b", b"new"];
    let list = walk(&mut updater, &keys);
    assert_eq!(list.len(), 3);
    let log = log_from(&mut updater, 0);
    assert_eq!(
        updater.create_kv(&hash(b"new"), b"new", b"2", None),
        Err(UpdateError::PrevKeyNotFound)
    );
    assert_eq!(updater.sn_end, sn_end + 4);
    assert_eq!(updater.indexer.len(), len + 1);
    assert_eq!(log_from(&mut updater, 0), log);
    assert_eq!(walk(&mut updater, &keys), list);
}

#[test]
fn a_second_write_replaces_the_first() {
    let mut updater = updater_with_sentry();
    let key_hash = hash(b"k");
    assert_eq!(updater.create_kv(&key_hash, b"k", b"0", None), Ok(()));
    assert_eq!(updater.write_kv(&key_hash, b"k", b"1", None), Ok(()));
    let p1 = updater.indexer.get_values(0, &key_hash);
    assert_eq!(updater.read_entry(0, p1[0]), Ok(()));
    let first = updater.read_entry_buf.clone();
    assert_eq!(updater.write_kv(&key_hash, b"k", b"2", None), Ok(()));
    let p2 = updater.indexer.get_values(0, &key_hash);
    assert_eq!(p2, vec![p1[0] + first.len() as i64]);
    assert_eq!(updater.read_entry(0, p2[0]), Ok(()));
    let first = EntryBz { bz: &first };
    let expected = Entry {
        key: b"k",
        value: b"2",
        next_key_hash: first.next_key_hash(),
        version: first.version(),
        serial_number: first.serial_number() + 1,
    };
    assert_eq!(updater.read_entry_buf, expected.dump(&[first.serial_number()]));
    assert_eq!(updater.indexer.len(), 2);
}
