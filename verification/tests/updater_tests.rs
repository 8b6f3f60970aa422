use std::sync::Arc;

use qmdb::buffer::EntryBufferWriter;
use qmdb::cache::EntryCache;
use qmdb::compactor::{CompactJob, Consumer};
use qmdb::entry::{Entry, EntryBz};
use qmdb::error::UpdateError;
use qmdb::file::EntryFile;
use qmdb::indexer::Indexer;
use qmdb::tasks::{OpRecord, TaskHub};
use qmdb::updater::{Updater, _compare_active_info};

fn new_updater() -> Updater {
    Updater::new(
        0,
        TaskHub::new(),
        EntryBufferWriter::new(8),
        EntryFile::new(Vec::new()),
        Indexer::new(),
        0,
        0,
        0,
        Consumer::new(),
        0,
        10,
        7,
        8,
        0,
        false,
    )
}

fn new_test_entry<'a>() -> Entry<'a> {
    Entry {
        key: "key".as_bytes(),
        value: "value".as_bytes(),
        next_key_hash: &[0xab; 32],
        version: 12345,
        serial_number: 99999,
    }
}

fn to_k80(v: u64) -> [u8; 10] {
    let mut k80 = [0u8; 10];
    k80[..8].copy_from_slice(&v.to_be_bytes());
    k80
}

fn append_and_flush_entry_to_file(file: &mut EntryFile, entry: &Entry, dsn_list: &[u64]) -> i64 {
    let mut entry_bz = entry.dump(dsn_list);
    entry_bz.resize(512, 0);
    file.append(&entry_bz).unwrap()
}

fn put_entry_in_cache(updater: &mut Updater, file_pos: i64, entry: &Entry, dsn_list: &[u64]) {
    let mut cache = EntryCache::new_uninit();
    let bz = entry.dump(dsn_list);
    cache.insert(updater.shard_id, file_pos, &EntryBz { bz: &bz });
    updater.cache = Arc::new(cache);
}

#[test]
fn test_read_entry_cache_hit() {
    let mut updater = new_updater();

    let entry = new_test_entry();
    let dsn_list = [1, 2, 3, 4];
    put_entry_in_cache(&mut updater, 123, &entry, &dsn_list);

    assert_eq!(updater.read_entry(updater.shard_id, 123), Ok(()));
    assert_eq!(
        "03050000046b657976616c7565ababababababab",
        hex::encode(&updater.read_entry_buf[0..20])
    );
}

#[test]
fn test_read_entry_from_buffer() {
    let mut updater = new_updater();
    let entry = new_test_entry();
    let dsn_list = [1, 2, 3, 4];
    let pos = updater.update_buffer.append(&entry, &dsn_list);

    assert_eq!(updater.read_entry(7, pos), Ok(()));
    assert_eq!(
        "03050000046b657976616c7565ababababababab",
        hex::encode(&updater.read_entry_buf[0..20])
    );
}

#[test]
fn test_read_entry_from_file() {
    let mut updater = new_updater();
    let entry = new_test_entry();
    let dsn_list = [1, 2, 3, 4];
    let pos = append_and_flush_entry_to_file(&mut updater.entry_file, &entry, &dsn_list);

    assert_eq!(updater.read_entry(7, pos), Ok(()));
    assert_eq!(
        "03050000046b657976616c7565ababababababab",
        hex::encode(&updater.read_entry_buf[0..20])
    );
}

#[test]
fn test_compare_active_info1() {
    let updater = new_updater();
    let mut op = OpRecord::new(0);
    op.num_active = 123;
    assert_eq!(
        _compare_active_info(&updater, Some(&op)),
        Err(UpdateError::IncorrectNumActive)
    );
    assert_eq!(
        UpdateError::IncorrectNumActive.message(0, &[], &[]),
        "incorrect num_active"
    );
}

#[test]
fn test_compare_active_info2() {
    let updater = new_updater();
    let mut op = OpRecord::new(0);
    op.oldest_active_sn = 123;
    assert_eq!(
        _compare_active_info(&updater, Some(&op)),
        Err(UpdateError::IncorrectSnStart)
    );
    assert_eq!(
        UpdateError::IncorrectSnStart.message(0, &[], &[]),
        "incorrect sn_start"
    );
}

#[test]
fn test_create_kv_non_exist_key() {
    let mut updater = new_updater();
    let res = updater.create_kv(&[5u8; 32], "key".as_bytes(), "value".as_bytes(), None);
    assert_eq!(res, Err(UpdateError::PrevKeyNotFound));
    assert_eq!(
        res.unwrap_err()
            .message(updater.shard_id, "key".as_bytes(), &[5u8; 32]),
        "Cannot find prevKey when creating shard_id=0 key=[107, 101, 121]"
    );
}

#[test]
fn test_create_kv() {
    let mut updater = new_updater();

    let entry = new_test_entry();
    let dsn_list = [];
    let pos = append_and_flush_entry_to_file(&mut updater.entry_file, &entry, &dsn_list);

    updater
        .indexer
        .add_kv(&to_k80(0x7777_0000_0000_0000), pos, 0);
    assert_eq!(1, updater.indexer.len());
    assert_eq!(0, updater.sn_end);

    let res = updater.create_kv(&[0x77u8; 32], "key".as_bytes(), "value".as_bytes(), None);
    assert_eq!(res, Ok(()));

    assert_eq!(2, updater.indexer.len());
    assert_eq!(2, updater.sn_end);
}

#[test]
fn test_write_kv_non_exist_key() {
    let mut updater = new_updater();
    let res = updater.create_kv(&[5u8; 32], "key".as_bytes(), "value".as_bytes(), None);
    assert_eq!(res, Err(UpdateError::PrevKeyNotFound));
    assert_eq!(
        res.unwrap_err()
            .message(updater.shard_id, "key".as_bytes(), &[5u8; 32]),
        "Cannot find prevKey when creating shard_id=0 key=[107, 101, 121]"
    );
}

#[test]
fn test_write_kv() {
    let mut updater = new_updater();
    let entry = new_test_entry();
    let dsn_list = [];
    let pos = append_and_flush_entry_to_file(&mut updater.entry_file, &entry, &dsn_list);

    updater
        .indexer
        .add_kv(&to_k80(0x7777_0000_0000_0000), pos, 0);
    let res = updater.create_kv(&[0x77u8; 32], "key".as_bytes(), "value".as_bytes(), None);
    assert_eq!(res, Ok(()));
    assert_eq!(2, updater.indexer.len());
    assert_eq!(2, updater.sn_end);

    let res = updater.write_kv(&[0x77u8; 32], "key".as_bytes(), "val2".as_bytes(), None);
    assert_eq!(res, Ok(()));
    assert_eq!(2, updater.indexer.len());
    assert_eq!(3, updater.sn_end);
}

#[test]
fn test_delete_kv_non_exist_key() {
    let mut updater = new_updater();
    let res = updater.delete_kv(&[3u8; 32], "key".as_bytes(), None);
    assert_eq!(res, Err(UpdateError::DeleteNonExistKey));
    assert_eq!(
        res.unwrap_err()
            .message(updater.shard_id, "key".as_bytes(), &[3u8; 32]),
        "Delete non-exist key at id=-1 key=[107, 101, 121]"
    );
}

#[test]
fn test_delete_kv_no_prev_entry() {
    let mut updater = new_updater();

    let entry = new_test_entry();
    let dsn_list = [];
    let pos = append_and_flush_entry_to_file(&mut updater.entry_file, &entry, &dsn_list);
    updater
        .indexer
        .add_kv(&to_k80(0x7777_7777_7777_7777), pos, 0);

    let res = updater.delete_kv(&[0x77u8; 32], "key".as_bytes(), None);
    assert_eq!(res, Err(UpdateError::PrevEntryNotFound));
    assert_eq!(
        res.unwrap_err()
            .message(updater.shard_id, "key".as_bytes(), &[0x77u8; 32]),
        "Cannot find prevEntry"
    );
}

#[test]
fn test_delete_kv() {
    let mut updater = new_updater();
    let entry = new_test_entry();
    let dsn_list = [];
    let pos1 = append_and_flush_entry_to_file(&mut updater.entry_file, &entry, &dsn_list);
    updater
        .indexer
        .add_kv(&to_k80(0x7777_2000_0000_0000), pos1, 0);
    let res = updater.create_kv(&[0x77u8; 32], "key".as_bytes(), "value".as_bytes(), None);
    assert_eq!(res, Ok(()));
    assert_eq!(2, updater.indexer.len());
    assert_eq!(2, updater.sn_end);

    let entry2 = Entry {
        key: "key2".as_bytes(),
        value: "val2".as_bytes(),
        next_key_hash: &[0x77u8; 32],
        version: 12345,
        serial_number: 100000,
    };
    let pos2 = append_and_flush_entry_to_file(&mut updater.entry_file, &entry2, &dsn_list);
    put_entry_in_cache(&mut updater, pos2, &entry2, &dsn_list);
    updater
        .indexer
        .add_kv(&to_k80(0x7777_3000_0000_0000), pos2, 0);
    assert_eq!(3, updater.indexer.len());
    assert_eq!(2, updater.sn_end);

    let res = updater.delete_kv(&[0x77u8; 32], "key".as_bytes(), None);
    assert_eq!(res, Ok(()));
    assert_eq!(2, updater.indexer.len());
    assert_eq!(3, updater.sn_end);
}

#[test]
fn test_is_compactible() {
    let mut updater = new_updater();
    updater.sn_start = 0;
    updater.sn_end = 20;
    updater.compact_thres = 10;

    for i in 0..20 {
        updater.indexer.add_kv(&to_k80(i), (i * 8) as i64, 0);
        assert_eq!(8 < i && i < 14, updater.is_compactible());
    }

    updater.sn_end = 40;
    assert!(updater.is_compactible());

    updater.compact_thres = 41;
    assert!(!updater.is_compactible());
}

#[test]
fn test_try_compact() {
    let mut updater = new_updater();
    let entry = new_test_entry();
    let dsn_list = [0u64; 0];
    let mut entry_buf = entry.dump(&dsn_list);
    entry_buf.resize(500, 0);
    let pos = append_and_flush_entry_to_file(&mut updater.entry_file, &entry, &dsn_list);
    let kh = EntryBz { bz: &entry_buf }.key_hash();
    updater.indexer.add_kv(&kh[..], pos, 0);
    updater.sn_end = 10;
    updater.compact_thres = 0;
    updater.utilization_ratio = 1;
    assert!(updater.is_compactible());
    assert_eq!(1, updater.indexer.len());
    assert_eq!(10, updater.sn_end);

    updater.compact_consumer.produce(CompactJob {
        old_pos: 0,
        entry_bz: entry_buf,
    });

    assert_eq!(updater.compact(None, 0), Ok(()));
    assert_eq!(1, updater.indexer.len());
    assert_eq!(11, updater.sn_end);
}

#[test]
fn a_missed_read_leaves_an_error() {
    let mut updater = new_updater();
    assert_eq!(updater.read_entry(0, 8), Err(UpdateError::CannotReadEntry));
    assert_eq!(updater.read_entry(0, 0), Err(UpdateError::CannotReadEntry));
    assert_eq!(updater.read_entry(0, -8), Err(UpdateError::CannotReadEntry));
}

#[test]
fn the_cache_is_read_for_its_own_shard_only() {
    let mut updater = new_updater();
    let entry = new_test_entry();
    put_entry_in_cache(&mut updater, 123, &entry, &[]);
    assert_eq!(updater.read_entry(0, 123), Ok(()));
    assert_eq!(updater.read_entry_buf, entry.dump(&[]));
    assert_eq!(updater.read_entry(1, 123), Err(UpdateError::CannotReadEntry));
}

#[test]
fn entries_are_read_as_they_were_appended() {
    let mut updater = new_updater();
    let entry = new_test_entry();
    let long = vec![7u8; 1000];
    let big = Entry {
        value: &long,
        ..new_test_entry()
    };
    let p1 = updater.update_buffer.append(&entry, &[1, 2, 3, 4]);
    let p2 = updater.update_buffer.append(&big, &[]);
    let p3 = updater.update_buffer.append(&entry, &[5]);
    assert_eq!(p1, 8);
    assert_eq!(p2, 8 + 64 + 32);
    assert_eq!(updater.read_entry(0, p1), Ok(()));
    assert_eq!(updater.read_entry_buf, entry.dump(&[1, 2, 3, 4]));
    assert_eq!(updater.read_entry(0, p2), Ok(()));
    assert_eq!(updater.read_entry_buf, big.dump(&[]));
    assert_eq!(updater.read_entry(0, p3), Ok(()));
    assert_eq!(updater.read_entry_buf, entry.dump(&[5]));
}

#[test]
fn the_file_is_read_up_to_the_default_size() {
    let value = vec![7u8; 233];
    let fits = Entry {
        value: &value,
        ..new_test_entry()
    };
    let bz = fits.dump(&[]);
    assert_eq!(bz.len(), 296);
    let long_value = vec![7u8; 300];
    let long = Entry {
        value: &long_value,
        ..new_test_entry()
    };
    let long_bz = long.dump(&[]);
    assert_eq!(long_bz.len(), 360);

    let mut file = EntryFile::new(Vec::new());
    let p1 = file.append(&bz).unwrap();
    let p2 = file.append(&long_bz).unwrap();
    let mut updater = new_updater();
    updater.update_buffer = EntryBufferWriter::new(4096);
    updater.entry_file = file;
    assert_eq!(updater.read_entry(0, p1), Ok(()));
    assert_eq!(updater.read_entry_buf, bz);
    assert_eq!(updater.read_entry(0, p2), Ok(()));
    assert_eq!(updater.read_entry_buf.len(), 360);
    assert_eq!(updater.read_entry_buf[..300], long_bz[..300]);
    assert_eq!(updater.read_entry_buf[300..], vec![0u8; 60][..]);
}

#[test]
fn creating_links_the_new_entry_in() {
    let mut updater = new_updater();
    let entry = new_test_entry();
    let pos = append_and_flush_entry_to_file(&mut updater.entry_file, &entry, &[]);
    updater
        .indexer
        .add_kv(&to_k80(0x7777_0000_0000_0000), pos, 0);
    updater.curr_version = 77;
    let key_hash = [0x77u8; 32];
    assert_eq!(updater.create_kv(&key_hash, b"new", b"fresh", None), Ok(()));

    let created = updater.indexer.get_values(0, &key_hash);
    assert_eq!(created, vec![8]);
    assert_eq!(updater.read_entry(0, 8), Ok(()));
    let expected = Entry {
        key: b"new",
        value: b"fresh",
        next_key_hash: &[0xab; 32],
        version: 77,
        serial_number: 0,
    };
    assert_eq!(updater.read_entry_buf, expected.dump(&[]));

    let changed = updater.indexer.get_values(0, &to_k80(0x7777_0000_0000_0000));
    assert_eq!(changed, vec![8 + 64]);
    assert_eq!(updater.read_entry(0, 8 + 64), Ok(()));
    let expected = Entry {
        next_key_hash: &key_hash,
        version: 77,
        serial_number: 1,
        ..new_test_entry()
    };
    assert_eq!(updater.read_entry_buf, expected.dump(&[99999]));
}

#[test]
fn writing_deactivates_the_old_entry() {
    let mut updater = new_updater();
    let pos = append_and_flush_entry_to_file(&mut updater.entry_file, &new_test_entry(), &[]);
    let key_hash = [0x11u8; 32];
    updater.indexer.add_kv(&key_hash, pos, 0);
    updater.sn_end = 5;
    updater.curr_version = 3;
    assert_eq!(updater.write_kv(&key_hash, b"key", b"other", None), Ok(()));
    assert_eq!(updater.indexer.get_values(0, &key_hash), vec![8]);
    assert_eq!(updater.sn_end, 6);
    assert_eq!(updater.read_entry(0, 8), Ok(()));
    let expected = Entry {
        value: b"other",
        version: 3,
        serial_number: 5,
        ..new_test_entry()
    };
    assert_eq!(updater.read_entry_buf, expected.dump(&[99999]));
}

#[test]
fn deleting_links_the_entries_around() {
    let mut updater = new_updater();
    let key_hash = [0x77u8; 32];
    let prev = Entry {
        next_key_hash: &key_hash,
        serial_number: 31,
        ..new_test_entry()
    };
    let gone = Entry {
        key: b"gone",
        value: b"soon",
        next_key_hash: &[0xcd; 32],
        version: 1,
        serial_number: 32,
    };
    let p1 = updater.update_buffer.append(&prev, &[]);
    let p2 = updater.update_buffer.append(&gone, &[]);
    updater.indexer.add_kv(&[0x70; 32], p1, 31);
    updater.indexer.add_kv(&key_hash, p2, 32);
    updater.sn_end = 40;
    updater.curr_version = 9;
    assert_eq!(updater.delete_kv(&key_hash, b"gone", None), Ok(()));
    assert_eq!(updater.indexer.get_values(0, &key_hash), Vec::<i64>::new());
    let places = updater.indexer.get_values(0, &[0x70; 32]);
    assert_eq!(places.len(), 1);
    assert_eq!(updater.read_entry(0, places[0]), Ok(()));
    let expected = Entry {
        next_key_hash: &[0xcd; 32],
        version: 9,
        serial_number: 40,
        ..new_test_entry()
    };
    assert_eq!(updater.read_entry_buf, expected.dump(&[32, 31]));
}

#[test]
fn writing_a_key_that_does_not_exist_fails() {
    let mut updater = new_updater();
    let pos = append_and_flush_entry_to_file(&mut updater.entry_file, &new_test_entry(), &[]);
    let key_hash = [0x11u8; 32];
    updater.indexer.add_kv(&key_hash, pos, 0);
    assert_eq!(
        updater.write_kv(&key_hash, b"other", b"v", None),
        Err(UpdateError::WriteToNonExistKey)
    );
    assert_eq!(updater.sn_end, 0);
    assert_eq!(updater.indexer.get_values(0, &key_hash), vec![pos]);
}

#[test]
fn keys_with_one_index_key_are_told_apart() {
    let mut updater = new_updater();
    let mut one = [0x11u8; 32];
    let mut two = [0x11u8; 32];
    one[31] = 1;
    two[31] = 2;
    let first = Entry {
        key: b"one",
        next_key_hash: &two,
        ..new_test_entry()
    };
    let second = Entry {
        key: b"two",
        ..new_test_entry()
    };
    let p1 = updater.update_buffer.append(&first, &[]);
    let p2 = updater.update_buffer.append(&second, &[]);
    updater.indexer.add_kv(&one, p1, 0);
    updater.indexer.add_kv(&two, p2, 1);
    let end = p2 + 64;
    assert_eq!(updater.write_kv(&two, b"two", b"newer", None), Ok(()));
    assert_eq!(updater.indexer.get_values(0, &one), vec![p1, end]);
    assert_eq!(updater.delete_kv(&two, b"two", None), Ok(()));
    assert_eq!(updater.indexer.get_values(0, &one), vec![end + 72]);
}

#[test]
fn bad_entries_in_the_log_are_reported() {
    let key_hash = [0x11u8; 32];
    let mut updater = new_updater();
    updater.indexer.add_kv(&key_hash, 800, 0);
    assert_eq!(
        updater.write_kv(&key_hash, b"key", b"v", None),
        Err(UpdateError::CannotReadEntry)
    );

    let mut cache = EntryCache::new_uninit();
    let bz = new_test_entry().dump(&[]);
    cache.insert(0, 800, &EntryBz { bz: &bz[..63] });
    updater.cache = Arc::new(cache);
    assert_eq!(
        updater.create_kv(&key_hash, b"key", b"v", None),
        Err(UpdateError::MalformedEntry)
    );
    assert_eq!(
        updater.delete_kv(&key_hash, b"key", None),
        Err(UpdateError::MalformedEntry)
    );
}

#[test]
fn limits_are_reported() {
    let key_hash = [0x11u8; 32];
    let mut updater = new_updater();
    let pos = append_and_flush_entry_to_file(&mut updater.entry_file, &new_test_entry(), &[]);
    updater.indexer.add_kv(&key_hash, pos, 0);
    let too_long = vec![0u8; 0x100_0000];
    assert_eq!(
        updater.write_kv(&key_hash, b"key", &too_long, None),
        Err(UpdateError::EntryTooLong)
    );
    updater.sn_end = u64::MAX;
    assert_eq!(
        updater.write_kv(&key_hash, b"key", b"v", None),
        Err(UpdateError::SerialNumberOverflow)
    );
    updater.sn_end = u64::MAX - 1;
    updater.compact_thres = 2;
    assert_eq!(updater.write_kv(&key_hash, b"key", b"v", None), Ok(()));
    assert_eq!(updater.sn_end, u64::MAX);

    let mut updater = new_updater();
    let pos = append_and_flush_entry_to_file(&mut updater.entry_file, &new_test_entry(), &[]);
    updater.indexer.add_kv(&key_hash, pos, 0);
    updater.update_buffer = EntryBufferWriter::new(i64::MAX - 64);
    assert_eq!(
        updater.write_kv(&key_hash, b"key", b"v", None),
        Err(UpdateError::FilePositionOverflow)
    );
}

#[test]
fn dead_jobs_are_sent_back() {
    let mut updater = new_updater();
    let entry = new_test_entry();
    let bz = entry.dump(&[]);
    let other = Entry {
        key: b"other",
        ..new_test_entry()
    };
    let kh = EntryBz { bz: &bz }.key_hash();
    let pos = append_and_flush_entry_to_file(&mut updater.entry_file, &entry, &[]);
    updater.indexer.add_kv(&kh, pos, 99999);
    updater.sn_end = 100000;
    updater.compact_consumer.produce(CompactJob {
        old_pos: 512,
        entry_bz: other.dump(&[]),
    });
    assert_eq!(
        updater.compact(None, 0),
        Err(UpdateError::CompactJobsExhausted)
    );
    updater.compact_consumer.produce(CompactJob {
        old_pos: 1024,
        entry_bz: other.dump(&[]),
    });
    updater.compact_consumer.produce(CompactJob {
        old_pos: pos,
        entry_bz: bz.clone(),
    });
    updater.compact_consumer.produce(CompactJob {
        old_pos: 2048,
        entry_bz: other.dump(&[]),
    });
    assert_eq!(updater.compact(None, 0), Ok(()));
    for expected in [512, 1024, 0] {
        let job = updater.compact_consumer.receive_returned().unwrap();
        assert_eq!(job.old_pos, expected);
    }
    assert!(updater.compact_consumer.receive_returned().is_none());
    assert_eq!(updater.compact_consumer.consume().unwrap().old_pos, 2048);

    assert_eq!(updater.sn_start, 100000);
    assert_eq!(updater.compact_done_pos, 64);
    assert_eq!(updater.indexer.get_values(0, &kh), vec![8]);
    assert_eq!(updater.read_entry(0, 8), Ok(()));
    let moved = Entry {
        serial_number: 100000,
        ..new_test_entry()
    };
    assert_eq!(updater.read_entry_buf, moved.dump(&[99999]));
}

#[test]
fn bad_jobs_are_reported_and_sent_back() {
    let mut updater = new_updater();
    updater.compact_consumer.produce(CompactJob {
        old_pos: 0,
        entry_bz: vec![1, 2, 3],
    });
    assert_eq!(updater.compact(None, 0), Err(UpdateError::MalformedEntry));
    assert!(updater.compact_consumer.receive_returned().is_some());

    let last = Entry {
        serial_number: u64::MAX,
        ..new_test_entry()
    };
    let bz = last.dump(&[]);
    let kh = EntryBz { bz: &bz }.key_hash();
    updater.indexer.add_kv(&kh, 0, u64::MAX);
    updater.compact_consumer.produce(CompactJob {
        old_pos: 0,
        entry_bz: bz,
    });
    assert_eq!(
        updater.compact(None, 0),
        Err(UpdateError::SerialNumberOverflow)
    );
    let bz = new_test_entry().dump(&[]);
    updater.indexer.add_kv(&kh, i64::MAX - 8, 0);
    updater.compact_consumer.produce(CompactJob {
        old_pos: i64::MAX - 8,
        entry_bz: bz,
    });
    assert_eq!(
        updater.compact(None, 0),
        Err(UpdateError::FilePositionOverflow)
    );
    assert_eq!(updater.sn_end, 0);
}

#[test]
fn messages_name_the_key() {
    assert_eq!(
        UpdateError::WriteToNonExistKey.message(1203, &[0, 9, 10, 255], &[7]),
        "Write to non-exist key shard_id=1203 key=[0, 9, 10, 255] key_hash=[7]"
    );
    assert_eq!(
        UpdateError::DeleteNonExistKey.message(1, &[], &[7]),
        "Delete non-exist key at id=-1 key=[]"
    );
    let largest = usize::MAX;
    assert_eq!(
        UpdateError::PrevKeyNotFound.message(largest, &[100], &[]),
        format!("Cannot find prevKey when creating shard_id={} key=[100]", largest)
    );
    assert_eq!(
        UpdateError::CannotReadEntry.message(1, &[1], &[2]),
        "Cannot read the entry"
    );
    assert_eq!(
        UpdateError::UnsupportedOperation.message(1, &[1], &[2]),
        "Updater: unsupported operation"
    );
}
