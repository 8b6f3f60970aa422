use qmdb::compare::{
    _compare_dig_entry, _compare_new_entry, _compare_old_entry, _compare_prev_changed,
    _compare_prev_entry, _compare_put_entry, compare_dig_entry, compare_new_entry,
    compare_old_entry, compare_prev_changed, compare_prev_entry, compare_put_entry,
};
use qmdb::entry::{Entry, EntryBz};
use qmdb::error::UpdateError;
use qmdb::tasks::OpRecord;

fn new_test_entry<'a>() -> Entry<'a> {
    Entry {
        key: "key".as_bytes(),
        value: "value".as_bytes(),
        next_key_hash: &[0xab; 32],
        version: 12345,
        serial_number: 99999,
    }
}

fn build_and_dump(key: &str, value: &str) -> Vec<u8> {
    let entry = Entry {
        key: key.as_bytes(),
        value: value.as_bytes(),
        next_key_hash: &[0; 32],
        version: 0,
        serial_number: 0,
    };
    entry.dump(&[])
}

#[test]
fn test_compare_old_entry() {
    let mut op = OpRecord::new(0);
    op.rd_list.push(vec![4, 5, 6]);
    op.rd_list.push(vec![1, 2, 3]);
    let bz: [u8; 3] = [4, 5, 6];
    assert_eq!(
        _compare_old_entry(Some(&op), &EntryBz { bz: &bz[..] }),
        Err(UpdateError::CompareOldEntry)
    );
    assert_eq!(
        _compare_old_entry(Some(&op), &EntryBz { bz: &[1, 2, 3] }),
        Ok(())
    );
}

#[test]
fn test_compare_prev_entry() {
    let mut op = OpRecord::new(0);
    op.rd_list.push(vec![1, 2, 3]);
    op.rd_list.push(vec![4, 5, 6]);
    let bz: [u8; 3] = [4, 5, 6];
    assert_eq!(
        _compare_prev_entry(Some(&op), &EntryBz { bz: &bz[..] }),
        Err(UpdateError::ComparePrevEntry)
    );
    assert_eq!(
        _compare_prev_entry(Some(&op), &EntryBz { bz: &[1, 2, 3] }),
        Ok(())
    );
}

#[test]
fn test_compare_prev_changed() {
    let entry = new_test_entry();
    let dsn_list: [u64; 4] = [1, 2, 3, 4];

    let mut op = OpRecord::new(0);
    op.wr_list.push(build_and_dump("abc", "def"));
    op.wr_list.push(vec![4, 5, 6]);
    assert_eq!(
        _compare_prev_changed(Some(&op), &entry, &dsn_list),
        Err(UpdateError::ComparePrevChanged)
    );
    op.wr_list[0] = entry.dump(&dsn_list);
    assert_eq!(_compare_prev_changed(Some(&op), &entry, &dsn_list), Ok(()));
    assert_eq!(
        _compare_prev_changed(Some(&op), &entry, &[1, 2, 3, 5]),
        Err(UpdateError::ComparePrevChanged)
    );
}

#[test]
fn test_compare_new_entry() {
    let entry = new_test_entry();
    let dsn_list: [u64; 4] = [1, 2, 3, 4];

    let mut op = OpRecord::new(0);
    op.wr_list.push(vec![1, 2, 3]);
    op.wr_list.push(vec![4, 5, 6]);
    assert_eq!(
        _compare_new_entry(Some(&op), &entry, &dsn_list),
        Err(UpdateError::CompareNewEntry)
    );
    op.wr_list[1] = entry.dump(&dsn_list);
    assert_eq!(_compare_new_entry(Some(&op), &entry, &dsn_list), Ok(()));
}

#[test]
fn test_compare_dig_entry() {
    let entry1 = build_and_dump("abc", "def");
    let entry2 = build_and_dump("hhh", "www");
    let entry3 = build_and_dump("123", "456");

    let mut op = OpRecord::new(0);
    op.dig_list.push(entry1);
    op.rd_list.push(entry2);
    assert_eq!(
        _compare_dig_entry(Some(&op), &EntryBz { bz: &entry3 }, 0),
        Err(UpdateError::CompareDigEntry)
    );
    op.dig_list.push(entry3.clone());
    assert_eq!(
        _compare_dig_entry(Some(&op), &EntryBz { bz: &entry3 }, 1),
        Ok(())
    );
}

#[test]
fn test_compare_put_entry() {
    let entry = new_test_entry();
    let dsn_list: [u64; 4] = [1, 2, 3, 4];

    let mut op = OpRecord::new(0);
    op.put_list.push(vec![1, 2, 3]);
    op.put_list.push(vec![4, 5, 6]);
    assert_eq!(
        _compare_put_entry(Some(&op), &entry, &dsn_list, 1),
        Err(UpdateError::ComparePutEntry)
    );
    op.put_list[1] = entry.dump(&dsn_list);
    assert_eq!(_compare_put_entry(Some(&op), &entry, &dsn_list, 1), Ok(()));
}

#[test]
fn an_empty_record_agrees_with_nothing() {
    let op = OpRecord::new(0);
    let entry = new_test_entry();
    let bz = entry.dump(&[]);
    let entry_bz = EntryBz { bz: &bz };
    assert_eq!(
        _compare_old_entry(Some(&op), &entry_bz),
        Err(UpdateError::CompareOldEntry)
    );
    assert_eq!(
        _compare_prev_entry(Some(&op), &entry_bz),
        Err(UpdateError::ComparePrevEntry)
    );
    assert_eq!(
        _compare_prev_changed(Some(&op), &entry, &[]),
        Err(UpdateError::ComparePrevChanged)
    );
    assert_eq!(
        _compare_new_entry(Some(&op), &entry, &[]),
        Err(UpdateError::CompareNewEntry)
    );
    assert_eq!(
        _compare_dig_entry(Some(&op), &entry_bz, 0),
        Err(UpdateError::CompareDigEntry)
    );
    assert_eq!(
        _compare_put_entry(Some(&op), &entry, &[], 0),
        Err(UpdateError::ComparePutEntry)
    );
}

#[test]
fn nothing_is_compared_without_a_record_or_when_records_are_off() {
    let op = OpRecord::new(0);
    let entry = new_test_entry();
    let bz = entry.dump(&[]);
    let entry_bz = EntryBz { bz: &bz };
    for (check_rec, rec) in [(false, Some(&op)), (true, None)] {
        assert_eq!(compare_old_entry(check_rec, rec, &entry_bz), Ok(()));
        assert_eq!(compare_prev_entry(check_rec, rec, &entry_bz), Ok(()));
        assert_eq!(compare_prev_changed(check_rec, rec, &entry, &[]), Ok(()));
        assert_eq!(compare_new_entry(check_rec, rec, &entry, &[]), Ok(()));
        assert_eq!(compare_dig_entry(check_rec, rec, &entry_bz, 0), Ok(()));
        assert_eq!(compare_put_entry(check_rec, rec, &entry, &[], 0), Ok(()));
    }
    assert_eq!(
        compare_old_entry(true, Some(&op), &entry_bz),
        Err(UpdateError::CompareOldEntry)
    );
}

#[test]
fn failed_comparisons_name_themselves() {
    for (e, text) in [
        (UpdateError::CompareOldEntry, "compare_old_entry failed"),
        (UpdateError::ComparePrevEntry, "compare_prev_entry failed"),
        (UpdateError::ComparePrevChanged, "compare_prev_changed failed"),
        (UpdateError::CompareNewEntry, "compare_new_entry failed"),
        (UpdateError::CompareDigEntry, "compare_dig_entry failed"),
        (UpdateError::ComparePutEntry, "compare_put_entry failed"),
    ] {
        assert_eq!(e.message(0, b"key", &[0; 32]), text);
    }
}
