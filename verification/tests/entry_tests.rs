use qmdb::bytes::{bytes_equal, bytes_less, to_k80};
use qmdb::cache::EntryCache;
use qmdb::entry::{entry_equal, Entry, EntryBz};
use qmdb::file::EntryFile;
use qmdb::indexer::Indexer;
use qmdb::updater::is_between;

fn sample<'a>() -> Entry<'a> {
    Entry {
        key: b"key",
        value: b"value",
        next_key_hash: &[0xab; 32],
        version: -2,
        serial_number: 0x0102_0304_0506_0708,
    }
}

#[test]
fn an_entry_has_this_layout() {
    let bz = sample().dump(&[1, 0xff00]);
    let mut expected: Vec<u8> = vec![3, 5, 0, 0, 2];
    expected.extend_from_slice(b"keyvalue");
    expected.extend_from_slice(&[0xab; 32]);
    expected.extend_from_slice(&[0xfe, 0xff, 0xff, 0xff, 0xff, 0xff, 0xff, 0xff]);
    expected.extend_from_slice(&[8, 7, 6, 5, 4, 3, 2, 1]);
    expected.extend_from_slice(&[0, 0, 0]);
    expected.extend_from_slice(&[1, 0, 0, 0, 0, 0, 0, 0]);
    expected.extend_from_slice(&[0, 0xff, 0, 0, 0, 0, 0, 0]);
    assert_eq!(bz, expected);
    assert_eq!(bz.len(), 80);
    assert_eq!(sample().get_serialized_len(2), 80);
}

#[test]
fn an_entry_is_read_as_it_was_written() {
    let value = vec![9u8; 70_000];
    let entry = Entry {
        value: &value,
        ..sample()
    };
    let mut bz = entry.dump(&[5]);
    let len = bz.len();
    assert_eq!(EntryBz::get_entry_len(&bz), len);
    bz.extend_from_slice(&[1, 2, 3]);
    assert_eq!(EntryBz::get_entry_len(&bz), len);
    let entry_bz = EntryBz { bz: &bz };
    assert!(entry_bz.is_well_formed());
    assert_eq!(entry_bz.len(), len + 3);
    let back = Entry::from_bz(&entry_bz);
    assert_eq!(back.key, b"key");
    assert_eq!(back.value, &value[..]);
    assert_eq!(back.next_key_hash, &[0xab; 32]);
    assert_eq!(back.version, -2);
    assert_eq!(back.serial_number, 0x0102_0304_0506_0708);
    assert!(!EntryBz { bz: &bz[..len - 1] }.is_well_formed());
    assert!(!EntryBz { bz: &[3, 5, 0, 0] }.is_well_formed());
    assert!(!EntryBz { bz: &[] }.is_well_formed());
}

#[test]
fn lengths_have_limits() {
    let key = [0u8; 256];
    let long_key = Entry {
        key: &key,
        ..sample()
    };
    assert!(!long_key.has_valid_lengths(0));
    let fits = Entry {
        key: &key[..255],
        ..sample()
    };
    assert!(fits.has_valid_lengths(255));
    assert!(!fits.has_valid_lengths(256));
    let short_hash = Entry {
        next_key_hash: &[0; 31],
        ..sample()
    };
    assert!(!short_hash.has_valid_lengths(0));
}

#[test]
fn the_key_hash_is_sha_256() {
    let bz = sample().dump(&[]);
    assert_eq!(
        hex::encode(EntryBz { bz: &bz }.key_hash()),
        "2c70e12b7a0646f92279f427c7b38e7334d8e5389cff167a1dc30e73f826b683"
    );
    let empty = Entry {
        key: b"",
        ..sample()
    };
    let bz = empty.dump(&[]);
    assert_eq!(
        hex::encode(EntryBz { bz: &bz }.key_hash()),
        "e3b0c44298fc1c149afbf4c8996fb92427ae41e4649b934ca495991b7852b855"
    );
}

#[test]
fn entries_are_compared_by_their_bytes() {
    let bz = sample().dump(&[1, 2]);
    assert!(entry_equal(&bz, &sample(), &[1, 2]));
    assert!(!entry_equal(&bz, &sample(), &[2, 1]));
    assert!(!entry_equal(&bz, &sample(), &[1]));
    let other = Entry {
        version: -1,
        ..sample()
    };
    assert!(!entry_equal(&bz, &other, &[1, 2]));
    assert!(!entry_equal(&bz[..79], &sample(), &[1, 2]));
}

#[test]
fn bytes_come_in_dictionary_order() {
    assert!(bytes_less(b"a", b"b"));
    assert!(bytes_less(b"a", b"ab"));
    assert!(bytes_less(b"", b"a"));
    assert!(!bytes_less(b"b", b"ab"));
    assert!(!bytes_less(b"a", b"a"));
    assert!(bytes_less(&[0x7f], &[0x80]));
    assert!(bytes_equal(b"ab", b"ab"));
    assert!(!bytes_equal(b"ab", b"a"));
    assert!(is_between(b"a", b"b", b"c"));
    assert!(!is_between(b"a", b"a", b"c"));
    assert!(!is_between(b"a", b"c", b"c"));
}

#[test]
fn an_index_key_is_the_first_ten_bytes() {
    assert_eq!(to_k80(&[0, 0, 0, 0, 0, 0, 0, 0, 1, 2, 3]), 0x102);
    assert_eq!(to_k80(&[0xff; 32]), (1u128 << 80) - 1);
    assert_eq!(
        to_k80(&[1, 2, 3, 4, 5, 6, 7, 8, 9, 10]),
        0x0102_0304_0506_0708_090a
    );
}

#[test]
fn the_index_keeps_places_in_order() {
    let mut indexer = Indexer::new();
    let a = [1u8; 10];
    let b = [2u8; 10];
    let c = [3u8; 10];
    indexer.add_kv(&b, 16, 1);
    indexer.add_kv(&a, 24, 2);
    indexer.add_kv(&b, 8, 3);
    indexer.add_kv(&c, 0, 4);
    assert_eq!(indexer.len(), 4);
    assert_eq!(indexer.get_values(0, &b), vec![8, 16]);
    let (ka, kb) = (to_k80(&a), to_k80(&b));
    assert_eq!(
        indexer.get_adjacent_values(0, &b),
        vec![(kb, 8), (kb, 16), (ka, 24)]
    );
    let between = [2u8, 2, 2, 2, 2, 2, 2, 2, 2, 3];
    assert_eq!(
        indexer.get_adjacent_values(0, &between),
        vec![(kb, 8), (kb, 16)]
    );
    assert_eq!(indexer.get_adjacent_values(0, &[0u8; 10]), Vec::<(u128, i64)>::new());
    assert!(indexer.key_exists(&b, 8));
    assert!(!indexer.key_exists(&b, 24));
    indexer.change_kv(kb, 8, 32, 5);
    assert_eq!(indexer.get_values(0, &b), vec![16, 32]);
    indexer.erase_kv(&b, 16);
    indexer.erase_kv(&b, 17);
    assert_eq!(indexer.get_values(0, &b), vec![32]);
    assert_eq!(indexer.len(), 3);
}

#[test]
fn a_file_gives_whole_entries_only() {
    let bz = sample().dump(&[7]);
    let mut file = EntryFile::new(vec![0; 3]);
    let pos = file.append(&bz).unwrap();
    assert_eq!(pos, 3);
    let mut buf = vec![1u8; 100];
    assert_eq!(file.read_entry(pos, &mut buf), Some(72));
    assert_eq!(buf[..72], bz[..]);
    assert_eq!(buf[72..], [1u8; 28][..]);
    let mut small = vec![0u8; 10];
    assert_eq!(file.read_entry(pos, &mut small), Some(72));
    assert_eq!(small[..], bz[..10]);
    assert_eq!(file.read_entry(-1, &mut buf), None);
    assert_eq!(file.read_entry(71, &mut buf), None);
    assert_eq!(file.read_entry(1000, &mut buf), None);
}

#[test]
fn a_cache_keeps_the_last_bytes() {
    let mut cache = EntryCache::new_uninit();
    assert!(cache.lookup(1, 8).is_none());
    cache.insert(1, 8, &EntryBz { bz: &[1] });
    cache.insert(2, 8, &EntryBz { bz: &[2] });
    cache.insert(1, 8, &EntryBz { bz: &[3] });
    assert_eq!(cache.lookup(1, 8), Some(&vec![3]));
    assert_eq!(cache.lookup(2, 8), Some(&vec![2]));
    assert!(cache.lookup(1, 16).is_none());
}
