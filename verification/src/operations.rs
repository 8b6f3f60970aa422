//! What one operation writes to the log and to the index, and what it needs to end well.

use vstd::prelude::*;

use crate::active::{lemma_appended_twice, lemma_numbers_one};
use crate::bytes::k80_of;
use crate::chain::{lemma_find_prev, lemma_found_well_formed, lemma_parsed_lengths};
use crate::entry::{
    dump, fits, lemma_dump_parse, parse, parse_dsns, serialized_len, well_formed, EntryView,
};
use crate::error::UpdateError;
use crate::indexer::{
    adjacent_values, keyed_values, lemma_adjacent_values, lemma_keyed_values,
};
use crate::model::{Core, Db, Located};
use crate::search::{lemma_find_deleted_is_first, lemma_find_key_is_first, lemma_find_prev_is_first};
use crate::tasks::{Op, OpRecord};

verus! {

/// The entry `bz` says this, part by part.
pub open spec fn says(
    bz: Seq<u8>,
    key: Seq<u8>,
    value: Seq<u8>,
    next_key_hash: Seq<u8>,
    version: i64,
    serial_number: int,
    dsns: Seq<u64>,
) -> bool {
    &&& parse(bz).key == key
    &&& parse(bz).value == value
    &&& parse(bz).next_key_hash == next_key_hash
    &&& parse(bz).version == version
    &&& parse(bz).serial_number == serial_number
    &&& parse_dsns(bz) == dsns
}

/// But for the end of the log, the index and the next serial number, all is as it was.
pub open spec fn else_alike(db: Db, next: Db) -> bool {
    &&& next.shard_id == db.shard_id
    &&& next.cache == db.cache
    &&& next.file == db.file
    &&& next.buffer.start == db.buffer.start
    &&& next.buffer.blocks == db.buffer.blocks
    &&& next.curr_version == db.curr_version
    &&& next.sn_start == db.sn_start
    &&& next.compact_done_pos == db.compact_done_pos
    &&& next.utilization_div == db.utilization_div
    &&& next.utilization_ratio == db.utilization_ratio
    &&& next.compact_thres == db.compact_thres
    &&& next.check_rec == db.check_rec
}

/// The bytes that are read at a place.
pub open spec fn bytes_at(db: Db, place: (u128, i64)) -> Seq<u8> {
    db.load(place.1)->Ok_0
}

/// A write appends one entry with the key, the new value, the current version and the next
/// serial number. It names the hash that the key's old entry named, takes that one out of
/// use, and stands in its place in the index.
pub proof fn lemma_write_does(
    db: Db,
    key_hash: Seq<u8>,
    key: Seq<u8>,
    value: Seq<u8>,
    next: Db,
) -> (place: (u128, i64))
    requires
        db.index.dom().finite(),
        db.write(key_hash, key, value) == Ok::<Db, UpdateError>(next),
    ensures
        db.index.contains_key(place),
        place.0 == k80_of(key_hash),
        db.load(place.1) is Ok,
        parse(bytes_at(db, place)).key == key,
        db.appended(next).len() == 1,
        says(
            db.appended(next)[0],
            key,
            value,
            parse(bytes_at(db, place)).next_key_hash,
            db.curr_version,
            db.sn_end as int,
            seq![parse(bytes_at(db, place)).serial_number],
        ),
        next.sn_end == db.sn_end + 1,
        next.index == db.index.remove(place).insert((place.0, db.buffer.end), db.sn_end),
        else_alike(db, next),
{
    let places = keyed_values(db.index, k80_of(key_hash));
    lemma_find_key_is_first(db, places, key);
    lemma_keyed_values(db.index, k80_of(key_hash));
    let i = choose|i: int| db.first_with_key(places, key, i);
    let old = db.located(places[i]);
    assert(db.first_with_key(places, key, i));
    assert(places.contains(places[i]));
    lemma_parsed_lengths(old.bz);
    lemma_numbers_one(db, next, db.written(old, key, value), seq![old.entry().serial_number]);
    places[i]
}

/// A creation appends two entries under the current version. The first is the new key's: it
/// names the hash that the key's neighbour named, and takes nothing out of use. The second is
/// the neighbour again, which now names the new key's hash and stands in its old place in the
/// index.
pub proof fn lemma_create_does(
    db: Db,
    key_hash: Seq<u8>,
    key: Seq<u8>,
    value: Seq<u8>,
    rec: Option<&OpRecord>,
    next: Db,
) -> (place: (u128, i64))
    requires
        key_hash.len() == 32,
        db.index.dom().finite(),
        db.create(key_hash, key, value, rec) == Ok::<Db, UpdateError>(next),
    ensures
        db.index.contains_key(place),
        db.reads_around(place, key_hash),
        db.appended(next).len() == 2,
        says(
            db.appended(next)[0],
            key,
            value,
            parse(bytes_at(db, place)).next_key_hash,
            db.curr_version,
            db.sn_end as int,
            Seq::empty(),
        ),
        says(
            db.appended(next)[1],
            parse(bytes_at(db, place)).key,
            parse(bytes_at(db, place)).value,
            key_hash,
            db.curr_version,
            db.sn_end + 1,
            seq![parse(bytes_at(db, place)).serial_number],
        ),
        next.sn_end == db.sn_end + 2,
        next.index == db.index.insert((k80_of(key_hash), db.buffer.end), db.sn_end).remove(
            place,
        ).insert(
            (place.0, (db.buffer.end + db.appended(next)[0].len()) as i64),
            (db.sn_end + 1) as u64,
        ),
        else_alike(db, next),
        db.find_prev(adjacent_values(db.index, k80_of(key_hash)), key_hash, rec) == Ok::<
            Located,
            UpdateError,
        >(db.located(place)),
{
    let places = adjacent_values(db.index, k80_of(key_hash));
    lemma_find_prev_is_first(db, places, key_hash, rec);
    lemma_find_prev(db, places, key_hash, rec);
    lemma_adjacent_values(db.index, k80_of(key_hash));
    let i = choose|i: int| db.first_around(places, key_hash, i);
    assert(db.first_around(places, key_hash, i));
    let prev = db.located(places[i]);
    assert(places.contains(places[i]));
    lemma_parsed_lengths(prev.bz);
    lemma_insert_does(db, prev, key_hash, key, value, rec, next);
    places[i]
}

proof fn lemma_insert_does(
    db: Db,
    prev: Located,
    key_hash: Seq<u8>,
    key: Seq<u8>,
    value: Seq<u8>,
    rec: Option<&OpRecord>,
    next: Db,
)
    requires
        key_hash.len() == 32,
        well_formed(prev.bz),
        db.insert_after(prev, key_hash, key, value, rec) == Ok::<Db, UpdateError>(next),
    ensures
        db.appended(next).len() == 2,
        says(
            db.appended(next)[0],
            key,
            value,
            prev.entry().next_key_hash,
            db.curr_version,
            db.sn_end as int,
            Seq::empty(),
        ),
        says(
            db.appended(next)[1],
            prev.entry().key,
            prev.entry().value,
            key_hash,
            db.curr_version,
            db.sn_end + 1,
            seq![prev.entry().serial_number],
        ),
        next.index == db.index.insert((k80_of(key_hash), db.buffer.end), db.sn_end).remove(
            prev.place,
        ).insert(
            (prev.place.0, (db.buffer.end + db.appended(next)[0].len()) as i64),
            (db.sn_end + 1) as u64,
        ),
        next.sn_end == db.sn_end + 2,
        db.appended(next) == seq![
            dump(db.created(prev, key, value), Seq::empty()),
            dump(
                db.prev_before_created(prev, key_hash),
                seq![prev.entry().serial_number],
            ),
        ],
        else_alike(db, next),
{
    lemma_parsed_lengths(prev.bz);
    let e = db.created(prev, key, value);
    let c = db.prev_before_created(prev, key_hash);
    lemma_two_appended(db, next, e, c, seq![prev.entry().serial_number]);
}

pub(crate) proof fn lemma_two_appended(db: Db, next: Db, e: EntryView, c: EntryView, dsns: Seq<u64>)
    requires
        fits(e, Seq::empty()),
        fits(c, dsns),
        db.sn_end + 2 <= u64::MAX,
        db.buffer.end + serialized_len(e, 0) + serialized_len(c, dsns.len()) <= i64::MAX,
        next.buffer == db.buffer.append(e, Seq::empty()).append(c, dsns),
        next.sn_end == db.sn_end + 2,
        e.serial_number == db.sn_end,
        c.serial_number == db.sn_end + 1,
    ensures
        db.appended(next) == seq![dump(e, Seq::empty()), dump(c, dsns)],
        parse(db.appended(next)[0]) == e,
        parse_dsns(db.appended(next)[0]) == Seq::<u64>::empty(),
        parse(db.appended(next)[1]) == c,
        parse_dsns(db.appended(next)[1]) == dsns,
        db.buffer.append(e, Seq::empty()).end == db.buffer.end + db.appended(next)[0].len(),
{
    let none = Seq::<u64>::empty();
    let mid = Db { buffer: db.buffer.append(e, none), sn_end: (db.sn_end + 1) as u64, ..db };
    assert(serialized_len(c, dsns.len()) >= 0);
    assert(serialized_len(e, 0) >= 0);
    lemma_numbers_one(db, mid, e, none);
    lemma_written_len(e);
    lemma_numbers_one(mid, next, c, dsns);
    lemma_appended_twice(db, mid, next);
    assert(db.appended(next) =~= seq![dump(e, none), dump(c, dsns)]);
}

proof fn lemma_written_len(e: EntryView)
    requires
        fits(e, Seq::empty()),
    ensures
        dump(e, Seq::empty()).len() == serialized_len(e, 0),
{
    lemma_dump_parse(e, Seq::empty(), Seq::empty());
}

/// A deletion appends one entry under the current version: the one before the deleted key's,
/// which now names the hash that the deleted one named. It takes the deleted one and its own
/// old entry out of use, in this order, and both leave the index.
pub proof fn lemma_delete_does(
    db: Db,
    key_hash: Seq<u8>,
    key: Seq<u8>,
    rec: Option<&OpRecord>,
    next: Db,
) -> (found: ((u128, i64), (u128, i64)))
    requires
        db.index.dom().finite(),
        db.delete(key_hash, key, rec) == Ok::<Db, UpdateError>(next),
    ensures
        db.index.contains_key(found.0),
        db.index.contains_key(found.1),
        found.0 != found.1,
        db.load(found.0.1) is Ok,
        db.load(found.1.1) is Ok,
        parse(bytes_at(db, found.0)).key == key,
        parse(bytes_at(db, found.1)).next_key_hash == key_hash,
        db.appended(next).len() == 1,
        says(
            db.appended(next)[0],
            parse(bytes_at(db, found.1)).key,
            parse(bytes_at(db, found.1)).value,
            parse(bytes_at(db, found.0)).next_key_hash,
            db.curr_version,
            db.sn_end as int,
            seq![
                parse(bytes_at(db, found.0)).serial_number,
                parse(bytes_at(db, found.1)).serial_number,
            ],
        ),
        next.sn_end == db.sn_end + 1,
        next.index == db.index.remove((k80_of(key_hash), found.0.1)).remove(found.1).insert(
            (found.1.0, db.buffer.end),
            db.sn_end,
        ),
        else_alike(db, next),
        db.find_deleted(adjacent_values(db.index, k80_of(key_hash)), key_hash, key, rec) == Ok::<
            (Located, Located),
            UpdateError,
        >((db.located(found.0), db.located(found.1))),
{
    let places = adjacent_values(db.index, k80_of(key_hash));
    lemma_find_deleted_is_first(db, places, key_hash, key, rec);
    lemma_found_well_formed(db, places, key_hash, key, rec);
    lemma_adjacent_values(db.index, k80_of(key_hash));
    let (deleted, prev) = db.find_deleted(places, key_hash, key, rec)->Ok_0;
    let (d, p) = choose|d: int, p: int|
        {
            &&& #[trigger] db.first_with_key(places, key, d)
            &&& #[trigger] db.first_link_but(places, key_hash, d, p)
            &&& deleted == db.located(places[d])
            &&& prev == db.located(places[p])
        };
    assert(places.contains(places[d]) && places.contains(places[p]));
    lemma_parsed_lengths(deleted.bz);
    lemma_parsed_lengths(prev.bz);
    let c = db.prev_without_deleted(deleted, prev);
    lemma_numbers_one(db, next, c, Db::deleted_sns(deleted, prev));
    (places[d], places[p])
}

// ---- what an operation needs ----

/// Bytes that an entry takes with a key and a value of these lengths, and with `n` serial
/// numbers that go out of use.
pub open spec fn bytes_taken(key_len: nat, value_len: nat, n: nat) -> int {
    (key_len + value_len + 60) as int / 8 * 8 + 8 * n
}

/// What is told where `count` serial numbers and `bytes` bytes of the log are needed.
pub open spec fn shortage(db: Db, count: int, bytes: int) -> Option<UpdateError> {
    if db.sn_end + count > 0xffff_ffff_ffff_ffff {
        Some(UpdateError::SerialNumberOverflow)
    } else if db.buffer.end + bytes > 0x7fff_ffff_ffff_ffff {
        Some(UpdateError::FilePositionOverflow)
    } else {
        None
    }
}

/// A key that was found can be written unless key or value is too long, no serial number is
/// left, or the log has no room for the new entry; that is told in this order.
pub proof fn lemma_write_needs(db: Db, old: Located, key: Seq<u8>, value: Seq<u8>)
    requires
        well_formed(old.bz),
    ensures
        ({
            let short = shortage(db, 1, bytes_taken(key.len(), value.len(), 1));
            match db.write_over(old, key, value) {
                Ok(_) => key.len() <= 255 && value.len() <= 16777215 && short is None,
                Err(e) => if key.len() > 255 || value.len() > 16777215 {
                    e == UpdateError::EntryTooLong
                } else {
                    short == Some(e)
                },
            }
        }),
{
    lemma_parsed_lengths(old.bz);
}

/// Without a record, a key can be put behind an entry unless key or value is too long, fewer
/// than two serial numbers are left, or the log has no room for both entries; that is told
/// in this order.
pub proof fn lemma_create_needs(
    db: Db,
    prev: Located,
    key_hash: Seq<u8>,
    key: Seq<u8>,
    value: Seq<u8>,
)
    requires
        well_formed(prev.bz),
    ensures
        ({
            let short = shortage(
                db,
                2,
                bytes_taken(key.len(), value.len(), 0) + bytes_taken(
                    prev.entry().key.len(),
                    prev.entry().value.len(),
                    1,
                ),
            );
            match db.insert_after(prev, key_hash, key, value, None) {
                Ok(_) => key.len() <= 255 && value.len() <= 16777215 && short is None,
                Err(e) => if key.len() > 255 || value.len() > 16777215 {
                    e == UpdateError::EntryTooLong
                } else {
                    short == Some(e)
                },
            }
        }),
{
    lemma_parsed_lengths(prev.bz);
}

/// Without a record, an entry can be taken out unless no serial number is left, or the log
/// has no room for the entry before it; that is told in this order.
pub proof fn lemma_delete_needs(db: Db, deleted: Located, prev: Located, key_hash: Seq<u8>)
    requires
        well_formed(prev.bz),
    ensures
        ({
            let short = shortage(
                db,
                1,
                bytes_taken(prev.entry().key.len(), prev.entry().value.len(), 2),
            );
            match db.remove_after(deleted, prev, key_hash, None) {
                Ok(_) => short is None,
                Err(e) => short == Some(e),
            }
        }),
{
}

// ---- which operation is run ----

/// An operation of this shard is run by its type: 1 reads, 2 writes, 3 creates and 4
/// deletes; there is no other.
pub proof fn lemma_op_types(core: Core, op: &Op)
    requires
        op.record is None,
    ensures
        op.op_type == 1 ==> core.run_op(op) == (core, Ok::<(), UpdateError>(())),
        op.op_type == 2 ==> core.run_op(op) == core.write_kv(
            op.key_hash@,
            op.key@,
            op.value@,
            None,
        ),
        op.op_type == 3 ==> core.run_op(op) == core.create_kv(
            op.key_hash@,
            op.key@,
            op.value@,
            None,
        ),
        op.op_type == 4 ==> core.run_op(op) == core.delete_kv(op.key_hash@, op.key@, None),
        op.op_type == 0 || op.op_type > 4 ==> core.run_op(op) == (
            core,
            Err::<(), UpdateError>(UpdateError::UnsupportedOperation),
        ),
{
}

} // verus!
