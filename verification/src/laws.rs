//! Further laws of the store.

use vstd::prelude::*;

use crate::active::lemma_numbers_one;
use crate::bytes::{k80_of, lemma_before_total};
use crate::chain::{
    lemma_appended_reads, lemma_contents, lemma_create, lemma_delete, lemma_extended_reads,
    lemma_find_key, lemma_links, lemma_write, linked_in, linked_out,
};
use crate::def::{DEFAULT_ENTRY_SIZE, OP_CREATE, OP_DELETE, OP_READ, OP_WRITE};
use crate::entry::{
    dump, entry_len, fits, lemma_dump_parse, parse, parse_dsns, serialized_len, EntryView,
    HEADER_LEN,
};
use crate::error::UpdateError;
use crate::file::{file_entry, file_has_entry};
use crate::hash::sha256;
use crate::indexer::{adjacent_values, keyed_values, lemma_keyed_values};
use crate::model::{between, record_of, Core, Db, DeleteScan, Located, ProgressView, Store};
use crate::tasks::{Op, OpRecord};

verus! {

pub(crate) proof fn lemma_file_entry(
    file: Seq<u8>,
    before: Seq<u8>,
    bz: Seq<u8>,
    rest: Seq<u8>,
    pos: i64,
)
    requires
        file == before + bz + rest,
        pos == before.len(),
        bz.len() >= HEADER_LEN,
        entry_len(bz + rest) == bz.len(),
    ensures
        file_has_entry(file, pos),
        file_entry(file, pos) == bz,
{
    assert(file.skip(pos as int) =~= bz + rest);
    assert(file_entry(file, pos) =~= bz);
}

/// An entry of no more than `DEFAULT_ENTRY_SIZE` bytes that stands in the entry file,
/// before the buffer, is read as it was written, unless bytes are cached for its place.
pub proof fn lemma_file_reads(
    db: Db,
    shard_id: usize,
    before: Seq<u8>,
    e: EntryView,
    dsns: Seq<u64>,
    rest: Seq<u8>,
    pos: i64,
)
    requires
        fits(e, dsns),
        serialized_len(e, dsns.len()) <= DEFAULT_ENTRY_SIZE,
        db.file == before + dump(e, dsns) + rest,
        pos == before.len(),
        pos < db.buffer.start,
        !db.cache.contains_key((shard_id, pos)),
        !db.buffer.entries.contains_key(pos),
    ensures
        db.read(shard_id, pos) == Some(dump(e, dsns)),
{
    lemma_dump_parse(e, dsns, rest);
    lemma_file_entry(db.file, before, dump(e, dsns), rest, pos);
}

/// An operation that is refused changes nothing.
pub proof fn lemma_refused_changes_nothing(
    core: Core,
    key_hash: Seq<u8>,
    key: Seq<u8>,
    value: Seq<u8>,
    rec: Option<&OpRecord>,
)
    ensures
        core.store.db.write(key_hash, key, value) matches Err(e) ==> core.write_kv(
            key_hash,
            key,
            value,
            rec,
        ) == (core, Err::<(), UpdateError>(e)),
        core.store.db.create(key_hash, key, value, rec) matches Err(e) ==> core.create_kv(
            key_hash,
            key,
            value,
            rec,
        ) == (core, Err::<(), UpdateError>(e)),
        core.store.db.delete(key_hash, key, rec) matches Err(e) ==> core.delete_kv(
            key_hash,
            key,
            rec,
        ) == (core, Err::<(), UpdateError>(e)),
{
}

/// Deleting a key that was just created gives back the contents and the links from before,
/// and three serial numbers have been used up.
pub proof fn lemma_create_then_delete(
    db: Db,
    key_hash: Seq<u8>,
    key: Seq<u8>,
    value: Seq<u8>,
    created: Db,
    next: Db,
    rec: Option<&OpRecord>,
    rec2: Option<&OpRecord>,
)
    requires
        db.chained(),
        key_hash == sha256(key),
        key_hash.len() == 32,
        db.create(key_hash, key, value, rec) == Ok::<Db, UpdateError>(created),
        created.delete(key_hash, key, rec2) == Ok::<Db, UpdateError>(next),
    ensures
        next.chained(),
        next.contents() == db.contents(),
        next.links() == db.links(),
        next.sn_end == db.sn_end + 3,
        next.index.dom().len() == db.index.dom().len(),
{
    lemma_create(db, key_hash, key, value, rec, created);
    lemma_delete(created, key_hash, key, rec2, next);
    assert(next.contents() =~= db.contents());
    let p = choose|p: Seq<u8>| linked_in(db.links(), created.links(), key, p);
    let q = choose|q: Seq<u8>| linked_out(created.links(), next.links(), key, q);
    lemma_one_names(created, key_hash, p, q);
    assert(!db.links().contains_key(key)) by {
        if db.links().contains_key(key) {
            let place = choose|place: (u128, i64)| db.holds(place, key);
            lemma_contents(db, place, key);
        }
    }
    assert(next.links() =~= db.links());
}

/// At most one live key names a hash as the next one.
proof fn lemma_one_names(db: Db, key_hash: Seq<u8>, p: Seq<u8>, q: Seq<u8>)
    requires
        db.chained(),
        db.links().contains_key(p),
        db.links().contains_key(q),
        db.links()[p] == key_hash,
        db.links()[q] == key_hash,
    ensures
        p == q,
{
    let a = choose|a: (u128, i64)| db.holds(a, p);
    let b = choose|b: (u128, i64)| db.holds(b, q);
    lemma_links(db, a, p);
    lemma_links(db, b, q);
    assert(db.live(a) && db.live(b));
    if a != b {
        lemma_before_total(db.hash_at(a), db.hash_at(b));
        assert(!between(db.hash_at(a), db.hash_at(b), db.next_hash_at(a)));
        assert(!between(db.hash_at(b), db.hash_at(a), db.next_hash_at(b)));
    }
}

/// Of two writes of a key, the second alone counts.
pub proof fn lemma_last_write_counts(
    db: Db,
    key_hash: Seq<u8>,
    key: Seq<u8>,
    value: Seq<u8>,
    last: Seq<u8>,
    written: Db,
    next: Db,
    direct: Db,
)
    requires
        db.chained(),
        key_hash == sha256(key),
        db.write(key_hash, key, value) == Ok::<Db, UpdateError>(written),
        written.write(key_hash, key, last) == Ok::<Db, UpdateError>(next),
        db.write(key_hash, key, last) == Ok::<Db, UpdateError>(direct),
    ensures
        next.contents() == direct.contents(),
        next.contents()[key] == last,
{
    lemma_write(db, key_hash, key, value, written);
    lemma_write(written, key_hash, key, last, next);
    lemma_write(db, key_hash, key, last, direct);
    assert(next.contents() =~= direct.contents());
}

/// Two writes of a key in a row, neither of which compacts: the second appends an entry
/// with its value, the serial number behind that of the first one's entry and the same next
/// hash, which takes exactly that entry out of use; the index item of the key moves from
/// the first entry to the second, and the index keeps its size. The key has to be one of
/// a single live entry, and no live entry or cached bytes may stand behind the log.
pub proof fn lemma_write_twice(
    core: Core,
    key_hash: Seq<u8>,
    key: Seq<u8>,
    value: Seq<u8>,
    last: Seq<u8>,
    rec: Option<&OpRecord>,
    rec2: Option<&OpRecord>,
    written: Db,
    next: Db,
)
    requires
        core.store.db.index.dom().finite(),
        forall|p: i64| #[trigger]
            core.store.db.cache.contains_key((core.store.db.shard_id, p)) ==> p
                < core.store.db.buffer.end,
        forall|a: (u128, i64)| #[trigger]
            core.store.db.live(a) ==> a.1 < core.store.db.buffer.end,
        forall|a: (u128, i64), b: (u128, i64)|
            #[trigger] core.store.db.live(a) && #[trigger] core.store.db.live(b) && a.0 == b.0
                && core.store.db.reads_key(a, key) && core.store.db.reads_key(b, key) ==> a == b,
        core.store.db.write(key_hash, key, value) == Ok::<Db, UpdateError>(written),
        !written.is_compactible(),
        written.write(key_hash, key, last) == Ok::<Db, UpdateError>(next),
        !next.is_compactible(),
    ensures
        ({
            let db = core.store.db;
            let k = k80_of(key_hash);
            let first = next.buffer.entries[db.buffer.end];
            let second = next.buffer.entries[written.buffer.end];
            let (mid_core, mid_res) = core.write_kv(key_hash, key, value, rec);
            let (end_core, end_res) = mid_core.write_kv(key_hash, key, last, rec2);
            &&& mid_res is Ok
            &&& mid_core.store.db == written
            &&& end_res is Ok
            &&& end_core.store.db == next
            &&& db.appended(written) == seq![first]
            &&& written.appended(next) == seq![second]
            &&& parse(first).key == key
            &&& parse(first).value == value
            &&& parse(first).serial_number == db.sn_end
            &&& parse(second) == (EntryView {
                value: last,
                serial_number: (parse(first).serial_number + 1) as u64,
                ..parse(first)
            })
            &&& parse(first).serial_number < u64::MAX
            &&& parse_dsns(second) == seq![parse(first).serial_number]
            &&& written.index.contains_key((k, db.buffer.end))
            &&& next.index == written.index.remove((k, db.buffer.end)).insert(
                (k, written.buffer.end),
                parse(second).serial_number,
            )
            &&& written.index.dom().len() == db.index.dom().len()
            &&& next.index.dom().len() == db.index.dom().len()
        }),
{
    let db = core.store.db;
    let k = k80_of(key_hash);
    let places = keyed_values(db.index, k);
    lemma_keyed_values(db.index, k);
    lemma_find_key(db, places, key);
    let old = db.find_key(places, key)->Ok_0;
    assert(db.live(old.place) && db.reads_key(old.place, key));
    let dsns = seq![old.entry().serial_number];
    let e1 = db.written(old, key, value);
    let n = (k, db.buffer.end);
    lemma_appended_reads(db, written, e1, dsns);
    lemma_numbers_one(db, written, e1, dsns);
    assert(!db.cache.contains_key((db.shard_id, n.1)));
    assert(written.read(written.shard_id, n.1) == Some(dump(e1, dsns)));
    assert(!db.live(n));
    assert(written.index.dom() =~= db.index.dom().remove(old.place).insert(n));
    let again = keyed_values(written.index, k);
    lemma_keyed_values(written.index, k);
    lemma_find_key(written, again, key);
    let old2 = written.find_key(again, key)->Ok_0;
    assert(written.live(old2.place));
    if old2.place != n {
        assert(db.live(old2.place));
        lemma_extended_reads(db, written, old2.place.1);
        assert(db.reads_key(old2.place, key));
    }
    assert(old2.bz == dump(e1, dsns));
    let dsns2 = seq![old2.entry().serial_number];
    let e2 = written.written(old2, key, last);
    lemma_appended_reads(written, next, e2, dsns2);
    lemma_numbers_one(written, next, e2, dsns2);
    assert(next.buffer.entries[n.1] == written.buffer.entries[n.1]);
    assert(next.buffer.entries[written.buffer.end] == dump(e2, dsns2));
    let m = (k, written.buffer.end);
    assert(!written.live(m)) by {
        if written.live(m) {
            assert(db.live(m));
        }
    }
    assert(next.index.dom() =~= written.index.dom().remove(n).insert(m));
}

// ---- records ----

proof fn lemma_find_prev_unchecked(
    db: Db,
    places: Seq<(u128, i64)>,
    key_hash: Seq<u8>,
    rec: Option<&OpRecord>,
)
    requires
        !db.check_rec,
    ensures
        db.find_prev(places, key_hash, rec) == db.find_prev(places, key_hash, None),
    decreases places.len(),
{
    if places.len() > 0 {
        lemma_find_prev_unchecked(db, places.skip(1), key_hash, rec);
    }
}

proof fn lemma_scan_deleted_unchecked(
    db: Db,
    places: Seq<(u128, i64)>,
    key_hash: Seq<u8>,
    key: Seq<u8>,
    rec: Option<&OpRecord>,
    found: DeleteScan,
)
    requires
        !db.check_rec,
    ensures
        db.scan_deleted(places, key_hash, key, rec, found) == db.scan_deleted(
            places,
            key_hash,
            key,
            None,
            found,
        ),
    decreases places.len(),
{
    if places.len() > 0 && db.load(places[0].1) is Ok {
        let here = Some(Located { place: places[0], bz: db.load(places[0].1)->Ok_0 });
        let rest = places.skip(1);
        lemma_scan_deleted_unchecked(db, rest, key_hash, key, rec, found);
        lemma_scan_deleted_unchecked(
            db,
            rest,
            key_hash,
            key,
            rec,
            DeleteScan { deleted: here, ..found },
        );
        lemma_scan_deleted_unchecked(
            db,
            rest,
            key_hash,
            key,
            rec,
            DeleteScan { prev: here, ..found },
        );
    }
}

proof fn lemma_compact_unchecked(store: Store, rec: Option<&OpRecord>, comp_idx: int)
    requires
        !store.db.check_rec,
    ensures
        store.compact(rec, comp_idx) == store.compact(None, comp_idx),
        store.compact(rec, comp_idx).0.db.check_rec == store.db.check_rec,
    decreases store.jobs.len(),
{
    if store.jobs.len() > 0 {
        lemma_compact_unchecked(store.return_job(), rec, comp_idx);
    }
}

proof fn lemma_settle_unchecked(core: Core, rec: Option<&OpRecord>)
    requires
        !core.store.db.check_rec,
    ensures
        core.settle(rec) == core.settle(None),
    decreases core.progress.owed_end - core.progress.owed_next,
{
    let p = core.progress;
    if p.owed_next < p.owed_end {
        lemma_compact_unchecked(core.store, rec, p.owed_next);
        let (store, res) = core.store.compact(rec, p.owed_next);
        if res is Ok {
            lemma_settle_unchecked(
                Core {
                    store,
                    progress: ProgressView { owed_next: p.owed_next + 1, ..p },
                    ..core
                },
                rec,
            );
        }
    }
}

/// Where records are not to be checked, they make no difference.
pub proof fn lemma_unchecked(
    core: Core,
    key_hash: Seq<u8>,
    key: Seq<u8>,
    value: Seq<u8>,
    rec: Option<&OpRecord>,
)
    requires
        !core.store.db.check_rec,
    ensures
        core.active_info(rec) is Ok,
        core.write_kv(key_hash, key, value, rec) == core.write_kv(key_hash, key, value, None),
        core.create_kv(key_hash, key, value, rec) == core.create_kv(key_hash, key, value, None),
        core.delete_kv(key_hash, key, rec) == core.delete_kv(key_hash, key, None),
{
    let db = core.store.db;
    let k = k80_of(key_hash);
    let places = adjacent_values(db.index, k);
    lemma_find_prev_unchecked(db, places, key_hash, rec);
    lemma_scan_deleted_unchecked(
        db,
        places,
        key_hash,
        key,
        rec,
        DeleteScan { deleted: None, prev: None },
    );
    if db.write(key_hash, key, value) is Ok {
        lemma_commit_unchecked(core, db.write(key_hash, key, value)->Ok_0, 1, rec);
    }
    assert(db.create(key_hash, key, value, rec) == db.create(key_hash, key, value, None));
    if db.create(key_hash, key, value, rec) is Ok {
        lemma_commit_unchecked(core, db.create(key_hash, key, value, rec)->Ok_0, 2, rec);
    }
}

proof fn lemma_commit_unchecked(core: Core, db: Db, count: int, rec: Option<&OpRecord>)
    requires
        !db.check_rec,
    ensures
        core.commit(db, count, rec) == core.commit(db, count, None),
{
    let owed = if db.is_compactible() {
        count
    } else {
        0
    };
    lemma_settle_unchecked(
        core.with_db(db).with_progress(
            ProgressView { owed_next: 0, owed_end: owed, ..core.progress },
        ),
        rec,
    );
}

/// A read, and an operation of a kind that does not exist, change nothing; a read ends
/// well unless a record is checked and does not agree.
pub proof fn lemma_read_changes_nothing(core: Core, op: &Op)
    requires
        op.op_type != OP_WRITE,
        op.op_type != OP_CREATE,
        op.op_type != OP_DELETE,
    ensures
        core.run_op(op).0 == core,
        op.op_type == OP_READ ==> core.run_op(op).1 == core.active_info(record_of(op)),
{
}

} // verus!
