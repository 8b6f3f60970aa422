//! The log tells which serial numbers are in use: each entry puts its own to use, and
//! takes those that it lists out of use.

use vstd::prelude::*;

use crate::bytes::k80_of;
use crate::chain::{
    lemma_create, lemma_delete, lemma_find_deleted, lemma_find_key, lemma_find_prev,
    lemma_found_well_formed, lemma_parsed_lengths, lemma_relocate, lemma_write, stands, true_job,
};
use crate::compactor::CompactJob;
use crate::entry::{
    dump, fits, lemma_dump_parse, parse, parse_dsns, serialized_len, well_formed, EntryView,
};
use crate::error::UpdateError;
use crate::hash::sha256;
use crate::indexer::{
    adjacent_values, keyed_values, lemma_adjacent_values, lemma_keyed_values,
};
use crate::model::{Db, Located};
use crate::tasks::OpRecord;

verus! {

impl Db {
    /// The entry at the live place `place` has the serial number `sn`.
    pub open spec fn numbered(self, place: (u128, i64), sn: u64) -> bool {
        self.live(place) && self.index[place] == sn
    }

    /// The serial numbers of live entries.
    pub open spec fn active(self) -> Set<u64> {
        Set::new(|sn: u64| exists|place: (u128, i64)| self.numbered(place, sn))
    }
}

/// The serial numbers in use after the entry `bz` of the log.
pub open spec fn replayed(active: Set<u64>, bz: Seq<u8>) -> Set<u64> {
    active.difference(parse_dsns(bz).to_set()).insert(parse(bz).serial_number)
}

proof fn lemma_replayed(active: Set<u64>, e: EntryView, dsns: Seq<u64>)
    requires
        fits(e, dsns),
    ensures
        replayed(active, dump(e, dsns)) == active.difference(dsns.to_set()).insert(
            e.serial_number,
        ),
{
    lemma_dump_parse(e, dsns, Seq::empty());
    assert(dump(e, dsns) + Seq::<u8>::empty() =~= dump(e, dsns));
}

/// Where one live entry is replaced, its serial number alone goes out of use.
proof fn lemma_replaced_active(
    db: Db,
    next: Db,
    old: (u128, i64),
    new: (u128, i64),
    sn: u64,
)
    requires
        db.distinct(),
        db.live(old),
        !db.live(new),
        next.index == db.index.remove(old).insert(new, sn),
    ensures
        next.active() == db.active().remove(db.index[old]).insert(sn),
{
    assert forall|s: u64| #[trigger] next.active().contains(s) == db.active().remove(
        db.index[old],
    ).insert(sn).contains(s) by {
        if next.active().contains(s) {
            let p = choose|p: (u128, i64)| next.numbered(p, s);
            if p != new {
                assert(db.live(p) && db.live(old));
                assert(db.numbered(p, s));
            }
        }
        if s == sn {
            assert(next.numbered(new, s));
        } else if db.active().contains(s) && s != db.index[old] {
            let p = choose|p: (u128, i64)| db.numbered(p, s);
            assert(next.numbered(p, s));
        }
    }
    assert(next.active() =~= db.active().remove(db.index[old]).insert(sn));
}

/// A write appends one entry to the log, which tells what it did to the serial numbers in
/// use.
pub proof fn lemma_write_logged(
    db: Db,
    key_hash: Seq<u8>,
    key: Seq<u8>,
    value: Seq<u8>,
    next: Db,
)
    requires
        db.chained(),
        db.write(key_hash, key, value) == Ok::<Db, UpdateError>(next),
    ensures
        next.active() == replayed(db.active(), next.buffer.entries[db.buffer.end]),
        parse(next.buffer.entries[db.buffer.end]).serial_number == db.sn_end,
{
    let places = keyed_values(db.index, k80_of(key_hash));
    lemma_keyed_values(db.index, k80_of(key_hash));
    lemma_find_key(db, places, key);
    let old = db.find_key(places, key)->Ok_0;
    assert(db.live(old.place));
    lemma_replace_logged(db, next, old, db.written(old, key, value));
}

proof fn lemma_replace_logged(db: Db, next: Db, old: Located, e: EntryView)
    requires
        db.sound(),
        db.distinct(),
        db.live(old.place),
        stands(db, old),
        fits(e, seq![old.entry().serial_number]),
        next.buffer == db.replace(old, e).buffer,
        next.index == db.replace(old, e).index,
    ensures
        next.active() == replayed(db.active(), next.buffer.entries[db.buffer.end]),
        parse(next.buffer.entries[db.buffer.end]).serial_number == e.serial_number,
{
    let dsns = seq![old.entry().serial_number];
    let n = (old.place.0, db.buffer.end);
    assert(db.sound_at(old.place));
    assert(!db.live(n)) by {
        if db.live(n) {
            assert(db.sound_at(n));
        }
    }
    lemma_replaced_active(db, next, old.place, n, e.serial_number);
    lemma_replayed(db.active(), e, dsns);
    lemma_dump_len(e, dsns);
    assert(dsns[0] == old.entry().serial_number);
    assert(db.active().difference(dsns.to_set()) =~= db.active().remove(db.index[old.place]));
}

/// A compaction step appends one entry to the log, which tells what it did to the serial
/// numbers in use.
pub proof fn lemma_relocate_logged(
    db: Db,
    job: CompactJob,
    key_hash: Seq<u8>,
    rec: Option<&OpRecord>,
    comp_idx: int,
    next: Db,
)
    requires
        db.chained(),
        well_formed(job.entry_bz@),
        true_job(db, job),
        key_hash == sha256(parse(job.entry_bz@).key),
        db.live((k80_of(key_hash), job.old_pos)),
        db.relocate(job, key_hash, rec, comp_idx) == Ok::<Db, UpdateError>(next),
    ensures
        next.active() == replayed(db.active(), next.buffer.entries[db.buffer.end]),
        parse(next.buffer.entries[db.buffer.end]).serial_number == db.sn_end,
{
    let old = Db::job_entry(job, key_hash);
    lemma_parsed_lengths(old.bz);
    lemma_replace_logged(db, next, old, db.moved(old.entry()));
}

/// A deletion appends one entry to the log, which tells what it did to the serial numbers
/// in use.
pub proof fn lemma_delete_logged(
    db: Db,
    key_hash: Seq<u8>,
    key: Seq<u8>,
    rec: Option<&OpRecord>,
    next: Db,
)
    requires
        db.chained(),
        key_hash == sha256(key),
        db.delete(key_hash, key, rec) == Ok::<Db, UpdateError>(next),
    ensures
        next.active() == replayed(db.active(), next.buffer.entries[db.buffer.end]),
        parse(next.buffer.entries[db.buffer.end]).serial_number == db.sn_end,
{
    let places = adjacent_values(db.index, k80_of(key_hash));
    let (deleted, prev) = db.find_deleted(places, key_hash, key, rec)->Ok_0;
    lemma_find_deleted(db, key_hash, key, rec);
    let c = db.prev_without_deleted(deleted, prev);
    let dsns = Db::deleted_sns(deleted, prev);
    assert(fits(c, dsns)) by {
        lemma_parsed_lengths(deleted.bz);
        lemma_parsed_lengths(prev.bz);
    }
    lemma_dump_len(c, dsns);
    assert(db.sound_at(deleted.place) && db.sound_at(prev.place));
    assert(deleted.place == (k80_of(key_hash), deleted.place.1));
    lemma_unlinked_active(db, next, deleted.place, prev.place, c.serial_number);
    lemma_replayed(db.active(), c, dsns);
    lemma_pair_difference(db.active(), dsns, db.index[deleted.place], db.index[prev.place]);
}

proof fn lemma_pair_difference(active: Set<u64>, dsns: Seq<u64>, a: u64, b: u64)
    requires
        dsns == seq![a, b],
    ensures
        active.difference(dsns.to_set()) == active.remove(a).remove(b),
{
    assert(dsns[0] == a && dsns[1] == b);
    assert(active.difference(dsns.to_set()) =~= active.remove(a).remove(b));
}

proof fn lemma_unlinked_active(
    db: Db,
    next: Db,
    gone: (u128, i64),
    old: (u128, i64),
    sn: u64,
)
    requires
        db.sound(),
        db.distinct(),
        db.live(gone),
        db.live(old),
        gone != old,
        next.index == db.index.remove(gone).remove(old).insert((old.0, db.buffer.end), sn),
    ensures
        next.active() == db.active().remove(db.index[gone]).remove(db.index[old]).insert(sn),
{
    let m = (old.0, db.buffer.end);
    assert(!db.live(m)) by {
        if db.live(m) {
            assert(db.sound_at(m));
        }
    }
    let mid = Db { index: db.index.remove(gone), ..db };
    lemma_removed_active(db, mid, gone);
    assert(mid.live(old) && !mid.live(m));
    lemma_replaced_active(mid, next, old, m, sn);
}

proof fn lemma_removed_active(db: Db, next: Db, gone: (u128, i64))
    requires
        db.distinct(),
        db.live(gone),
        next == (Db { index: db.index.remove(gone), ..db }),
    ensures
        next.active() == db.active().remove(db.index[gone]),
        next.distinct(),
{
    assert forall|s: u64| #[trigger] next.active().contains(s) == db.active().remove(
        db.index[gone],
    ).contains(s) by {
        if next.active().contains(s) {
            let p = choose|p: (u128, i64)| next.numbered(p, s);
            assert(db.live(p) && db.live(gone));
            assert(db.numbered(p, s));
        }
        if db.active().contains(s) && s != db.index[gone] {
            let p = choose|p: (u128, i64)| db.numbered(p, s);
            assert(next.numbered(p, s));
        }
    }
    assert(next.active() =~= db.active().remove(db.index[gone]));
    assert forall|a: (u128, i64), b: (u128, i64)|
        #[trigger] next.live(a) && #[trigger] next.live(b) && a != b implies next.hash_at(a)
        != next.hash_at(b) && next.index[a] != next.index[b] by {
        assert(db.live(a) && db.live(b));
        assert(next.load(a.1) == db.load(a.1) && next.load(b.1) == db.load(b.1)) by {
            assert(next.read(next.shard_id, a.1) == db.read(db.shard_id, a.1));
            assert(next.read(next.shard_id, b.1) == db.read(db.shard_id, b.1));
        }
    }
}

proof fn lemma_created_active(
    db: Db,
    next: Db,
    old: (u128, i64),
    n: (u128, i64),
    n_sn: u64,
    m: (u128, i64),
    m_sn: u64,
)
    requires
        db.distinct(),
        db.live(old),
        !db.live(n),
        !db.live(m),
        n != m,
        n_sn != db.index[old],
        next.index == db.index.insert(n, n_sn).remove(old).insert(m, m_sn),
    ensures
        next.active() == db.active().insert(n_sn).remove(db.index[old]).insert(m_sn),
{
    let want = db.active().insert(n_sn).remove(db.index[old]).insert(m_sn);
    assert forall|s: u64| #[trigger] next.active().contains(s) == want.contains(s) by {
        if next.active().contains(s) {
            let p = choose|p: (u128, i64)| next.numbered(p, s);
            if p != n && p != m {
                assert(db.live(p) && db.live(old));
                assert(db.numbered(p, s));
            }
        }
        if s == m_sn {
            assert(next.numbered(m, s));
        } else if s == n_sn {
            assert(next.numbered(n, s));
        } else if db.active().contains(s) && s != db.index[old] {
            let p = choose|p: (u128, i64)| db.numbered(p, s);
            assert(next.numbered(p, s));
        }
    }
    assert(next.active() =~= want);
}

/// A creation appends two entries to the log, first that of the new key, then the changed
/// one before it; they tell what it did to the serial numbers in use.
pub proof fn lemma_create_logged(
    db: Db,
    key_hash: Seq<u8>,
    key: Seq<u8>,
    value: Seq<u8>,
    rec: Option<&OpRecord>,
    next: Db,
)
    requires
        db.chained(),
        key_hash.len() == 32,
        db.create(key_hash, key, value, rec) == Ok::<Db, UpdateError>(next),
    ensures
        ({
            let first = next.buffer.entries[db.buffer.end];
            let second = next.buffer.entries[(db.buffer.end + first.len()) as i64];
            &&& next.active() == replayed(replayed(db.active(), first), second)
            &&& parse(first).serial_number == db.sn_end
            &&& parse(second).serial_number == db.sn_end + 1
        }),
{
    let places = adjacent_values(db.index, k80_of(key_hash));
    lemma_adjacent_values(db.index, k80_of(key_hash));
    lemma_find_prev(db, places, key_hash, rec);
    let prev = db.find_prev(places, key_hash, rec)->Ok_0;
    assert(db.live(prev.place));
    assert(db.sound_at(prev.place));
    let none = Seq::<u64>::empty();
    let e = db.created(prev, key, value);
    let c = db.prev_before_created(prev, key_hash);
    let dsns = seq![prev.entry().serial_number];
    lemma_dump_len(e, none);
    let n = (k80_of(key_hash), db.buffer.end);
    let m = (prev.place.0, (db.buffer.end + serialized_len(e, 0)) as i64);
    assert(!db.live(n) && !db.live(m)) by {
        if db.live(n) {
            assert(db.sound_at(n));
        }
        if db.live(m) {
            assert(db.sound_at(m));
        }
    }
    assert(fits(c, dsns)) by {
        lemma_parsed_lengths(prev.bz);
    }
    lemma_dump_len(c, dsns);
    assert(next.buffer.entries[n.1] == dump(e, none));
    assert(next.buffer.entries[m.1] == dump(c, dsns));
    lemma_created_active(db, next, prev.place, n, e.serial_number, m, c.serial_number);
    lemma_replayed(db.active(), e, none);
    let after = replayed(db.active(), dump(e, none));
    lemma_replayed(after, c, dsns);
    assert(dsns[0] == prev.entry().serial_number);
    assert(after =~= db.active().insert(e.serial_number));
    assert(after.difference(dsns.to_set()) =~= after.remove(db.index[prev.place]));
}

proof fn lemma_dump_len(e: EntryView, dsns: Seq<u64>)
    requires
        fits(e, dsns),
    ensures
        dump(e, dsns).len() == serialized_len(e, dsns.len()),
        parse(dump(e, dsns)) == e,
        serialized_len(e, dsns.len()) > 0,
{
    lemma_dump_parse(e, dsns, Seq::empty());
    assert(dump(e, dsns) + Seq::<u8>::empty() =~= dump(e, dsns));
}

// ---- stretches of the log ----

/// The entries that stand in the log from `from` up to `to`, one behind the other.
pub open spec fn log_between(entries: Map<i64, Seq<u8>>, from: int, to: int) -> Seq<Seq<u8>>
    decreases to - from,
{
    let bz = entries[from as i64];
    if entries.contains_key(from as i64) && from < from + bz.len() <= to {
        seq![bz] + log_between(entries, from + bz.len(), to)
    } else {
        Seq::empty()
    }
}

/// Number of bytes of entries.
pub open spec fn log_len(log: Seq<Seq<u8>>) -> int
    decreases log.len(),
{
    if log.len() == 0 {
        0
    } else {
        log[0].len() + log_len(log.skip(1))
    }
}

/// Number of serial numbers that entries take out of use.
pub open spec fn dsn_total(log: Seq<Seq<u8>>) -> int
    decreases log.len(),
{
    if log.len() == 0 {
        0
    } else {
        parse_dsns(log[0]).len() + dsn_total(log.skip(1))
    }
}

/// The serial numbers in use after entries of the log, one after the other.
pub open spec fn replayed_all(active: Set<u64>, log: Seq<Seq<u8>>) -> Set<u64>
    decreases log.len(),
{
    if log.len() == 0 {
        active
    } else {
        replayed_all(replayed(active, log[0]), log.skip(1))
    }
}

impl Db {
    /// The entries that were appended to the log on the way to `next`.
    pub open spec fn appended(self, next: Db) -> Seq<Seq<u8>> {
        log_between(next.buffer.entries, self.buffer.end as int, next.buffer.end as int)
    }

    /// On the way to `next` the log has grown by entries alone, one behind the other. They
    /// have the serial numbers from `sn_end` on in order, and `sn_end` has grown by their
    /// number.
    pub open spec fn numbers(self, next: Db) -> bool {
        let log = self.appended(next);
        &&& self.buffer.end <= next.buffer.end
        &&& forall|p: i64|
            p < self.buffer.end ==> (#[trigger] next.buffer.entries.contains_key(p)
                == self.buffer.entries.contains_key(p))
        &&& forall|p: i64|
            p < self.buffer.end ==> (#[trigger] next.buffer.entries[p]
                == self.buffer.entries[p])
        &&& log_len(log) == next.buffer.end - self.buffer.end
        &&& next.sn_end == self.sn_end + log.len()
        &&& forall|i: int|
            0 <= i < log.len() ==> parse(#[trigger] log[i]).serial_number == self.sn_end + i
    }

    /// The entries that were appended on the way to `next` tell how many entries are live
    /// there, and which serial numbers are in use.
    pub open spec fn tells(self, next: Db) -> bool {
        let log = self.appended(next);
        &&& next.index.dom().len() == self.index.dom().len() + log.len() - dsn_total(log)
        &&& next.active() == replayed_all(self.active(), log)
    }
}

/// Two stretches of the log, one behind the other, are one stretch.
proof fn lemma_log_joined(entries: Map<i64, Seq<u8>>, from: int, mid: int, to: int)
    requires
        from <= mid <= to,
        log_len(log_between(entries, from, mid)) == mid - from,
    ensures
        log_between(entries, from, to) == log_between(entries, from, mid) + log_between(
            entries,
            mid,
            to,
        ),
    decreases mid - from,
{
    let log = log_between(entries, from, mid);
    if from < mid {
        assert(log.len() > 0);
        let bz = entries[from as i64];
        assert(log.skip(1) =~= log_between(entries, from + bz.len(), mid));
        lemma_log_len_positive(log.skip(1));
        lemma_log_joined(entries, from + bz.len(), mid, to);
        assert(log_between(entries, from, to) =~= log + log_between(entries, mid, to));
    } else {
        assert(log_between(entries, from, to) =~= log + log_between(entries, mid, to));
    }
}

proof fn lemma_log_len_positive(log: Seq<Seq<u8>>)
    ensures
        log_len(log) >= 0,
    decreases log.len(),
{
    if log.len() > 0 {
        lemma_log_len_positive(log.skip(1));
    }
}

/// A stretch of the log depends on the entries in it alone.
proof fn lemma_log_same(entries: Map<i64, Seq<u8>>, others: Map<i64, Seq<u8>>, from: int, to: int)
    requires
        i64::MIN <= from,
        to <= i64::MAX,
        forall|p: i64|
            p < to ==> (#[trigger] others.contains_key(p) == entries.contains_key(p)),
        forall|p: i64| p < to ==> (#[trigger] others[p] == entries[p]),
    ensures
        log_between(others, from, to) == log_between(entries, from, to),
    decreases to - from,
{
    if from < to {
        let p = from as i64;
        assert(others.contains_key(p) == entries.contains_key(p) && others[p] == entries[p]);
        if entries.contains_key(p) && from < from + entries[p].len() <= to {
            lemma_log_same(entries, others, from + entries[p].len(), to);
        }
    }
}

pub(crate) proof fn lemma_joined_sums(a: Seq<Seq<u8>>, b: Seq<Seq<u8>>, active: Set<u64>)
    ensures
        log_len(a + b) == log_len(a) + log_len(b),
        dsn_total(a + b) == dsn_total(a) + dsn_total(b),
        replayed_all(active, a + b) == replayed_all(replayed_all(active, a), b),
    decreases a.len(),
{
    if a.len() > 0 {
        assert((a + b).skip(1) =~= a.skip(1) + b);
        assert((a + b)[0] == a[0]);
        lemma_joined_sums(a.skip(1), b, replayed(active, a[0]));
    } else {
        assert(a + b =~= b);
    }
}

pub(crate) proof fn lemma_appended_twice(db: Db, mid: Db, next: Db)
    requires
        db.numbers(mid),
        mid.numbers(next),
    ensures
        db.appended(next) == db.appended(mid) + mid.appended(next),
{
    lemma_log_same(
        mid.buffer.entries,
        next.buffer.entries,
        db.buffer.end as int,
        mid.buffer.end as int,
    );
    lemma_log_joined(
        next.buffer.entries,
        db.buffer.end as int,
        mid.buffer.end as int,
        next.buffer.end as int,
    );
}

/// What was numbered on to one database and from there on to another was numbered on to
/// that one.
pub proof fn lemma_numbers_twice(db: Db, mid: Db, next: Db)
    requires
        db.numbers(mid),
        mid.numbers(next),
    ensures
        db.numbers(next),
{
    let a = db.appended(mid);
    let b = mid.appended(next);
    let log = db.appended(next);
    lemma_appended_twice(db, mid, next);
    lemma_joined_sums(a, b, Set::empty());
    assert forall|p: i64| p < db.buffer.end implies (#[trigger] next.buffer.entries.contains_key(p)
        == db.buffer.entries.contains_key(p)) by {
        assert(next.buffer.entries.contains_key(p) == mid.buffer.entries.contains_key(p));
    }
    assert forall|p: i64| p < db.buffer.end implies (#[trigger] next.buffer.entries[p]
        == db.buffer.entries[p]) by {
        assert(next.buffer.entries[p] == mid.buffer.entries[p]);
    }
    assert forall|i: int| 0 <= i < log.len() implies parse(#[trigger] log[i]).serial_number
        == db.sn_end + i by {
        if i < a.len() {
            assert(log[i] == a[i]);
        } else {
            assert(log[i] == b[i - a.len()]);
        }
    }
}

/// What the log tells from one database to another and from there on to a third, it tells
/// from the first to the third.
pub proof fn lemma_tells_twice(db: Db, mid: Db, next: Db)
    requires
        db.numbers(mid),
        mid.numbers(next),
        db.tells(mid),
        mid.tells(next),
    ensures
        db.tells(next),
{
    lemma_appended_twice(db, mid, next);
    lemma_joined_sums(db.appended(mid), mid.appended(next), db.active());
}

/// Where nothing was appended, nothing was numbered, and the log tells of no change.
pub proof fn lemma_tells_nothing(db: Db, next: Db)
    requires
        next.buffer.end == db.buffer.end,
        next.buffer.entries == db.buffer.entries,
        next.sn_end == db.sn_end,
        next.index == db.index,
    ensures
        db.numbers(next),
        db.tells(next),
{
    assert forall|sn: u64| #[trigger] next.active().contains(sn) == db.active().contains(sn) by {
        if next.active().contains(sn) {
            let p = choose|p: (u128, i64)| next.numbered(p, sn);
            assert(db.numbered(p, sn));
        }
        if db.active().contains(sn) {
            let p = choose|p: (u128, i64)| db.numbered(p, sn);
            assert(next.numbered(p, sn));
        }
    }
    assert(next.active() =~= db.active());
}

/// One entry that is appended is numbered.
pub(crate) proof fn lemma_numbers_one(db: Db, next: Db, e: EntryView, dsns: Seq<u64>)
    requires
        fits(e, dsns),
        db.buffer.has_room(serialized_len(e, dsns.len())),
        next.buffer == db.buffer.append(e, dsns),
        e.serial_number == db.sn_end,
        next.sn_end == db.sn_end + 1,
    ensures
        db.numbers(next),
        db.appended(next) == seq![dump(e, dsns)],
        dsn_total(db.appended(next)) == dsns.len(),
        parse(dump(e, dsns)) == e,
        parse_dsns(dump(e, dsns)) == dsns,
{
    lemma_dump_len(e, dsns);
    lemma_dump_parse(e, dsns, Seq::empty());
    assert(dump(e, dsns) + Seq::<u8>::empty() =~= dump(e, dsns));
    lemma_log_one(next.buffer.entries, db.buffer.end, dump(e, dsns), next.buffer.end);
}

proof fn lemma_log_one(entries: Map<i64, Seq<u8>>, from: i64, bz: Seq<u8>, to: i64)
    requires
        entries.contains_key(from),
        entries[from] == bz,
        bz.len() > 0,
        to == from + bz.len(),
    ensures
        log_between(entries, from as int, to as int) == seq![bz],
        log_len(seq![bz]) == bz.len(),
        dsn_total(seq![bz]) == parse_dsns(bz).len(),
{
    assert(log_between(entries, to as int, to as int) =~= Seq::<Seq<u8>>::empty());
    assert(log_between(entries, from as int, to as int) =~= seq![bz]);
    assert(seq![bz].skip(1) =~= Seq::<Seq<u8>>::empty());
    reveal_with_fuel(log_len, 2);
    reveal_with_fuel(dsn_total, 2);
}

/// All of the entries in `log` have the version `version`.
pub open spec fn all_of_version(log: Seq<Seq<u8>>, version: i64) -> bool {
    forall|i: int| 0 <= i < log.len() ==> parse(#[trigger] log[i]).version == version
}

/// A write appends one entry, with the next serial number and the current version.
pub proof fn lemma_write_numbers(db: Db, key_hash: Seq<u8>, key: Seq<u8>, value: Seq<u8>, next: Db)
    requires
        db.write(key_hash, key, value) == Ok::<Db, UpdateError>(next),
    ensures
        db.numbers(next),
        all_of_version(db.appended(next), db.curr_version),
        db.appended(next).len() == 1,
        dsn_total(db.appended(next)) == 1,
{
    let places = keyed_values(db.index, k80_of(key_hash));
    let old = db.find_key(places, key)->Ok_0;
    lemma_numbers_one(db, next, db.written(old, key, value), seq![old.entry().serial_number]);
}

/// A creation appends two entries, with the next serial numbers and the current version.
pub proof fn lemma_create_numbers(
    db: Db,
    key_hash: Seq<u8>,
    key: Seq<u8>,
    value: Seq<u8>,
    rec: Option<&OpRecord>,
    next: Db,
)
    requires
        key_hash.len() == 32,
        db.create(key_hash, key, value, rec) == Ok::<Db, UpdateError>(next),
    ensures
        db.numbers(next),
        all_of_version(db.appended(next), db.curr_version),
        db.appended(next).len() == 2,
        dsn_total(db.appended(next)) == 1,
        db.appended(next)[0] == next.buffer.entries[db.buffer.end],
        db.appended(next)[1] == next.buffer.entries[(db.buffer.end + db.appended(
            next,
        )[0].len()) as i64],
{
    let places = adjacent_values(db.index, k80_of(key_hash));
    lemma_find_prev(db, places, key_hash, rec);
    let prev = db.find_prev(places, key_hash, rec)->Ok_0;
    let none = Seq::<u64>::empty();
    let dsns = seq![prev.entry().serial_number];
    let e = db.created(prev, key, value);
    let c = db.prev_before_created(prev, key_hash);
    let mid = Db {
        buffer: db.buffer.append(e, none),
        sn_end: (db.sn_end + 1) as u64,
        ..db
    };
    lemma_dump_len(e, none);
    assert(fits(c, dsns)) by {
        lemma_parsed_lengths(prev.bz);
    }
    lemma_dump_len(c, dsns);
    lemma_numbers_one(db, mid, e, none);
    lemma_numbers_one(mid, next, c, dsns);
    lemma_numbers_twice(db, mid, next);
    lemma_appended_twice(db, mid, next);
    lemma_joined_sums(db.appended(mid), mid.appended(next), Set::empty());
    assert(next.buffer.entries[db.buffer.end] == dump(e, none));
}

/// A deletion appends one entry, with the next serial number and the current version.
pub proof fn lemma_delete_numbers(
    db: Db,
    key_hash: Seq<u8>,
    key: Seq<u8>,
    rec: Option<&OpRecord>,
    next: Db,
)
    requires
        db.delete(key_hash, key, rec) == Ok::<Db, UpdateError>(next),
    ensures
        db.numbers(next),
        all_of_version(db.appended(next), db.curr_version),
        db.appended(next).len() == 1,
        dsn_total(db.appended(next)) == 2,
{
    let places = adjacent_values(db.index, k80_of(key_hash));
    let (deleted, prev) = db.find_deleted(places, key_hash, key, rec)->Ok_0;
    lemma_found_well_formed(db, places, key_hash, key, rec);
    let c = db.prev_without_deleted(deleted, prev);
    let dsns = Db::deleted_sns(deleted, prev);
    assert(fits(c, dsns)) by {
        lemma_parsed_lengths(deleted.bz);
        lemma_parsed_lengths(prev.bz);
    }
    lemma_numbers_one(db, next, c, dsns);
}

/// A compaction step appends one entry, with the next serial number, which else says what
/// the moved one said.
pub proof fn lemma_relocate_numbers(
    db: Db,
    job: CompactJob,
    key_hash: Seq<u8>,
    rec: Option<&OpRecord>,
    comp_idx: int,
    next: Db,
)
    requires
        well_formed(job.entry_bz@),
        db.relocate(job, key_hash, rec, comp_idx) == Ok::<Db, UpdateError>(next),
    ensures
        db.numbers(next),
        db.appended(next).len() == 1,
        dsn_total(db.appended(next)) == 1,
        parse(db.appended(next)[0]) == db.moved(parse(job.entry_bz@)),
{
    let old = Db::job_entry(job, key_hash);
    lemma_parsed_lengths(old.bz);
    lemma_numbers_one(db, next, db.moved(old.entry()), seq![old.entry().serial_number]);
}

/// One appended entry tells what it did to the serial numbers in use.
proof fn lemma_tells_one(db: Db, next: Db)
    requires
        db.appended(next).len() == 1,
        next.active() == replayed(db.active(), next.buffer.entries[db.buffer.end]),
        next.index.dom().len() == db.index.dom().len() + 1 - dsn_total(db.appended(next)),
    ensures
        db.tells(next),
{
    let log = db.appended(next);
    assert(log[0] == next.buffer.entries[db.buffer.end]);
    assert(log.skip(1) =~= Seq::<Seq<u8>>::empty());
    reveal_with_fuel(replayed_all, 2);
}

/// A write tells what it did, by the entry that it appends.
pub proof fn lemma_write_tells(db: Db, key_hash: Seq<u8>, key: Seq<u8>, value: Seq<u8>, next: Db)
    requires
        db.chained(),
        key_hash == sha256(key),
        db.write(key_hash, key, value) == Ok::<Db, UpdateError>(next),
    ensures
        db.tells(next),
{
    lemma_write(db, key_hash, key, value, next);
    lemma_write_logged(db, key_hash, key, value, next);
    lemma_write_numbers(db, key_hash, key, value, next);
    lemma_tells_one(db, next);
}

/// A creation tells what it did, by the entries that it appends.
pub proof fn lemma_create_tells(
    db: Db,
    key_hash: Seq<u8>,
    key: Seq<u8>,
    value: Seq<u8>,
    rec: Option<&OpRecord>,
    next: Db,
)
    requires
        db.chained(),
        key_hash == sha256(key),
        key_hash.len() == 32,
        db.create(key_hash, key, value, rec) == Ok::<Db, UpdateError>(next),
    ensures
        db.tells(next),
{
    lemma_create(db, key_hash, key, value, rec, next);
    lemma_create_logged(db, key_hash, key, value, rec, next);
    lemma_create_numbers(db, key_hash, key, value, rec, next);
    let log = db.appended(next);
    assert(log.skip(1).skip(1) =~= Seq::<Seq<u8>>::empty());
    assert(log.skip(1)[0] == log[1]);
    reveal_with_fuel(replayed_all, 3);
}

/// A deletion tells what it did, by the entry that it appends.
pub proof fn lemma_delete_tells(
    db: Db,
    key_hash: Seq<u8>,
    key: Seq<u8>,
    rec: Option<&OpRecord>,
    next: Db,
)
    requires
        db.chained(),
        key_hash == sha256(key),
        db.delete(key_hash, key, rec) == Ok::<Db, UpdateError>(next),
    ensures
        db.tells(next),
{
    lemma_delete(db, key_hash, key, rec, next);
    lemma_delete_logged(db, key_hash, key, rec, next);
    lemma_delete_numbers(db, key_hash, key, rec, next);
    lemma_tells_one(db, next);
}

/// A compaction step tells what it did, by the entry that it appends.
pub proof fn lemma_relocate_tells(
    db: Db,
    job: CompactJob,
    key_hash: Seq<u8>,
    rec: Option<&OpRecord>,
    comp_idx: int,
    next: Db,
)
    requires
        db.chained(),
        well_formed(job.entry_bz@),
        true_job(db, job),
        key_hash == sha256(parse(job.entry_bz@).key),
        db.live((k80_of(key_hash), job.old_pos)),
        db.relocate(job, key_hash, rec, comp_idx) == Ok::<Db, UpdateError>(next),
    ensures
        db.tells(next),
{
    lemma_relocate(db, job, key_hash, rec, comp_idx, next);
    lemma_relocate_logged(db, job, key_hash, rec, comp_idx, next);
    lemma_relocate_numbers(db, job, key_hash, rec, comp_idx, next);
    lemma_tells_one(db, next);
}

// ---- the oldest serial number in use ----

impl Db {
    /// No serial number before `sn_start` is in use, nor one from `sn_end` on.
    pub open spec fn bounded(self) -> bool {
        &&& self.sn_start <= self.sn_end
        &&& forall|sn: u64| #[trigger]
            self.active().contains(sn) ==> self.sn_start <= sn < self.sn_end
    }
}

/// Writing, creating and deleting use up serial numbers from `sn_end` on only, and
/// `sn_start` stays a bound of those in use.
pub proof fn lemma_operations_bounded(
    db: Db,
    key_hash: Seq<u8>,
    key: Seq<u8>,
    value: Seq<u8>,
    rec: Option<&OpRecord>,
)
    requires
        db.chained(),
        db.bounded(),
        key_hash == sha256(key),
        key_hash.len() == 32,
    ensures
        db.write(key_hash, key, value) matches Ok(next) ==> next.bounded() && next.sn_start
            == db.sn_start,
        db.create(key_hash, key, value, rec) matches Ok(next) ==> next.bounded() && next.sn_start
            == db.sn_start,
        db.delete(key_hash, key, rec) matches Ok(next) ==> next.bounded() && next.sn_start
            == db.sn_start,
{
    if db.write(key_hash, key, value) is Ok {
        lemma_write_logged(db, key_hash, key, value, db.write(key_hash, key, value)->Ok_0);
    }
    if db.create(key_hash, key, value, rec) is Ok {
        let next = db.create(key_hash, key, value, rec)->Ok_0;
        lemma_create_logged(db, key_hash, key, value, rec, next);
    }
    if db.delete(key_hash, key, rec) is Ok {
        lemma_delete_logged(db, key_hash, key, rec, db.delete(key_hash, key, rec)->Ok_0);
    }
}

/// Where the oldest live entry is moved, `sn_start` increases, and stays a bound of the
/// serial numbers in use.
pub proof fn lemma_relocate_bounded(
    db: Db,
    job: CompactJob,
    key_hash: Seq<u8>,
    rec: Option<&OpRecord>,
    comp_idx: int,
    next: Db,
)
    requires
        db.chained(),
        db.bounded(),
        well_formed(job.entry_bz@),
        true_job(db, job),
        key_hash == sha256(parse(job.entry_bz@).key),
        db.live((k80_of(key_hash), job.old_pos)),
        forall|sn: u64| #[trigger]
            db.active().contains(sn) ==> parse(job.entry_bz@).serial_number <= sn,
        db.relocate(job, key_hash, rec, comp_idx) == Ok::<Db, UpdateError>(next),
    ensures
        next.bounded(),
        next.sn_start > db.sn_start,
        next.sn_start == parse(job.entry_bz@).serial_number + 1,
{
    let old = Db::job_entry(job, key_hash);
    let e = db.moved(old.entry());
    let n = (old.place.0, db.buffer.end);
    assert(db.sound_at(old.place));
    assert(!db.live(n)) by {
        if db.live(n) {
            assert(db.sound_at(n));
        }
    }
    assert(db.numbered(old.place, old.entry().serial_number));
    assert(db.active().contains(old.entry().serial_number));
    lemma_replaced_active(db, next, old.place, n, e.serial_number);
}

} // verus!
