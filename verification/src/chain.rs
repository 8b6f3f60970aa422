//! The keys of a shard form one list in the order of their hashes, and the operations
//! do to its contents what they are for.

use vstd::prelude::*;

use crate::bytes::{
    bytes_before, k80_of, lemma_before_irreflexive, lemma_before_total, lemma_before_transitive,
    lemma_k80_order,
};
use crate::compactor::CompactJob;
use crate::entry::{dump, fits, lemma_dump_parse, parse, serialized_len, well_formed, EntryView};
use crate::error::UpdateError;
use crate::hash::sha256;
use crate::indexer::{
    adjacent_values, has_key, is_prev_key, keyed_values, lemma_adjacent_values,
    lemma_keyed_values,
};
use crate::model::{between, Db, DeleteScan, Located};
use crate::tasks::OpRecord;

verus! {

impl Db {
    /// A live entry stands at `place`.
    pub open spec fn live(self, place: (u128, i64)) -> bool {
        self.index.contains_key(place)
    }

    /// The entry that stands at a live place.
    pub open spec fn entry_at(self, place: (u128, i64)) -> EntryView {
        parse(self.load(place.1)->Ok_0)
    }

    /// The hash of the key of the entry at a live place.
    pub open spec fn hash_at(self, place: (u128, i64)) -> Seq<u8> {
        sha256(self.entry_at(place).key)
    }

    /// The hash that the entry at a live place names as the next one.
    pub open spec fn next_hash_at(self, place: (u128, i64)) -> Seq<u8> {
        self.entry_at(place).next_key_hash
    }

    /// The entry at a live place stands in the log, under the index key of its key and
    /// with its serial number, which has been given.
    pub open spec fn sound_at(self, place: (u128, i64)) -> bool {
        &&& 0 <= place.1 < self.buffer.end
        &&& self.load(place.1) is Ok
        &&& self.hash_at(place).len() == 32
        &&& place.0 == k80_of(self.hash_at(place))
        &&& self.index[place] == self.entry_at(place).serial_number
        &&& self.index[place] < self.sn_end
    }

    /// The index agrees with the log.
    pub open spec fn sound(self) -> bool {
        &&& self.index.dom().finite()
        &&& 0 <= self.buffer.start <= self.buffer.end
        &&& forall|p: i64| #[trigger]
            self.buffer.entries.contains_key(p) ==> self.buffer.start <= p < self.buffer.end
        &&& forall|p: i64| #[trigger]
            self.cache.contains_key((self.shard_id, p)) ==> p < self.buffer.end
        &&& forall|a: (u128, i64)| #[trigger] self.live(a) ==> self.sound_at(a)
    }

    /// Live entries differ in their keys' hashes and in their serial numbers.
    pub open spec fn distinct(self) -> bool {
        forall|a: (u128, i64), b: (u128, i64)|
            #[trigger] self.live(a) && #[trigger] self.live(b) && a != b ==> self.hash_at(a)
                != self.hash_at(b) && self.index[a] != self.index[b]
    }

    /// Each live entry names a greater hash than its own, and no live key has a hash in
    /// between.
    pub open spec fn ordered(self) -> bool {
        &&& forall|a: (u128, i64)| #[trigger]
            self.live(a) ==> bytes_before(self.hash_at(a), self.next_hash_at(a))
        &&& forall|a: (u128, i64), b: (u128, i64)|
            #[trigger] self.live(a) && #[trigger] self.live(b) ==> !between(
                self.hash_at(a),
                self.hash_at(b),
                self.next_hash_at(a),
            )
    }

    /// The entry at `a` names the key of the entry at `b` as the next one.
    pub open spec fn names(self, a: (u128, i64), b: (u128, i64)) -> bool {
        self.live(a) && self.next_hash_at(a) == self.hash_at(b)
    }

    /// No live key has a smaller hash than the key of the entry at `b`.
    pub open spec fn is_first(self, b: (u128, i64)) -> bool {
        forall|a: (u128, i64)| #[trigger]
            self.live(a) && a != b ==> bytes_before(self.hash_at(b), self.hash_at(a))
    }

    /// Each live entry but the first is named by a live entry as the next one.
    pub open spec fn linked(self) -> bool {
        forall|b: (u128, i64)| #[trigger]
            self.live(b) ==> self.is_first(b) || exists|a: (u128, i64)| self.names(a, b)
    }

    /// The live entries form one list in the order of their keys' hashes, and the index
    /// agrees with them.
    pub open spec fn chained(self) -> bool {
        self.sound() && self.distinct() && self.ordered() && self.linked()
    }

    /// The key of the entry at the live place `place` is `key`.
    pub open spec fn holds(self, place: (u128, i64), key: Seq<u8>) -> bool {
        self.live(place) && self.entry_at(place).key == key
    }

    /// The values of the live keys.
    pub open spec fn contents(self) -> Map<Seq<u8>, Seq<u8>> {
        Map::new(
            |key: Seq<u8>| exists|place: (u128, i64)| self.holds(place, key),
            |key: Seq<u8>|
                self.entry_at(choose|place: (u128, i64)| self.holds(place, key)).value,
        )
    }

    /// The hashes that the entries of the live keys name as the next ones.
    pub open spec fn links(self) -> Map<Seq<u8>, Seq<u8>> {
        Map::new(
            |key: Seq<u8>| exists|place: (u128, i64)| self.holds(place, key),
            |key: Seq<u8>| self.next_hash_at(choose|place: (u128, i64)| self.holds(place, key)),
        )
    }

    /// `next` has the log of `self`, with more at its end.
    pub open spec fn extended_by(self, next: Db) -> bool {
        &&& next.shard_id == self.shard_id
        &&& next.cache == self.cache
        &&& next.file == self.file
        &&& next.buffer.start == self.buffer.start
        &&& next.buffer.end >= self.buffer.end
        &&& forall|p: i64|
            p < self.buffer.end ==> (#[trigger] next.buffer.entries.contains_key(p)
                == self.buffer.entries.contains_key(p))
        &&& forall|p: i64|
            p < self.buffer.end ==> (#[trigger] next.buffer.entries[p]
                == self.buffer.entries[p])
    }

    /// What is live in `next` and was not live in `self` stands in what was added to the
    /// log.
    pub open spec fn revives_nothing(self, next: Db) -> bool {
        forall|p: (u128, i64)| #[trigger]
            next.live(p) ==> self.live(p) || p.1 >= self.buffer.end
    }
}

/// What stands in the log is read as before when more is added at its end.
pub proof fn lemma_extended_reads(db: Db, next: Db, pos: i64)
    requires
        db.extended_by(next),
        pos < db.buffer.end,
    ensures
        forall|shard_id: usize| #[trigger] next.read(shard_id, pos) == db.read(shard_id, pos),
        next.load(pos) == db.load(pos),
{
    assert forall|shard_id: usize| #[trigger] next.read(shard_id, pos) == db.read(
        shard_id,
        pos,
    ) by {
        assert(next.buffer.entries.contains_key(pos) == db.buffer.entries.contains_key(pos));
        assert(next.buffer.entries[pos] == db.buffer.entries[pos]);
    }
    assert(next.read(db.shard_id, pos) == db.read(db.shard_id, pos));
}

/// A log that is extended twice is extended.
pub proof fn lemma_extended_twice(db: Db, mid: Db, next: Db)
    requires
        db.extended_by(mid),
        mid.extended_by(next),
    ensures
        db.extended_by(next),
{
    assert forall|p: i64| p < db.buffer.end implies (#[trigger] next.buffer.entries.contains_key(p)
        == db.buffer.entries.contains_key(p)) by {
        assert(next.buffer.entries.contains_key(p) == mid.buffer.entries.contains_key(p));
    }
    assert forall|p: i64| p < db.buffer.end implies (#[trigger] next.buffer.entries[p]
        == db.buffer.entries[p]) by {
        assert(next.buffer.entries[p] == mid.buffer.entries[p]);
    }
}

/// An entry that was added to the log is read back from where it was added, unless other
/// bytes are cached for that place.
pub proof fn lemma_appended_reads(db: Db, next: Db, e: EntryView, dsns: Seq<u64>)
    requires
        fits(e, dsns),
        db.buffer.has_room(serialized_len(e, dsns.len())),
        next.buffer == db.buffer.append(e, dsns),
        next.cache == db.cache,
        next.file == db.file,
        next.shard_id == db.shard_id,
    ensures
        db.extended_by(next),
        next.buffer.end > db.buffer.end,
        forall|shard_id: usize|
            !db.cache.contains_key((shard_id, db.buffer.end)) ==> #[trigger] next.read(
                shard_id,
                db.buffer.end,
            ) == Some(dump(e, dsns)),
        well_formed(dump(e, dsns)),
        parse(dump(e, dsns)) == e,
{
    lemma_dump_parse(e, dsns, Seq::empty());
    assert(dump(e, dsns) + Seq::<u8>::empty() =~= dump(e, dsns));
}

/// The parts of a parsed entry have lengths that can be written again.
pub(crate) proof fn lemma_parsed_lengths(b: Seq<u8>)
    requires
        well_formed(b),
    ensures
        parse(b).key.len() <= 0xff,
        parse(b).value.len() <= 0xff_ffff,
        parse(b).next_key_hash.len() == 32,
{
}

/// In a list without repeated keys, the contents give each live key its entry's value.
pub proof fn lemma_contents(db: Db, place: (u128, i64), key: Seq<u8>)
    requires
        db.distinct(),
        db.holds(place, key),
    ensures
        db.contents().contains_key(key),
        db.contents()[key] == db.entry_at(place).value,
{
    let other = choose|other: (u128, i64)| db.holds(other, key);
    assert(db.holds(other, key));
    if other != place {
        assert(db.live(other) && db.live(place));
        assert(db.hash_at(other) == db.hash_at(place));
    }
}

/// In a list without repeated keys, the links give each live key the hash that its entry
/// names.
pub proof fn lemma_links(db: Db, place: (u128, i64), key: Seq<u8>)
    requires
        db.distinct(),
        db.holds(place, key),
    ensures
        db.links().contains_key(key),
        db.links()[key] == db.next_hash_at(place),
{
    let other = choose|other: (u128, i64)| db.holds(other, key);
    assert(db.holds(other, key));
    if other != place {
        assert(db.live(other) && db.live(place));
        assert(db.hash_at(other) == db.hash_at(place));
    }
}

/// What each live entry names, and that each key of `want` is live, tells the links.
proof fn lemma_links_are(db: Db, want: Map<Seq<u8>, Seq<u8>>)
    requires
        db.distinct(),
        forall|p: (u128, i64)| #[trigger]
            db.live(p) ==> want.contains_key(db.entry_at(p).key) && want[db.entry_at(p).key]
                == db.next_hash_at(p),
        forall|k: Seq<u8>| #[trigger]
            want.contains_key(k) ==> exists|p: (u128, i64)| db.holds(p, k),
    ensures
        db.links() == want,
{
    assert forall|k: Seq<u8>| #[trigger] db.links().contains_key(k) == want.contains_key(k) && (
    want.contains_key(k) ==> db.links()[k] == want[k]) by {
        if db.links().contains_key(k) {
            let p = choose|p: (u128, i64)| db.holds(p, k);
            assert(db.live(p));
            lemma_links(db, p, k);
        }
    }
    assert(db.links() =~= want);
}

/// A shard with one entry, which names a greater hash than its own, is a list, and so is
/// one with none.
pub proof fn lemma_start(db: Db)
    requires
        db.sound(),
        forall|a: (u128, i64), b: (u128, i64)|
            #[trigger] db.live(a) && #[trigger] db.live(b) ==> a == b,
        forall|a: (u128, i64)| #[trigger]
            db.live(a) ==> bytes_before(db.hash_at(a), db.next_hash_at(a)),
    ensures
        db.chained(),
{
    assert forall|a: (u128, i64), b: (u128, i64)|
        #[trigger] db.live(a) && #[trigger] db.live(b) implies !between(
        db.hash_at(a),
        db.hash_at(b),
        db.next_hash_at(a),
    ) by {
        lemma_before_irreflexive(db.hash_at(a));
    }
}

// ---- what the searches find ----

/// An entry that is found was read at the place where it was found.
pub open spec fn stands(db: Db, found: Located) -> bool {
    db.load(found.place.1) == Ok::<Seq<u8>, UpdateError>(found.bz)
}

/// Each of `places` is live.
pub open spec fn all_live(db: Db, places: Seq<(u128, i64)>) -> bool {
    forall|i: int| 0 <= i < places.len() ==> db.live(#[trigger] places[i])
}

proof fn lemma_all_live(db: Db, places: Seq<(u128, i64)>)
    requires
        forall|place: (u128, i64)| #[trigger] places.contains(place) ==> db.live(place),
    ensures
        all_live(db, places),
{
    assert forall|i: int| 0 <= i < places.len() implies db.live(#[trigger] places[i]) by {
        assert(places.contains(places[i]));
    }
}

pub(crate) proof fn lemma_find_key(db: Db, places: Seq<(u128, i64)>, key: Seq<u8>)
    ensures
        db.find_key(places, key) matches Ok(old) ==> places.contains(old.place) && stands(db, old)
            && well_formed(old.bz) && old.entry().key == key,
        (db.sound() && all_live(db, places) && exists|i: int|
            0 <= i < places.len() && db.entry_at(#[trigger] places[i]).key == key)
            ==> db.find_key(places, key) is Ok,
        (db.sound() && all_live(db, places) && forall|i: int|
            0 <= i < places.len() ==> db.entry_at(#[trigger] places[i]).key != key)
            ==> db.find_key(places, key) == Err::<Located, UpdateError>(
            UpdateError::WriteToNonExistKey,
        ),
    decreases places.len(),
{
    if places.len() > 0 {
        let rest = places.skip(1);
        lemma_find_key(db, rest, key);
        assert forall|place: (u128, i64)| rest.contains(place) implies places.contains(place) by {
            let i = choose|i: int| 0 <= i < rest.len() && rest[i] == place;
            assert(places[i + 1] == place);
        }
        assert(places.contains(places[0]));
        assert forall|i: int| 0 <= i < rest.len() implies #[trigger] rest[i] == places[i + 1] by {}
        if db.sound() && all_live(db, places) {
            assert(db.live(places[0]));
            assert(db.sound_at(places[0]));
            if exists|i: int|
                0 <= i < places.len() && db.entry_at(#[trigger] places[i]).key == key {
                let i = choose|i: int|
                    0 <= i < places.len() && db.entry_at(#[trigger] places[i]).key == key;
                if i > 0 {
                    assert(db.entry_at(rest[i - 1]).key == key);
                }
            }
        }
    }
}

// ---- replacing an entry ----

/// `next` is `db` with the entry `e` in the place of `old`.
spec fn replaced(db: Db, next: Db, old: Located, e: EntryView) -> bool {
    let r = db.replace(old, e);
    &&& next.shard_id == db.shard_id
    &&& next.cache == db.cache
    &&& next.file == db.file
    &&& next.buffer == r.buffer
    &&& next.index == r.index
    &&& next.sn_end == r.sn_end
}

/// `p`, with `old` for `new`.
spec fn swapped(p: (u128, i64), new: (u128, i64), old: (u128, i64)) -> (u128, i64) {
    if p == new {
        old
    } else {
        p
    }
}

/// An entry can be replaced by one of the same key that names the same next key.
proof fn lemma_replace(db: Db, next: Db, old: Located, e: EntryView)
    requires
        db.chained(),
        db.live(old.place),
        stands(db, old),
        replaced(db, next, old, e),
        e.key == old.entry().key,
        e.next_key_hash == old.entry().next_key_hash,
        e.serial_number == db.sn_end,
        fits(e, seq![old.entry().serial_number]),
        db.sn_end < u64::MAX,
        db.buffer.has_room(serialized_len(e, 1)),
    ensures
        next.chained(),
        next.contents() == db.contents().insert(e.key, e.value),
        db.contents().contains_key(e.key),
        db.contents()[e.key] == old.entry().value,
        next.index.dom().len() == db.index.dom().len(),
        db.extended_by(next),
        db.revives_nothing(next),
{
    let n = (old.place.0, db.buffer.end);
    let dsns = seq![old.entry().serial_number];
    lemma_appended_reads(db, next, e, dsns);
    assert(db.sound_at(old.place));
    assert(!db.cache.contains_key((db.shard_id, n.1)));
    assert(next.read(next.shard_id, n.1) == Some(dump(e, dsns)));
    assert(next.entry_at(n) == e);
    assert(!db.live(n)) by {
        if db.live(n) {
            assert(db.sound_at(n));
        }
    }
    assert forall|p: (u128, i64)| #[trigger] next.live(p) == ((db.live(p) && p != old.place) || p
        == n) by {}
    assert forall|p: (u128, i64)| #[trigger] next.live(p) implies {
        &&& db.live(swapped(p, n, old.place))
        &&& next.hash_at(p) == db.hash_at(swapped(p, n, old.place))
        &&& next.next_hash_at(p) == db.next_hash_at(swapped(p, n, old.place))
        &&& next.sound_at(p)
        &&& p != n ==> next.entry_at(p) == db.entry_at(p) && next.index[p] == db.index[p]
    } by {
        if p != n {
            assert(db.sound_at(p));
            lemma_extended_reads(db, next, p.1);
        }
    }
    assert(next.index.dom() =~= db.index.dom().remove(old.place).insert(n));
    assert(next.sound());
    assert(next.distinct()) by {
        assert forall|a: (u128, i64), b: (u128, i64)|
            #[trigger] next.live(a) && #[trigger] next.live(b) && a != b implies next.hash_at(a)
            != next.hash_at(b) && next.index[a] != next.index[b] by {
            let a0 = swapped(a, n, old.place);
            let b0 = swapped(b, n, old.place);
            assert(db.live(a0) && db.live(b0) && a0 != b0);
            assert(db.sound_at(swapped(a, n, old.place)) && db.sound_at(swapped(b, n, old.place)));
        }
    }
    assert(next.ordered()) by {
        assert forall|a: (u128, i64)| #[trigger] next.live(a) implies bytes_before(
            next.hash_at(a),
            next.next_hash_at(a),
        ) by {
            assert(db.live(swapped(a, n, old.place)));
        }
        assert forall|a: (u128, i64), b: (u128, i64)|
            #[trigger] next.live(a) && #[trigger] next.live(b) implies !between(
            next.hash_at(a),
            next.hash_at(b),
            next.next_hash_at(a),
        ) by {
            assert(db.live(swapped(a, n, old.place)) && db.live(swapped(b, n, old.place)));
        }
    }
    assert(next.linked()) by {
        assert forall|b: (u128, i64)| #[trigger] next.live(b) implies next.is_first(b) || exists|
            a: (u128, i64),
        | next.names(a, b) by {
            assert(db.live(swapped(b, n, old.place)));
            if db.is_first(swapped(b, n, old.place)) {
                assert forall|a: (u128, i64)| #[trigger] next.live(a) && a != b implies
                    bytes_before(next.hash_at(b), next.hash_at(a)) by {
                    let a0 = swapped(a, n, old.place);
                    assert(db.live(a0) && a0 != swapped(b, n, old.place));
                }
            } else {
                let b0 = swapped(b, n, old.place);
                let a = choose|a: (u128, i64)| db.names(a, b0);
                let a1 = if a == old.place {
                    n
                } else {
                    a
                };
                assert(next.live(a1) && swapped(a1, n, old.place) == a);
                assert(next.names(a1, b));
            }
        }
    }
    assert(db.holds(old.place, e.key));
    lemma_contents(db, old.place, e.key);
    let want = db.contents().insert(e.key, e.value);
    assert forall|k: Seq<u8>| #[trigger] next.contents().contains_key(k) == want.contains_key(k)
        && (want.contains_key(k) ==> next.contents()[k] == want[k]) by {
        if next.contents().contains_key(k) {
            let p = choose|p: (u128, i64)| next.holds(p, k);
            assert(next.live(p));
            if p != n {
                assert(db.holds(p, k));
                lemma_contents(db, p, k);
            }
        }
        if k == e.key {
            assert(next.live(n));
            assert(next.holds(n, k));
            lemma_contents(next, n, k);
        } else if want.contains_key(k) {
            let p = choose|p: (u128, i64)| db.holds(p, k);
            assert(db.live(p));
            assert(p != old.place);
            assert(next.live(p));
            assert(next.holds(p, k));
            lemma_contents(db, p, k);
            lemma_contents(next, p, k);
        }
    }
    assert(next.contents() =~= want);
}

/// Where an entry is replaced by one of the same key that names the same next key, the
/// links stay the same.
proof fn lemma_replace_links(db: Db, next: Db, old: Located, e: EntryView)
    requires
        db.sound(),
        db.distinct(),
        next.distinct(),
        db.live(old.place),
        stands(db, old),
        replaced(db, next, old, e),
        e.key == old.entry().key,
        e.next_key_hash == old.entry().next_key_hash,
        fits(e, seq![old.entry().serial_number]),
        db.buffer.has_room(serialized_len(e, 1)),
    ensures
        next.links() == db.links(),
{
    let n = (old.place.0, db.buffer.end);
    let dsns = seq![old.entry().serial_number];
    lemma_appended_reads(db, next, e, dsns);
    assert(!db.cache.contains_key((db.shard_id, n.1)));
    assert(next.read(next.shard_id, n.1) == Some(dump(e, dsns)));
    assert(next.entry_at(n) == e);
    assert forall|p: (u128, i64)| #[trigger] next.live(p) implies db.links().contains_key(
        next.entry_at(p).key,
    ) && db.links()[next.entry_at(p).key] == next.next_hash_at(p) by {
        let p0 = swapped(p, n, old.place);
        assert(db.live(p0));
        if p != n {
            assert(db.sound_at(p));
            lemma_extended_reads(db, next, p.1);
        }
        assert(db.holds(p0, next.entry_at(p).key));
        lemma_links(db, p0, next.entry_at(p).key);
    }
    assert forall|k: Seq<u8>| #[trigger] db.links().contains_key(k) implies exists|
        p: (u128, i64),
    | next.holds(p, k) by {
        let p = choose|p: (u128, i64)| db.holds(p, k);
        assert(db.live(p));
        if p == old.place {
            assert(next.holds(n, k));
        } else {
            assert(db.sound_at(p));
            lemma_extended_reads(db, next, p.1);
            assert(next.holds(p, k));
        }
    }
    lemma_links_are(next, db.links());
}

/// Writing a key changes its value and nothing else: the entries stay one list, the
/// contents change at that key alone, which was there before, and each entry names the
/// same next key.
pub proof fn lemma_write(db: Db, key_hash: Seq<u8>, key: Seq<u8>, value: Seq<u8>, next: Db)
    requires
        db.chained(),
        key_hash == sha256(key),
        db.write(key_hash, key, value) == Ok::<Db, UpdateError>(next),
    ensures
        next.chained(),
        db.contents().contains_key(key),
        next.contents() == db.contents().insert(key, value),
        next.links() == db.links(),
        next.index.dom().len() == db.index.dom().len(),
        next.sn_end == db.sn_end + 1,
        db.extended_by(next),
        db.revives_nothing(next),
{
    let places = keyed_values(db.index, k80_of(key_hash));
    lemma_keyed_values(db.index, k80_of(key_hash));
    lemma_find_key(db, places, key);
    let old = db.find_key(places, key)->Ok_0;
    assert(db.live(old.place));
    lemma_replace(db, next, old, db.written(old, key, value));
    lemma_replace_links(db, next, old, db.written(old, key, value));
}

/// A key that is there can be written, as far as its new entry has room; a key that is
/// not there cannot.
pub proof fn lemma_write_succeeds(db: Db, key_hash: Seq<u8>, key: Seq<u8>, value: Seq<u8>)
    requires
        db.chained(),
        key_hash == sha256(key),
    ensures
        !db.contents().contains_key(key) ==> db.write(key_hash, key, value) == Err::<
            Db,
            UpdateError,
        >(UpdateError::WriteToNonExistKey),
        db.contents().contains_key(key) ==> (db.write(key_hash, key, value) is Ok <==> value.len()
            <= 0xff_ffff && db.room(
            1,
            serialized_len(db.entry(key, value, Seq::empty(), 0), 1),
        ) is Ok),
{
    let k = k80_of(key_hash);
    let places = keyed_values(db.index, k);
    lemma_keyed_values(db.index, k);
    lemma_all_live(db, places);
    lemma_find_key(db, places, key);
    if db.contents().contains_key(key) {
        let p = choose|p: (u128, i64)| db.holds(p, key);
        assert(db.live(p));
        assert(db.sound_at(p));
        assert(places.contains(p));
        let i = choose|i: int| 0 <= i < places.len() && places[i] == p;
        assert(db.entry_at(places[i]).key == key);
    } else {
        assert forall|i: int| 0 <= i < places.len() implies db.entry_at(#[trigger] places[i]).key
            != key by {
            if db.entry_at(places[i]).key == key {
                assert(db.holds(places[i], key));
            }
        }
    }
}

// ---- adding a key ----

pub(crate) proof fn lemma_find_prev(
    db: Db,
    places: Seq<(u128, i64)>,
    key_hash: Seq<u8>,
    rec: Option<&OpRecord>,
)
    ensures
        db.find_prev(places, key_hash, rec) matches Ok(prev) ==> places.contains(prev.place)
            && stands(db, prev) && well_formed(prev.bz) && between(
            sha256(prev.entry().key),
            key_hash,
            prev.entry().next_key_hash,
        ),
        (db.sound() && all_live(db, places) && !db.check_rec && exists|i: int|
            0 <= i < places.len() && between(
                db.hash_at(#[trigger] places[i]),
                key_hash,
                db.next_hash_at(places[i]),
            )) ==> db.find_prev(places, key_hash, rec) is Ok,
        (db.sound() && all_live(db, places) && forall|i: int|
            0 <= i < places.len() ==> !between(
                db.hash_at(#[trigger] places[i]),
                key_hash,
                db.next_hash_at(places[i]),
            )) ==> db.find_prev(places, key_hash, rec) == Err::<Located, UpdateError>(
            UpdateError::PrevKeyNotFound,
        ),
    decreases places.len(),
{
    if places.len() > 0 {
        let rest = places.skip(1);
        lemma_find_prev(db, rest, key_hash, rec);
        assert forall|place: (u128, i64)| rest.contains(place) implies places.contains(place) by {
            let i = choose|i: int| 0 <= i < rest.len() && rest[i] == place;
            assert(places[i + 1] == place);
        }
        assert(places.contains(places[0]));
        assert forall|i: int| 0 <= i < rest.len() implies #[trigger] rest[i] == places[i + 1] by {}
        if db.sound() && all_live(db, places) {
            assert(db.live(places[0]));
            assert(db.sound_at(places[0]));
            if exists|i: int|
                0 <= i < places.len() && between(
                    db.hash_at(#[trigger] places[i]),
                    key_hash,
                    db.next_hash_at(places[i]),
                ) {
                let i = choose|i: int|
                    0 <= i < places.len() && between(
                        db.hash_at(#[trigger] places[i]),
                        key_hash,
                        db.next_hash_at(places[i]),
                    );
                if i > 0 {
                    let p = rest[i - 1];
                    assert(between(db.hash_at(p), key_hash, db.next_hash_at(p)));
                }
            }
        }
    }
}

/// A key whose hash lies between that of a live entry and the one that it names is not
/// there yet, and no other live entry lies around that hash.
proof fn lemma_gap(db: Db, prev: (u128, i64), key_hash: Seq<u8>, p: (u128, i64))
    requires
        db.distinct(),
        db.ordered(),
        db.live(prev),
        between(db.hash_at(prev), key_hash, db.next_hash_at(prev)),
        db.live(p),
    ensures
        db.hash_at(p) != key_hash,
        p != prev ==> !between(db.hash_at(p), key_hash, db.next_hash_at(p)),
{
    let h = db.hash_at(p);
    let h0 = db.hash_at(prev);
    if p != prev && between(h, key_hash, db.next_hash_at(p)) {
        lemma_before_total(h, h0);
        if bytes_before(h, h0) {
            lemma_before_transitive(h0, key_hash, db.next_hash_at(p));
            assert(between(h, h0, db.next_hash_at(p)));
        } else {
            lemma_before_transitive(h, key_hash, db.next_hash_at(prev));
            assert(between(h0, h, db.next_hash_at(prev)));
        }
    }
}

proof fn lemma_insert(
    db: Db,
    next: Db,
    prev: Located,
    key_hash: Seq<u8>,
    key: Seq<u8>,
    value: Seq<u8>,
)
    requires
        db.chained(),
        db.live(prev.place),
        stands(db, prev),
        well_formed(prev.bz),
        key_hash == sha256(key),
        key_hash.len() == 32,
        between(sha256(prev.entry().key), key_hash, prev.entry().next_key_hash),
        next == db.insert(prev, key_hash, key, value),
        fits(db.created(prev, key, value), Seq::empty()),
        db.room(
            2,
            serialized_len(db.created(prev, key, value), 0) + serialized_len(
                db.prev_before_created(prev, key_hash),
                1,
            ),
        ) is Ok,
    ensures
        next.chained(),
        !db.contents().contains_key(key),
        next.contents() == db.contents().insert(key, value),
        next.index.dom().len() == db.index.dom().len() + 1,
        db.extended_by(next),
        db.revives_nothing(next),
{
    let e = db.created(prev, key, value);
    let c = db.prev_before_created(prev, key_hash);
    let dsns = seq![prev.entry().serial_number];
    let mid = Db { buffer: db.buffer.append(e, Seq::empty()), ..db };
    let old = prev.place;
    let n = (k80_of(key_hash), db.buffer.end);
    let m = (old.0, mid.buffer.end);
    lemma_appended_reads(db, mid, e, Seq::empty());
    lemma_appended_reads(mid, next, c, dsns);
    assert(db.sound_at(old));
    assert(!db.cache.contains_key((db.shard_id, n.1)));
    assert(!db.cache.contains_key((db.shard_id, m.1)));
    assert(next.read(next.shard_id, m.1) == Some(dump(c, dsns)));
    assert(mid.read(next.shard_id, n.1) == Some(dump(e, Seq::empty())));
    lemma_extended_reads(mid, next, n.1);
    assert(next.entry_at(n) == e && next.entry_at(m) == c);
    lemma_extended_twice(db, mid, next);
    assert(!db.live(n) && !db.live(m)) by {
        if db.live(n) {
            assert(db.sound_at(n));
        }
        if db.live(m) {
            assert(db.sound_at(m));
        }
    }
    assert forall|p: (u128, i64)| #[trigger] next.live(p) == ((db.live(p) && p != old) || p == n
        || p == m) by {}
    assert forall|p: (u128, i64)| #[trigger] next.live(p) && p != n implies {
        &&& db.live(swapped(p, m, old))
        &&& next.hash_at(p) == db.hash_at(swapped(p, m, old))
        &&& next.entry_at(p).value == db.entry_at(swapped(p, m, old)).value
        &&& next.entry_at(p).key == db.entry_at(swapped(p, m, old)).key
        &&& p != m ==> next.entry_at(p) == db.entry_at(p) && next.index[p] == db.index[p]
    } by {
        if p != m {
            assert(db.sound_at(p));
            lemma_extended_reads(db, next, p.1);
        }
    }
    assert forall|p: (u128, i64)| #[trigger] next.live(p) implies next.sound_at(p) by {
        if p != n && p != m {
            assert(db.sound_at(p));
            lemma_extended_reads(db, next, p.1);
        }
    }
    assert(next.index.dom() =~= db.index.dom().insert(n).remove(old).insert(m));
    assert(next.sound());
    assert(next.hash_at(n) == key_hash && next.next_hash_at(n) == db.next_hash_at(old));
    assert(next.hash_at(m) == db.hash_at(old) && next.next_hash_at(m) == key_hash);
    assert(next.distinct()) by {
        assert forall|a: (u128, i64), b: (u128, i64)|
            #[trigger] next.live(a) && #[trigger] next.live(b) && a != b implies next.hash_at(a)
            != next.hash_at(b) && next.index[a] != next.index[b] by {
            if a != n {
                assert(db.live(swapped(a, m, old)));
                assert(db.sound_at(swapped(a, m, old)));
                lemma_gap(db, old, key_hash, swapped(a, m, old));
            }
            if b != n {
                assert(db.live(swapped(b, m, old)));
                assert(db.sound_at(swapped(b, m, old)));
                lemma_gap(db, old, key_hash, swapped(b, m, old));
            }
        }
    }
    assert(next.ordered()) by {
        assert forall|a: (u128, i64)| #[trigger] next.live(a) implies bytes_before(
            next.hash_at(a),
            next.next_hash_at(a),
        ) by {
            if a != n && a != m {
                assert(db.live(a));
            }
        }
        assert forall|a: (u128, i64), b: (u128, i64)|
            #[trigger] next.live(a) && #[trigger] next.live(b) implies !between(
            next.hash_at(a),
            next.hash_at(b),
            next.next_hash_at(a),
        ) by {
            lemma_before_irreflexive(next.hash_at(b));
            let h = next.hash_at(b);
            if b == n {
                if a != n && a != m {
                    lemma_gap(db, old, key_hash, a);
                }
            } else {
                let b0 = swapped(b, m, old);
                assert(db.live(b0));
                assert(!between(db.hash_at(old), h, db.next_hash_at(old)));
                if a == n {
                    if bytes_before(key_hash, h) {
                        lemma_before_transitive(db.hash_at(old), key_hash, h);
                    }
                } else if a == m {
                    if bytes_before(h, key_hash) {
                        lemma_before_transitive(h, key_hash, db.next_hash_at(old));
                    }
                } else {
                    assert(db.live(a));
                }
            }
        }
    }
    assert(next.linked()) by {
        assert forall|b: (u128, i64)| #[trigger] next.live(b) implies next.is_first(b) || exists|
            a: (u128, i64),
        | next.names(a, b) by {
            if b == n {
                assert(next.live(m));
                assert(next.names(m, n));
            } else {
                let b0 = swapped(b, m, old);
                assert(db.live(b0));
                if db.is_first(b0) {
                    assert forall|a: (u128, i64)| #[trigger] next.live(a) && a != b implies
                        bytes_before(next.hash_at(b), next.hash_at(a)) by {
                        if a == n {
                            if b0 != old {
                                lemma_before_transitive(db.hash_at(b0), db.hash_at(old), key_hash);
                            }
                        } else {
                            assert(db.live(swapped(a, m, old)));
                        }
                    }
                } else {
                    let a = choose|a: (u128, i64)| db.names(a, b0);
                    if a == old {
                        assert(next.live(n));
                        assert(next.names(n, b));
                    } else {
                        assert(next.live(a));
                        assert(next.names(a, b));
                    }
                }
            }
        }
    }
    assert(!db.contents().contains_key(key)) by {
        if db.contents().contains_key(key) {
            let p = choose|p: (u128, i64)| db.holds(p, key);
            assert(db.live(p));
            lemma_gap(db, old, key_hash, p);
        }
    }
    let want = db.contents().insert(key, value);
    assert forall|k: Seq<u8>| #[trigger] next.contents().contains_key(k) == want.contains_key(k)
        && (want.contains_key(k) ==> next.contents()[k] == want[k]) by {
        if next.contents().contains_key(k) {
            let p = choose|p: (u128, i64)| next.holds(p, k);
            assert(next.live(p));
            if p != n {
                assert(db.holds(swapped(p, m, old), k));
                lemma_contents(db, swapped(p, m, old), k);
            }
        }
        if k == key {
            assert(next.live(n));
            assert(next.holds(n, k));
            lemma_contents(next, n, k);
        } else if want.contains_key(k) {
            let p = choose|p: (u128, i64)| db.holds(p, k);
            assert(db.live(p));
            let p1 = if p == old {
                m
            } else {
                p
            };
            assert(next.live(p1) && swapped(p1, m, old) == p);
            assert(next.holds(p1, k));
            lemma_contents(db, p, k);
            lemma_contents(next, p1, k);
        }
    }
    assert(next.contents() =~= want);
}

proof fn lemma_insert_links(
    db: Db,
    next: Db,
    prev: Located,
    key_hash: Seq<u8>,
    key: Seq<u8>,
    value: Seq<u8>,
)
    requires
        db.sound(),
        db.distinct(),
        next.distinct(),
        db.live(prev.place),
        stands(db, prev),
        well_formed(prev.bz),
        key_hash.len() == 32,
        !db.contents().contains_key(key),
        next == db.insert(prev, key_hash, key, value),
        fits(db.created(prev, key, value), Seq::empty()),
        db.room(
            2,
            serialized_len(db.created(prev, key, value), 0) + serialized_len(
                db.prev_before_created(prev, key_hash),
                1,
            ),
        ) is Ok,
    ensures
        db.links().contains_key(prev.entry().key),
        db.links()[prev.entry().key] == prev.entry().next_key_hash,
        next.links() == db.links().insert(key, prev.entry().next_key_hash).insert(
            prev.entry().key,
            key_hash,
        ),
{
    let e = db.created(prev, key, value);
    let c = db.prev_before_created(prev, key_hash);
    let dsns = seq![prev.entry().serial_number];
    let mid = Db { buffer: db.buffer.append(e, Seq::empty()), ..db };
    let old = prev.place;
    let prev_key = prev.entry().key;
    let n = (k80_of(key_hash), db.buffer.end);
    let m = (old.0, mid.buffer.end);
    assert(fits(c, dsns)) by {
        lemma_parsed_lengths(prev.bz);
    }
    lemma_appended_reads(db, mid, e, Seq::empty());
    lemma_appended_reads(mid, next, c, dsns);
    lemma_extended_twice(db, mid, next);
    assert(db.sound_at(old));
    assert(!db.cache.contains_key((db.shard_id, n.1)));
    assert(!db.cache.contains_key((db.shard_id, m.1)));
    assert(next.read(next.shard_id, m.1) == Some(dump(c, dsns)));
    assert(mid.read(next.shard_id, n.1) == Some(dump(e, Seq::empty())));
    lemma_extended_reads(mid, next, n.1);
    assert(next.entry_at(n) == e && next.entry_at(m) == c);
    assert(db.holds(old, prev_key));
    lemma_links(db, old, prev_key);
    lemma_contents(db, old, prev_key);
    let want = db.links().insert(key, prev.entry().next_key_hash).insert(prev_key, key_hash);
    assert forall|p: (u128, i64)| #[trigger] next.live(p) implies want.contains_key(
        next.entry_at(p).key,
    ) && want[next.entry_at(p).key] == next.next_hash_at(p) by {
        if p != n && p != m {
            assert(db.live(p) && p != old);
            assert(db.sound_at(p));
            lemma_extended_reads(db, next, p.1);
            let k = next.entry_at(p).key;
            assert(db.holds(p, k));
            lemma_links(db, p, k);
            lemma_contents(db, p, k);
            assert(db.hash_at(p) != db.hash_at(old));
        }
    }
    assert forall|k: Seq<u8>| #[trigger] want.contains_key(k) implies exists|p: (u128, i64)|
        next.holds(p, k) by {
        if k == prev_key {
            assert(next.holds(m, k));
        } else if k == key {
            assert(next.holds(n, k));
        } else {
            let p = choose|p: (u128, i64)| db.holds(p, k);
            assert(db.live(p));
            assert(db.sound_at(p));
            lemma_extended_reads(db, next, p.1);
            assert(next.holds(p, k));
        }
    }
    lemma_links_are(next, want);
}

/// The links `after` are the links `before`, with `key` put behind the one key around
/// whose entry its hash lies: that key names the new one, which names what that key named.
pub open spec fn linked_in(
    before: Map<Seq<u8>, Seq<u8>>,
    after: Map<Seq<u8>, Seq<u8>>,
    key: Seq<u8>,
    prev: Seq<u8>,
) -> bool {
    &&& before.contains_key(prev)
    &&& between(sha256(prev), sha256(key), before[prev])
    &&& after == before.insert(key, before[prev]).insert(prev, sha256(key))
}

/// The links `after` are the links `before` without `key`: the key that named it names
/// what it named.
pub open spec fn linked_out(
    before: Map<Seq<u8>, Seq<u8>>,
    after: Map<Seq<u8>, Seq<u8>>,
    key: Seq<u8>,
    prev: Seq<u8>,
) -> bool {
    &&& prev != key
    &&& before.contains_key(key)
    &&& before.contains_key(prev)
    &&& before[prev] == sha256(key)
    &&& after == before.remove(key).insert(prev, before[key])
}

/// Creating a key adds it and changes nothing else: the entries stay one list, and the
/// contents change at that key alone, which was not there before. Of the entries that
/// were there, the one before the new key alone names another next key.
pub proof fn lemma_create(
    db: Db,
    key_hash: Seq<u8>,
    key: Seq<u8>,
    value: Seq<u8>,
    rec: Option<&OpRecord>,
    next: Db,
)
    requires
        db.chained(),
        key_hash == sha256(key),
        key_hash.len() == 32,
        db.create(key_hash, key, value, rec) == Ok::<Db, UpdateError>(next),
    ensures
        next.chained(),
        !db.contents().contains_key(key),
        next.contents() == db.contents().insert(key, value),
        exists|prev: Seq<u8>| linked_in(db.links(), next.links(), key, prev),
        next.index.dom().len() == db.index.dom().len() + 1,
        next.sn_end == db.sn_end + 2,
        db.extended_by(next),
        db.revives_nothing(next),
{
    let places = adjacent_values(db.index, k80_of(key_hash));
    lemma_adjacent_values(db.index, k80_of(key_hash));
    lemma_find_prev(db, places, key_hash, rec);
    let prev = db.find_prev(places, key_hash, rec)->Ok_0;
    assert(db.live(prev.place));
    lemma_insert(db, next, prev, key_hash, key, value);
    lemma_insert_links(db, next, prev, key_hash, key, value);
    assert(linked_in(db.links(), next.links(), key, prev.entry().key));
}

/// A live entry with a smaller hash than `key_hash`, and no live hash in between, is
/// among the places next to `key_hash`.
proof fn lemma_adjacent(db: Db, p: (u128, i64), key_hash: Seq<u8>)
    requires
        db.sound(),
        db.live(p),
        key_hash.len() == 32,
        bytes_before(db.hash_at(p), key_hash),
        forall|a: (u128, i64)| #[trigger]
            db.live(a) ==> !between(db.hash_at(p), db.hash_at(a), key_hash),
    ensures
        adjacent_values(db.index, k80_of(key_hash)).contains(p),
{
    let k = k80_of(key_hash);
    lemma_adjacent_values(db.index, k);
    assert(db.sound_at(p));
    lemma_k80_order(db.hash_at(p), key_hash);
    if p.0 != k {
        assert(db.index.contains_key((p.0, p.1)));
        assert(has_key(db.index, p.0));
        assert forall|q: u128| #[trigger] has_key(db.index, q) && q < k implies q <= p.0 by {
            let pos = choose|pos: i64| #[trigger] db.index.contains_key((q, pos));
            let a = (q, pos);
            assert(db.live(a));
            assert(db.sound_at(a));
            lemma_k80_order(db.hash_at(p), db.hash_at(a));
            lemma_k80_order(db.hash_at(a), key_hash);
        }
        assert(is_prev_key(db.index, k, p.0));
    }
}

/// A key can be created where a live entry lies around its hash, as far as there is room
/// for the entries, and cannot where none does.
pub proof fn lemma_create_succeeds(
    db: Db,
    key_hash: Seq<u8>,
    key: Seq<u8>,
    value: Seq<u8>,
    rec: Option<&OpRecord>,
)
    requires
        db.chained(),
        key_hash == sha256(key),
        key_hash.len() == 32,
    ensures
        (forall|p: (u128, i64)| #[trigger]
            db.live(p) ==> !between(db.hash_at(p), key_hash, db.next_hash_at(p))) ==> db.create(
            key_hash,
            key,
            value,
            rec,
        ) == Err::<Db, UpdateError>(UpdateError::PrevKeyNotFound),
        forall|p: (u128, i64)|
            #[trigger] db.live(p) && between(db.hash_at(p), key_hash, db.next_hash_at(p))
                && !db.check_rec ==> (db.create(key_hash, key, value, rec) is Ok <==> key.len()
                <= 0xff && value.len() <= 0xff_ffff && db.room(
                2,
                serialized_len(db.entry(key, value, Seq::empty(), 0), 0) + serialized_len(
                    db.entry_at(p),
                    1,
                ),
            ) is Ok),
{
    let places = adjacent_values(db.index, k80_of(key_hash));
    lemma_adjacent_values(db.index, k80_of(key_hash));
    lemma_all_live(db, places);
    lemma_find_prev(db, places, key_hash, rec);
    assert forall|p: (u128, i64)|
        #[trigger] db.live(p) && between(db.hash_at(p), key_hash, db.next_hash_at(p))
            && !db.check_rec implies (db.create(key_hash, key, value, rec) is Ok <==> key.len()
        <= 0xff && value.len() <= 0xff_ffff && db.room(
        2,
        serialized_len(db.entry(key, value, Seq::empty(), 0), 0) + serialized_len(
            db.entry_at(p),
            1,
        ),
    ) is Ok) by {
        assert forall|a: (u128, i64)| #[trigger] db.live(a) implies !between(
            db.hash_at(p),
            db.hash_at(a),
            key_hash,
        ) by {
            if between(db.hash_at(p), db.hash_at(a), key_hash) {
                lemma_before_transitive(db.hash_at(a), key_hash, db.next_hash_at(p));
                assert(between(db.hash_at(p), db.hash_at(a), db.next_hash_at(p)));
            }
        }
        lemma_adjacent(db, p, key_hash);
        let i = choose|i: int| 0 <= i < places.len() && places[i] == p;
        assert(between(db.hash_at(places[i]), key_hash, db.next_hash_at(places[i])));
        let prev = db.find_prev(places, key_hash, rec)->Ok_0;
        assert(db.live(prev.place));
        if prev.place != p {
            lemma_gap(db, p, key_hash, prev.place);
        }
    }
}

// ---- removing a key ----

/// A walk finds an entry of the key, and another entry that names its hash.
pub open spec fn scanned(
    db: Db,
    places: Seq<(u128, i64)>,
    key_hash: Seq<u8>,
    key: Seq<u8>,
    before: DeleteScan,
    after: DeleteScan,
) -> bool {
    &&& after.deleted == before.deleted || {
        &&& after.deleted matches Some(d)
        &&& places.contains(d.place)
        &&& stands(db, d)
        &&& well_formed(d.bz)
        &&& d.entry().key == key
    }
    &&& after.prev == before.prev || {
        &&& after.prev matches Some(p)
        &&& places.contains(p.place)
        &&& stands(db, p)
        &&& well_formed(p.bz)
        &&& p.entry().next_key_hash == key_hash
    }
    &&& after.deleted is Some && after.prev is Some ==> after.deleted->0.place
        != after.prev->0.place
}

pub(crate) proof fn lemma_scan_deleted(
    db: Db,
    places: Seq<(u128, i64)>,
    key_hash: Seq<u8>,
    key: Seq<u8>,
    rec: Option<&OpRecord>,
    found: DeleteScan,
)
    requires
        places.no_duplicates(),
        found.deleted matches Some(d) ==> !places.contains(d.place),
        found.prev matches Some(p) ==> !places.contains(p.place),
        found.deleted is Some && found.prev is Some ==> found.deleted->0.place
            != found.prev->0.place,
    ensures
        db.scan_deleted(places, key_hash, key, rec, found) matches Ok(after) ==> scanned(
            db,
            places,
            key_hash,
            key,
            found,
            after,
        ),
    decreases places.len(),
{
    if places.len() > 0 && !(found.deleted is Some && found.prev is Some) {
        let rest = places.skip(1);
        assert forall|place: (u128, i64)| rest.contains(place) implies places.contains(place)
            && place != places[0] by {
            let i = choose|i: int| 0 <= i < rest.len() && rest[i] == place;
            assert(places[i + 1] == place);
        }
        assert(places.contains(places[0]));
        assert(rest.no_duplicates()) by {
            assert forall|i: int, j: int|
                0 <= i < rest.len() && 0 <= j < rest.len() && i != j implies rest[i] != rest[j] by {
                assert(rest[i] == places[i + 1] && rest[j] == places[j + 1]);
            }
        }
        match db.load(places[0].1) {
            Err(_) => {},
            Ok(bz) => {
                let here = Some(Located { place: places[0], bz });
                if found.deleted is None && parse(bz).key == key {
                    lemma_scan_deleted(
                        db,
                        rest,
                        key_hash,
                        key,
                        rec,
                        DeleteScan { deleted: here, ..found },
                    );
                } else if found.prev is None && parse(bz).next_key_hash == key_hash {
                    lemma_scan_deleted(
                        db,
                        rest,
                        key_hash,
                        key,
                        rec,
                        DeleteScan { prev: here, ..found },
                    );
                } else {
                    lemma_scan_deleted(db, rest, key_hash, key, rec, found);
                }
            },
        }
    }
}

/// What the walk along any places finds can be parsed.
proof fn lemma_scanned_well_formed(
    db: Db,
    places: Seq<(u128, i64)>,
    key_hash: Seq<u8>,
    key: Seq<u8>,
    rec: Option<&OpRecord>,
    found: DeleteScan,
)
    requires
        found.deleted matches Some(d) ==> well_formed(d.bz),
        found.prev matches Some(p) ==> well_formed(p.bz),
    ensures
        db.scan_deleted(places, key_hash, key, rec, found) matches Ok(after) ==> {
            &&& after.deleted matches Some(d) ==> well_formed(d.bz)
            &&& after.prev matches Some(p) ==> well_formed(p.bz)
        },
    decreases places.len(),
{
    if places.len() > 0 && db.load(places[0].1) is Ok {
        let rest = places.skip(1);
        let here = Some(Located { place: places[0], bz: db.load(places[0].1)->Ok_0 });
        let deleted = DeleteScan { deleted: here, ..found };
        lemma_scanned_well_formed(db, rest, key_hash, key, rec, found);
        lemma_scanned_well_formed(db, rest, key_hash, key, rec, deleted);
        lemma_scanned_well_formed(db, rest, key_hash, key, rec, DeleteScan { prev: here, ..found });
    }
}

/// The entries that a deletion finds can be parsed.
pub(crate) proof fn lemma_found_well_formed(
    db: Db,
    places: Seq<(u128, i64)>,
    key_hash: Seq<u8>,
    key: Seq<u8>,
    rec: Option<&OpRecord>,
)
    ensures
        db.find_deleted(places, key_hash, key, rec) matches Ok((deleted, prev)) ==> well_formed(
            deleted.bz,
        ) && well_formed(prev.bz),
{
    let none = DeleteScan { deleted: None, prev: None };
    lemma_scanned_well_formed(db, places, key_hash, key, rec, none);
}

/// Where all places can be read, records are not compared, and one place has the key and
/// another the hash, the walk finds both.
proof fn lemma_scan_finds(
    db: Db,
    places: Seq<(u128, i64)>,
    key_hash: Seq<u8>,
    key: Seq<u8>,
    rec: Option<&OpRecord>,
    found: DeleteScan,
    deleted: (u128, i64),
    prev: (u128, i64),
)
    requires
        db.sound(),
        !db.check_rec,
        all_live(db, places),
        found.deleted is None ==> places.contains(deleted) && db.entry_at(deleted).key == key,
        found.prev is None ==> places.contains(prev) && db.entry_at(prev).next_key_hash == key_hash
            && db.entry_at(prev).key != key,
    ensures
        db.scan_deleted(places, key_hash, key, rec, found) matches Ok(after)
            && after.deleted is Some && after.prev is Some,
    decreases places.len(),
{
    if places.len() > 0 && !(found.deleted is Some && found.prev is Some) {
        let rest = places.skip(1);
        assert forall|i: int| 0 <= i < rest.len() implies db.live(#[trigger] rest[i]) by {
            assert(rest[i] == places[i + 1]);
        }
        assert forall|place: (u128, i64)| places.contains(place) && place != places[0] implies
            rest.contains(place) by {
            let i = choose|i: int| 0 <= i < places.len() && places[i] == place;
            assert(rest[i - 1] == place);
        }
        assert(db.live(places[0]));
        assert(db.sound_at(places[0]));
        let bz = db.load(places[0].1)->Ok_0;
        let here = Some(Located { place: places[0], bz });
        if found.deleted is None && parse(bz).key == key {
            lemma_scan_finds(
                db,
                rest,
                key_hash,
                key,
                rec,
                DeleteScan { deleted: here, ..found },
                deleted,
                prev,
            );
        } else if found.prev is None && parse(bz).next_key_hash == key_hash {
            lemma_scan_finds(
                db,
                rest,
                key_hash,
                key,
                rec,
                DeleteScan { prev: here, ..found },
                deleted,
                prev,
            );
        } else {
            lemma_scan_finds(db, rest, key_hash, key, rec, found, deleted, prev);
        }
    }
}

/// Of the live entries of `db`, `gone` is not live in `next`, and `old` stands at `m` and
/// names what `gone` named.
spec fn unlinked(
    db: Db,
    next: Db,
    gone: (u128, i64),
    old: (u128, i64),
    m: (u128, i64),
) -> bool {
    &&& db.live(gone)
    &&& db.live(old)
    &&& gone != old
    &&& !db.live(m)
    &&& db.next_hash_at(old) == db.hash_at(gone)
    &&& next.next_hash_at(m) == db.next_hash_at(gone)
    &&& forall|p: (u128, i64)| #[trigger]
        next.live(p) == ((db.live(p) && p != old && p != gone) || p == m)
    &&& forall|p: (u128, i64)| #[trigger]
        next.live(p) ==> {
            &&& next.hash_at(p) == db.hash_at(swapped(p, m, old))
            &&& next.entry_at(p).value == db.entry_at(swapped(p, m, old)).value
            &&& next.entry_at(p).key == db.entry_at(swapped(p, m, old)).key
            &&& p != m ==> next.next_hash_at(p) == db.next_hash_at(p)
            &&& p != m ==> next.index[p] == db.index[p]
        }
    &&& forall|p: (u128, i64)| #[trigger] db.live(p) ==> db.index[p] != next.index[m]
}

proof fn lemma_unlinked_distinct(
    db: Db,
    next: Db,
    gone: (u128, i64),
    old: (u128, i64),
    m: (u128, i64),
)
    requires
        db.distinct(),
        unlinked(db, next, gone, old, m),
    ensures
        next.distinct(),
{
    assert forall|a: (u128, i64), b: (u128, i64)|
        #[trigger] next.live(a) && #[trigger] next.live(b) && a != b implies next.hash_at(a)
        != next.hash_at(b) && next.index[a] != next.index[b] by {
        assert(db.live(swapped(a, m, old)) && db.live(swapped(b, m, old)));
    }
}

proof fn lemma_unlinked_ordered(
    db: Db,
    next: Db,
    gone: (u128, i64),
    old: (u128, i64),
    m: (u128, i64),
)
    requires
        db.distinct(),
        db.ordered(),
        unlinked(db, next, gone, old, m),
    ensures
        next.ordered(),
{
    let key_hash = db.hash_at(gone);
    assert forall|a: (u128, i64)| #[trigger] next.live(a) implies bytes_before(
        next.hash_at(a),
        next.next_hash_at(a),
    ) by {
        if a == m {
            lemma_before_transitive(db.hash_at(old), key_hash, db.next_hash_at(gone));
        } else {
            assert(db.live(a));
        }
    }
    assert forall|a: (u128, i64), b: (u128, i64)|
        #[trigger] next.live(a) && #[trigger] next.live(b) implies !between(
        next.hash_at(a),
        next.hash_at(b),
        next.next_hash_at(a),
    ) by {
        let b0 = swapped(b, m, old);
        let h = next.hash_at(b);
        assert(db.live(b0) && b0 != gone);
        if a == m {
            assert(!between(db.hash_at(old), h, key_hash));
            assert(!between(key_hash, h, db.next_hash_at(gone)));
            assert(h != key_hash);
            lemma_before_total(h, key_hash);
        } else {
            assert(db.live(a));
        }
    }
}

proof fn lemma_unlinked_linked(
    db: Db,
    next: Db,
    gone: (u128, i64),
    old: (u128, i64),
    m: (u128, i64),
)
    requires
        db.distinct(),
        db.linked(),
        unlinked(db, next, gone, old, m),
    ensures
        next.linked(),
{
    assert forall|b: (u128, i64)| #[trigger] next.live(b) implies next.is_first(b) || exists|
        a: (u128, i64),
    | next.names(a, b) by {
        let b0 = swapped(b, m, old);
        assert(db.live(b0) && b0 != gone);
        if db.is_first(b0) {
            assert forall|a: (u128, i64)| #[trigger] next.live(a) && a != b implies bytes_before(
                next.hash_at(b),
                next.hash_at(a),
            ) by {
                assert(db.live(swapped(a, m, old)));
            }
        } else {
            let a = choose|a: (u128, i64)| db.names(a, b0);
            assert(db.live(a));
            assert(next.live(m));
            if a == gone {
                assert(next.names(m, b));
            } else if a == old {
                assert(db.hash_at(b0) == db.hash_at(gone));
            } else {
                assert(next.live(a));
                assert(next.names(a, b));
            }
        }
    }
}

proof fn lemma_unlinked_contents(
    db: Db,
    next: Db,
    gone: (u128, i64),
    old: (u128, i64),
    m: (u128, i64),
)
    requires
        db.distinct(),
        next.distinct(),
        unlinked(db, next, gone, old, m),
    ensures
        db.contents().contains_key(db.entry_at(gone).key),
        next.contents() == db.contents().remove(db.entry_at(gone).key),
{
    let key = db.entry_at(gone).key;
    assert(db.holds(gone, key));
    lemma_contents(db, gone, key);
    let want = db.contents().remove(key);
    assert forall|k: Seq<u8>| #[trigger] next.contents().contains_key(k) == want.contains_key(k)
        && (want.contains_key(k) ==> next.contents()[k] == want[k]) by {
        if next.contents().contains_key(k) {
            let p = choose|p: (u128, i64)| next.holds(p, k);
            assert(next.live(p));
            let p0 = swapped(p, m, old);
            assert(db.live(p0) && p0 != gone);
            assert(db.holds(p0, k));
            lemma_contents(db, p0, k);
            assert(db.hash_at(p0) != db.hash_at(gone));
        }
        if want.contains_key(k) {
            let p = choose|p: (u128, i64)| db.holds(p, k);
            assert(db.live(p) && p != gone);
            let p1 = if p == old {
                m
            } else {
                p
            };
            assert(next.live(p1) && swapped(p1, m, old) == p);
            assert(next.holds(p1, k));
            lemma_contents(db, p, k);
            lemma_contents(next, p1, k);
        }
    }
    assert(next.contents() =~= want);
}

proof fn lemma_unlinked_links(
    db: Db,
    next: Db,
    gone: (u128, i64),
    old: (u128, i64),
    m: (u128, i64),
)
    requires
        db.distinct(),
        next.distinct(),
        unlinked(db, next, gone, old, m),
    ensures
        linked_out(db.links(), next.links(), db.entry_at(gone).key, db.entry_at(old).key),
{
    let key = db.entry_at(gone).key;
    let prev_key = db.entry_at(old).key;
    assert(db.holds(gone, key) && db.holds(old, prev_key));
    lemma_links(db, gone, key);
    lemma_links(db, old, prev_key);
    assert(db.hash_at(gone) != db.hash_at(old));
    let want = db.links().remove(key).insert(prev_key, db.links()[key]);
    assert forall|p: (u128, i64)| #[trigger] next.live(p) implies want.contains_key(
        next.entry_at(p).key,
    ) && want[next.entry_at(p).key] == next.next_hash_at(p) by {
        if p != m {
            let k = next.entry_at(p).key;
            assert(db.live(p) && p != gone && p != old);
            assert(db.holds(p, k));
            lemma_links(db, p, k);
            assert(db.hash_at(p) != db.hash_at(gone) && db.hash_at(p) != db.hash_at(old));
        }
    }
    assert forall|k: Seq<u8>| #[trigger] want.contains_key(k) implies exists|p: (u128, i64)|
        next.holds(p, k) by {
        if k == prev_key {
            assert(next.live(m));
            assert(next.holds(m, k));
        } else {
            let p = choose|p: (u128, i64)| db.holds(p, k);
            assert(db.live(p) && p != gone && p != old);
            assert(next.live(p));
            assert(next.holds(p, k));
        }
    }
    lemma_links_are(next, want);
}

proof fn lemma_unlink_sound(db: Db, next: Db, deleted: Located, prev: Located, key_hash: Seq<u8>)
    requires
        db.sound(),
        db.live(deleted.place),
        stands(db, deleted),
        well_formed(deleted.bz),
        db.live(prev.place),
        stands(db, prev),
        well_formed(prev.bz),
        deleted.place != prev.place,
        key_hash == sha256(deleted.entry().key),
        prev.entry().next_key_hash == key_hash,
        next == db.unlink(deleted, prev, key_hash),
        db.room(1, serialized_len(db.prev_without_deleted(deleted, prev), 2)) is Ok,
    ensures
        next.sound(),
        unlinked(db, next, deleted.place, prev.place, (prev.place.0, db.buffer.end)),
        next.index.dom().len() + 1 == db.index.dom().len(),
        db.extended_by(next),
        db.revives_nothing(next),
{
    let c = db.prev_without_deleted(deleted, prev);
    let dsns = Db::deleted_sns(deleted, prev);
    let gone = deleted.place;
    let old = prev.place;
    let m = (old.0, db.buffer.end);
    assert(fits(c, dsns)) by {
        lemma_parsed_lengths(deleted.bz);
        lemma_parsed_lengths(prev.bz);
    }
    assert(dsns.len() == 2);
    lemma_appended_reads(db, next, c, dsns);
    assert(db.sound_at(old) && db.sound_at(gone));
    assert(gone == (k80_of(key_hash), gone.1));
    assert(!db.cache.contains_key((db.shard_id, m.1)));
    assert(next.read(next.shard_id, m.1) == Some(dump(c, dsns)));
    assert(next.entry_at(m) == c);
    assert(!db.live(m)) by {
        if db.live(m) {
            assert(db.sound_at(m));
        }
    }
    assert forall|p: (u128, i64)| #[trigger] next.live(p) == ((db.live(p) && p != old && p != gone)
        || p == m) by {}
    assert forall|p: (u128, i64)| #[trigger] next.live(p) implies {
        &&& next.hash_at(p) == db.hash_at(swapped(p, m, old))
        &&& next.entry_at(p).value == db.entry_at(swapped(p, m, old)).value
        &&& next.entry_at(p).key == db.entry_at(swapped(p, m, old)).key
        &&& next.sound_at(p)
        &&& p != m ==> next.next_hash_at(p) == db.next_hash_at(p)
        &&& p != m ==> next.index[p] == db.index[p]
    } by {
        if p != m {
            assert(db.sound_at(p));
            lemma_extended_reads(db, next, p.1);
        }
    }
    assert forall|p: (u128, i64)| #[trigger] db.live(p) implies db.index[p] != next.index[m] by {
        assert(db.sound_at(p));
    }
    assert(next.index.dom() =~= db.index.dom().remove(gone).remove(old).insert(m));
}

proof fn lemma_unlink(db: Db, next: Db, deleted: Located, prev: Located, key_hash: Seq<u8>)
    requires
        db.chained(),
        db.live(deleted.place),
        stands(db, deleted),
        well_formed(deleted.bz),
        db.live(prev.place),
        stands(db, prev),
        well_formed(prev.bz),
        deleted.place != prev.place,
        key_hash == sha256(deleted.entry().key),
        prev.entry().next_key_hash == key_hash,
        next == db.unlink(deleted, prev, key_hash),
        db.room(1, serialized_len(db.prev_without_deleted(deleted, prev), 2)) is Ok,
    ensures
        next.chained(),
        db.contents().contains_key(deleted.entry().key),
        next.contents() == db.contents().remove(deleted.entry().key),
        linked_out(db.links(), next.links(), deleted.entry().key, prev.entry().key),
        next.index.dom().len() + 1 == db.index.dom().len(),
        db.extended_by(next),
        db.revives_nothing(next),
{
    let gone = deleted.place;
    let old = prev.place;
    let m = (old.0, db.buffer.end);
    lemma_unlink_sound(db, next, deleted, prev, key_hash);
    lemma_unlinked_distinct(db, next, gone, old, m);
    lemma_unlinked_ordered(db, next, gone, old, m);
    lemma_unlinked_linked(db, next, gone, old, m);
    lemma_unlinked_contents(db, next, gone, old, m);
    lemma_unlinked_links(db, next, gone, old, m);
}

/// The search finds the live entry of the key and the live entry that names its hash.
pub(crate) proof fn lemma_find_deleted(
    db: Db,
    key_hash: Seq<u8>,
    key: Seq<u8>,
    rec: Option<&OpRecord>,
)
    requires
        db.sound(),
    ensures
        db.find_deleted(
            adjacent_values(db.index, k80_of(key_hash)),
            key_hash,
            key,
            rec,
        ) matches Ok((deleted, prev)) ==> {
            &&& db.live(deleted.place)
            &&& stands(db, deleted)
            &&& well_formed(deleted.bz)
            &&& deleted.entry().key == key
            &&& db.live(prev.place)
            &&& stands(db, prev)
            &&& well_formed(prev.bz)
            &&& prev.entry().next_key_hash == key_hash
            &&& deleted.place != prev.place
        },
{
    let places = adjacent_values(db.index, k80_of(key_hash));
    lemma_adjacent_values(db.index, k80_of(key_hash));
    let none = DeleteScan { deleted: None, prev: None };
    lemma_scan_deleted(db, places, key_hash, key, rec, none);
    if db.find_deleted(places, key_hash, key, rec) is Ok {
        let (deleted, prev) = db.find_deleted(places, key_hash, key, rec)->Ok_0;
        assert(places.contains(deleted.place) && places.contains(prev.place));
    }
}

/// Deleting a key removes it and changes nothing else: the entries stay one list, and the
/// contents change at that key alone, which was there before. Of the other entries, the
/// one before the deleted key alone names another next key.
pub proof fn lemma_delete(
    db: Db,
    key_hash: Seq<u8>,
    key: Seq<u8>,
    rec: Option<&OpRecord>,
    next: Db,
)
    requires
        db.chained(),
        key_hash == sha256(key),
        db.delete(key_hash, key, rec) == Ok::<Db, UpdateError>(next),
    ensures
        next.chained(),
        db.contents().contains_key(key),
        next.contents() == db.contents().remove(key),
        exists|prev: Seq<u8>| linked_out(db.links(), next.links(), key, prev),
        next.index.dom().len() + 1 == db.index.dom().len(),
        next.sn_end == db.sn_end + 1,
        db.extended_by(next),
        db.revives_nothing(next),
{
    let places = adjacent_values(db.index, k80_of(key_hash));
    lemma_find_deleted(db, key_hash, key, rec);
    let (deleted, prev) = db.find_deleted(places, key_hash, key, rec)->Ok_0;
    lemma_unlink(db, next, deleted, prev, key_hash);
}

/// A key that is there and is not the first can be deleted, as far as there is room for
/// the changed entry before it.
pub proof fn lemma_delete_succeeds(
    db: Db,
    key_hash: Seq<u8>,
    key: Seq<u8>,
    rec: Option<&OpRecord>,
    deleted: (u128, i64),
    prev: (u128, i64),
)
    requires
        db.chained(),
        key_hash == sha256(key),
        !db.check_rec,
        db.holds(deleted, key),
        db.names(prev, deleted),
    ensures
        db.delete(key_hash, key, rec) is Ok <==> db.room(
            1,
            serialized_len(db.entry_at(prev), 2),
        ) is Ok,
{
    let places = adjacent_values(db.index, k80_of(key_hash));
    lemma_adjacent_values(db.index, k80_of(key_hash));
    lemma_all_live(db, places);
    assert(db.live(deleted) && db.live(prev));
    assert(db.sound_at(deleted));
    assert(places.contains(deleted));
    assert forall|a: (u128, i64)| #[trigger] db.live(a) implies !between(
        db.hash_at(prev),
        db.hash_at(a),
        key_hash,
    ) by {}
    lemma_adjacent(db, prev, key_hash);
    if db.entry_at(prev).key == key {
        lemma_before_irreflexive(key_hash);
    }
    let none = DeleteScan { deleted: None, prev: None };
    lemma_scan_finds(db, places, key_hash, key, rec, none, deleted, prev);
    lemma_scan_deleted(db, places, key_hash, key, rec, none);
    let (d, p) = db.find_deleted(places, key_hash, key, rec)->Ok_0;
    assert(db.live(d.place) && db.live(p.place));
    if p.place != prev {
        let h = db.hash_at(p.place);
        lemma_before_total(h, db.hash_at(prev));
        assert(bytes_before(h, key_hash) && bytes_before(db.hash_at(prev), key_hash));
        assert(!between(h, db.hash_at(prev), db.next_hash_at(p.place)));
        assert(!between(db.hash_at(prev), h, db.next_hash_at(prev)));
    }
}

/// Where all places can be read and records are not compared, the walk ends well, and
/// finds the key if a place has it.
proof fn lemma_scan_ends(
    db: Db,
    places: Seq<(u128, i64)>,
    key_hash: Seq<u8>,
    key: Seq<u8>,
    rec: Option<&OpRecord>,
    found: DeleteScan,
)
    requires
        db.sound(),
        !db.check_rec,
        all_live(db, places),
    ensures
        db.scan_deleted(places, key_hash, key, rec, found) is Ok,
        (found.deleted is Some || exists|i: int|
            0 <= i < places.len() && db.entry_at(#[trigger] places[i]).key == key)
            ==> db.scan_deleted(places, key_hash, key, rec, found)->Ok_0.deleted is Some,
    decreases places.len(),
{
    if places.len() > 0 && !(found.deleted is Some && found.prev is Some) {
        let rest = places.skip(1);
        assert forall|i: int| 0 <= i < rest.len() implies db.live(#[trigger] rest[i]) by {
            assert(rest[i] == places[i + 1]);
        }
        assert(db.live(places[0]));
        assert(db.sound_at(places[0]));
        if exists|i: int| 0 <= i < places.len() && db.entry_at(#[trigger] places[i]).key == key {
            let i = choose|i: int|
                0 <= i < places.len() && db.entry_at(#[trigger] places[i]).key == key;
            if i > 0 {
                assert(db.entry_at(rest[i - 1]).key == key);
            }
        }
        let bz = db.load(places[0].1)->Ok_0;
        let here = Some(Located { place: places[0], bz });
        if found.deleted is None && parse(bz).key == key {
            let deleted = DeleteScan { deleted: here, ..found };
            lemma_scan_ends(db, rest, key_hash, key, rec, deleted);
        } else if found.prev is None && parse(bz).next_key_hash == key_hash {
            lemma_scan_ends(db, rest, key_hash, key, rec, DeleteScan { prev: here, ..found });
        } else {
            lemma_scan_ends(db, rest, key_hash, key, rec, found);
        }
    }
}

/// A key that is not there, and a key that no live entry names as the next one, cannot
/// be deleted.
pub proof fn lemma_delete_fails(db: Db, key_hash: Seq<u8>, key: Seq<u8>, rec: Option<&OpRecord>)
    requires
        db.chained(),
        key_hash == sha256(key),
        !db.check_rec,
    ensures
        !db.contents().contains_key(key) ==> db.delete(key_hash, key, rec) == Err::<
            Db,
            UpdateError,
        >(UpdateError::DeleteNonExistKey),
        db.contents().contains_key(key) && (forall|a: (u128, i64)| #[trigger]
            db.live(a) ==> db.next_hash_at(a) != key_hash) ==> db.delete(key_hash, key, rec)
            == Err::<Db, UpdateError>(UpdateError::PrevEntryNotFound),
{
    let places = adjacent_values(db.index, k80_of(key_hash));
    lemma_adjacent_values(db.index, k80_of(key_hash));
    lemma_all_live(db, places);
    let none = DeleteScan { deleted: None, prev: None };
    lemma_scan_ends(db, places, key_hash, key, rec, none);
    lemma_scan_deleted(db, places, key_hash, key, rec, none);
    let after = db.scan_deleted(places, key_hash, key, rec, none)->Ok_0;
    if after.deleted is Some {
        let d = after.deleted->0.place;
        assert(db.live(d));
        assert(db.holds(d, key));
    }
    if after.prev is Some {
        assert(db.live(after.prev->0.place));
    }
    if db.contents().contains_key(key) {
        let p = choose|p: (u128, i64)| db.holds(p, key);
        assert(db.live(p));
        assert(db.sound_at(p));
        assert(places.contains(p));
        let i = choose|i: int| 0 <= i < places.len() && places[i] == p;
        assert(db.entry_at(places[i]).key == key);
    }
}

// ---- where a new key belongs ----

/// Of the live entries in `among` whose hash comes before `key_hash`, the last one.
proof fn lemma_last_before(
    db: Db,
    among: Set<(u128, i64)>,
    key_hash: Seq<u8>,
    low: (u128, i64),
) -> (p: (u128, i64))
    requires
        among.finite(),
        among.contains(low),
        bytes_before(db.hash_at(low), key_hash),
    ensures
        among.contains(p),
        bytes_before(db.hash_at(p), key_hash),
        forall|a: (u128, i64)| #[trigger]
            among.contains(a) ==> !between(db.hash_at(p), db.hash_at(a), key_hash),
    decreases among.len(),
{
    if exists|a: (u128, i64)| #[trigger]
        among.contains(a) && between(db.hash_at(low), db.hash_at(a), key_hash) {
        let a = choose|a: (u128, i64)| #[trigger]
            among.contains(a) && between(db.hash_at(low), db.hash_at(a), key_hash);
        let rest = among.remove(low);
        lemma_before_irreflexive(db.hash_at(low));
        let p = lemma_last_before(db, rest, key_hash, a);
        assert forall|b: (u128, i64)| #[trigger] among.contains(b) implies !between(
            db.hash_at(p),
            db.hash_at(b),
            key_hash,
        ) by {
            if b == low {
                if bytes_before(db.hash_at(p), db.hash_at(low)) {
                    lemma_before_transitive(db.hash_at(p), db.hash_at(low), db.hash_at(a));
                    assert(between(db.hash_at(p), db.hash_at(a), key_hash));
                    assert(rest.contains(a));
                }
            } else {
                assert(rest.contains(b));
            }
        }
        p
    } else {
        low
    }
}

/// For a hash that no live key has, behind the first live key and before the end of the
/// list, some live entry lies around it: there the key can be created.
pub proof fn lemma_gap_exists(db: Db, key_hash: Seq<u8>, low: (u128, i64)) -> (p: (u128, i64))
    requires
        db.chained(),
        db.live(low),
        bytes_before(db.hash_at(low), key_hash),
        forall|a: (u128, i64)| #[trigger] db.live(a) ==> db.hash_at(a) != key_hash,
        forall|a: (u128, i64)| #[trigger]
            db.live(a) ==> bytes_before(key_hash, db.next_hash_at(a)) || exists|b: (u128, i64)|
                db.live(b) && db.names(a, b),
    ensures
        db.live(p),
        between(db.hash_at(p), key_hash, db.next_hash_at(p)),
{
    let p = lemma_last_before(db, db.index.dom(), key_hash, low);
    assert(db.live(p));
    if !bytes_before(key_hash, db.next_hash_at(p)) {
        let b = choose|b: (u128, i64)| db.live(b) && db.names(p, b);
        assert(db.live(b));
        assert(db.index.dom().contains(b));
        lemma_before_total(db.hash_at(b), key_hash);
        assert(!between(db.hash_at(p), db.hash_at(b), key_hash));
    }
    p
}

// ---- moving an entry ----

/// If the entry that `job` speaks of is live, it has the job's bytes.
pub open spec fn true_job(db: Db, job: CompactJob) -> bool {
    &&& job.old_pos < db.buffer.end
    &&& db.live((k80_of(sha256(parse(job.entry_bz@).key)), job.old_pos)) ==> db.load(job.old_pos)
        == Ok::<Seq<u8>, UpdateError>(job.entry_bz@)
}

/// Moving a live entry changes no key, no value and no link: the entries stay one list,
/// and the contents stay the same.
pub proof fn lemma_relocate(
    db: Db,
    job: CompactJob,
    key_hash: Seq<u8>,
    rec: Option<&OpRecord>,
    comp_idx: int,
    next: Db,
)
    requires
        db.chained(),
        well_formed(job.entry_bz@),
        true_job(db, job),
        key_hash == sha256(parse(job.entry_bz@).key),
        db.live((k80_of(key_hash), job.old_pos)),
        db.relocate(job, key_hash, rec, comp_idx) == Ok::<Db, UpdateError>(next),
    ensures
        next.chained(),
        next.contents() == db.contents(),
        next.links() == db.links(),
        next.index.dom().len() == db.index.dom().len(),
        next.sn_end == db.sn_end + 1,
        db.extended_by(next),
        db.revives_nothing(next),
{
    let old = Db::job_entry(job, key_hash);
    let e = db.moved(old.entry());
    lemma_parsed_lengths(old.bz);
    lemma_replace(db, next, old, e);
    lemma_replace_links(db, next, old, e);
    assert(next.contents() =~= db.contents());
}

/// A job stays true when entries are added to the log.
pub proof fn lemma_job_stays_true(db: Db, next: Db, job: CompactJob)
    requires
        true_job(db, job),
        db.extended_by(next),
        db.revives_nothing(next),
    ensures
        true_job(next, job),
{
    lemma_extended_reads(db, next, job.old_pos);
}

} // verus!
