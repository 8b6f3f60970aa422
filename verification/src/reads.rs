//! Where the bytes of an entry are read from, and in which order places are looked at.

use vstd::prelude::*;

use crate::bytes::{be_value, bytes_before, k80_of, smaller_at};
use crate::entry::{dump, fits, lemma_dump_parse, well_formed, EntryView};
use crate::error::UpdateError;
use crate::indexer::{
    adjacent_values, has_key, keyed_values, lemma_adjacent_values, lemma_prev_key, lemma_values,
    prev_key, values, IndexView,
};
use crate::laws::lemma_file_entry;
use crate::layout::lemma_cut_entry;
use crate::model::{between, Db};

verus! {

// ---- reading ----

/// Bytes that are cached for a place are read there; else those that the buffer has; from
/// the start of the buffer on, and before the start of the file, there are no others.
pub proof fn lemma_read_order(db: Db, shard_id: usize, pos: i64)
    ensures
        db.cache.contains_key((shard_id, pos)) ==> db.read(shard_id, pos) == Some(
            db.cache[(shard_id, pos)],
        ),
        !db.cache.contains_key((shard_id, pos)) && db.buffer.entries.contains_key(pos)
            ==> db.read(shard_id, pos) == Some(db.buffer.entries[pos]),
        !db.cache.contains_key((shard_id, pos)) && !db.buffer.entries.contains_key(pos) && (pos
            < 0 || pos >= db.buffer.start) ==> db.read(shard_id, pos) is None,
{
}

/// An entry in the file, before the buffer, is read in its full length: the first 300 bytes
/// as they were written, and zeros for those behind.
pub proof fn lemma_file_read_clips(
    db: Db,
    shard_id: usize,
    before: Seq<u8>,
    e: EntryView,
    dsns: Seq<u64>,
    rest: Seq<u8>,
    pos: i64,
)
    requires
        fits(e, dsns),
        db.file == before + dump(e, dsns) + rest,
        pos == before.len(),
        pos < db.buffer.start,
        !db.cache.contains_key((shard_id, pos)),
        !db.buffer.entries.contains_key(pos),
    ensures
        ({
            let bz = dump(e, dsns);
            let got = db.read(shard_id, pos);
            &&& got is Some
            &&& got->0.len() == bz.len()
            &&& forall|i: int| 0 <= i < bz.len() && i < 300 ==> #[trigger] got->0[i] == bz[i]
            &&& forall|i: int| 300 <= i < bz.len() ==> #[trigger] got->0[i] == 0
        }),
{
    let bz = dump(e, dsns);
    lemma_dump_parse(e, dsns, rest);
    lemma_file_entry(db.file, before, bz, rest, pos);
}

/// Where the file ends within an entry, nothing is read.
pub proof fn lemma_cut_file_is_not_read(
    db: Db,
    shard_id: usize,
    before: Seq<u8>,
    e: EntryView,
    dsns: Seq<u64>,
    n: int,
    pos: i64,
)
    requires
        fits(e, dsns),
        0 <= n < dump(e, dsns).len(),
        db.file == before + dump(e, dsns).take(n),
        pos == before.len(),
        !db.cache.contains_key((shard_id, pos)),
        !db.buffer.entries.contains_key(pos),
    ensures
        db.read(shard_id, pos) is None,
{
    lemma_cut_entry(e, dsns, n);
    assert(db.file.skip(pos as int) =~= dump(e, dsns).take(n));
}

/// What is read for an entry of this shard is taken if it holds the whole entry; where it
/// does not, and where there is nothing, that is told.
pub proof fn lemma_load(db: Db, pos: i64)
    ensures
        db.read(db.shard_id, pos) is None ==> db.load(pos) == Err::<Seq<u8>, UpdateError>(
            UpdateError::CannotReadEntry,
        ),
        db.read(db.shard_id, pos) matches Some(bz) ==> !well_formed(bz) ==> db.load(pos) == Err::<
            Seq<u8>,
            UpdateError,
        >(UpdateError::MalformedEntry),
        db.read(db.shard_id, pos) matches Some(bz) ==> well_formed(bz) ==> db.load(pos) == Ok::<
            Seq<u8>,
            UpdateError,
        >(bz),
{
}

// ---- the order of places ----

/// The places under an index key are looked at from the front of the log to its end.
pub proof fn lemma_own_places_in_order(index: IndexView, k: u128)
    requires
        index.dom().finite(),
    ensures
        forall|i: int, j: int|
            0 <= i < j < keyed_values(index, k).len() ==> (#[trigger] keyed_values(index, k)[i]).1
                < (#[trigger] keyed_values(index, k)[j]).1,
        forall|i: int|
            0 <= i < keyed_values(index, k).len() ==> (#[trigger] keyed_values(index, k)[i]).0
                == k,
{
    lemma_values(index, k);
    let s = values(index, k);
    let t = keyed_values(index, k);
    assert forall|i: int, j: int| 0 <= i < j < t.len() implies (#[trigger] t[i]).1
        < (#[trigger] t[j]).1 by {
        assert(t[i].1 == s[i] && t[j].1 == s[j]);
    }
}

/// The places next to an index key are its own first, and then those under the greatest
/// smaller index key in use, each of them from the front of the log to its end.
pub proof fn lemma_near_places_in_order(index: IndexView, k: u128)
    requires
        index.dom().finite(),
    ensures
        forall|i: int, j: int|
            #![trigger adjacent_values(index, k)[i], adjacent_values(index, k)[j]]
            0 <= i < j < adjacent_values(index, k).len() ==> {
                let a = adjacent_values(index, k)[i];
                let b = adjacent_values(index, k)[j];
                (a.0 == b.0 && a.1 < b.1) || (a.0 == k && b.0 < k)
            },
        forall|place: (u128, i64)| #[trigger]
            adjacent_values(index, k).contains(place) <==> index.contains_key(place) && place.0
                <= k && forall|q: (u128, i64)| #[trigger]
                index.contains_key(q) && q.0 < k ==> place.0 == k || q.0 <= place.0,
{
    let all = adjacent_values(index, k);
    lemma_own_places_in_order(index, k);
    lemma_prev_key(index, k);
    lemma_adjacent_values(index, k);
    let own = keyed_values(index, k);
    match prev_key(index, k) {
        None => {},
        Some(pk) => {
            lemma_own_places_in_order(index, pk);
            let prev = keyed_values(index, pk);
            assert forall|i: int, j: int|
                #![trigger all[i], all[j]]
                0 <= i < j < all.len() implies (all[i].0 == all[j].0 && all[i].1 < all[j].1) || (
            all[i].0 == k && all[j].0 < k) by {
                if i < own.len() {
                    assert(all[i] == own[i]);
                    if j < own.len() {
                        assert(all[j] == own[j]);
                    } else {
                        assert(all[j] == prev[j - own.len()]);
                    }
                } else {
                    assert(all[i] == prev[i - own.len()]);
                    assert(all[j] == prev[j - own.len()]);
                }
            }
        },
    }
    assert forall|place: (u128, i64)| #[trigger] all.contains(place) <==> index.contains_key(place)
        && place.0 <= k && forall|q: (u128, i64)| #[trigger]
        index.contains_key(q) && q.0 < k ==> place.0 == k || q.0 <= place.0 by {
        if all.contains(place) {
            assert forall|q: (u128, i64)| #[trigger]
                index.contains_key(q) && q.0 < k implies place.0 == k || q.0 <= place.0 by {
                assert(index.contains_key((q.0, q.1)));
                assert(has_key(index, q.0));
            }
        }
        if index.contains_key(place) && place.0 <= k && forall|q: (u128, i64)| #[trigger]
            index.contains_key(q) && q.0 < k ==> place.0 == k || q.0 <= place.0 {
            assert(index.contains_key((place.0, place.1)));
            assert(has_key(index, place.0));
            assert forall|q: u128| #[trigger] has_key(index, q) && q < k implies place.0 == k || q
                <= place.0 by {
                let p = choose|p: i64| #[trigger] index.contains_key((q, p));
                assert(index.contains_key((q, p)));
            }
        }
    }
}

// ---- index keys and the order of hashes ----

/// The index key of a hash is its first ten bytes as a number, the first byte the most
/// significant.
pub proof fn lemma_k80_is_ten_bytes(h: Seq<u8>)
    requires
        h.len() >= 10,
    ensures
        k80_of(h) == h[0] * 0x100_0000_0000_0000_0000 + h[1] * 0x1_0000_0000_0000_0000 + h[2]
            * 0x100_0000_0000_0000 + h[3] * 0x1_0000_0000_0000 + h[4] * 0x100_0000_0000 + h[5]
            * 0x1_0000_0000 + h[6] * 0x100_0000 + h[7] * 0x1_0000 + h[8] * 0x100 + h[9],
{
    lemma_be_value_step(h, 10);
    lemma_be_value_step(h, 9);
    lemma_be_value_step(h, 8);
    lemma_be_value_step(h, 7);
    lemma_be_value_step(h, 6);
    lemma_be_value_step(h, 5);
    lemma_be_value_step(h, 4);
    lemma_be_value_step(h, 3);
    lemma_be_value_step(h, 2);
    lemma_be_value_step(h, 1);
    assert(h.take(0) =~= Seq::<u8>::empty());
    assert(be_value(h.take(0)) == 0);
}

proof fn lemma_be_value_step(h: Seq<u8>, n: int)
    requires
        0 < n <= h.len(),
    ensures
        be_value(h.take(n)) == be_value(h.take(n - 1)) * 256 + h[n - 1],
{
    assert(h.take(n).drop_last() =~= h.take(n - 1));
}

/// In the order of byte strings what comes first is decided by the first byte that differs,
/// and a string comes before those that it starts.
pub proof fn lemma_first_difference_decides(p: Seq<u8>, x: u8, s: Seq<u8>, y: u8, t: Seq<u8>)
    ensures
        bytes_before(p, p + seq![x] + s),
        x < y ==> bytes_before(p + seq![x] + s, p + seq![y] + t),
{
    let n = p.len() as int;
    assert(p.take(n) =~= p);
    let a = p + seq![x] + s;
    let b = p + seq![y] + t;
    assert(a.take(n) =~= p);
    assert(b.take(n) =~= p);
    assert(smaller_at(p, a, n));
    if x < y {
        assert(smaller_at(a, b, n));
    }
}

/// A hash does not lie around itself: an entry lies neither around the hash of its own key
/// nor around the one that it names.
pub proof fn lemma_between_is_strict(prev_hash: Seq<u8>, next_hash: Seq<u8>)
    ensures
        !between(prev_hash, prev_hash, next_hash),
        !between(prev_hash, next_hash, next_hash),
{
}

} // verus!
