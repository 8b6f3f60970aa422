//! The index of one shard: where in the log the live entries stand.
//!
//! The index keeps only the first ten bytes of a key hash, so several live entries
//! may share an index key; the entries themselves tell them apart.

use vstd::prelude::*;

use crate::bytes::{k80_of, to_k80, K80_LEN};

verus! {

/// The log positions of live entries, by index key, each with the serial number of
/// its entry.
pub type IndexView = Map<(u128, i64), u64>;

/// `s` lists, in increasing order, the positions under the index key `k`.
pub open spec fn lists_values(index: IndexView, k: u128, s: Seq<i64>) -> bool {
    &&& forall|i: int, j: int| 0 <= i < j < s.len() ==> s[i] < s[j]
    &&& forall|p: i64| #[trigger] s.contains(p) <==> index.contains_key((k, p))
}

/// The positions under the index key `k`, in increasing order.
pub open spec fn values(index: IndexView, k: u128) -> Seq<i64> {
    choose|s: Seq<i64>| lists_values(index, k, s)
}

/// Some position stands under the index key `k`.
pub open spec fn has_key(index: IndexView, k: u128) -> bool {
    exists|p: i64| #[trigger] index.contains_key((k, p))
}

/// `pk` is the greatest index key in use that is less than `k`.
pub open spec fn is_prev_key(index: IndexView, k: u128, pk: u128) -> bool {
    &&& pk < k
    &&& has_key(index, pk)
    &&& forall|q: u128| #[trigger] has_key(index, q) && q < k ==> q <= pk
}

/// The greatest index key in use that is less than `k`.
pub open spec fn prev_key(index: IndexView, k: u128) -> Option<u128> {
    if exists|pk: u128| is_prev_key(index, k, pk) {
        Some(choose|pk: u128| is_prev_key(index, k, pk))
    } else {
        None
    }
}

/// The positions under the index key `k`, each with that key.
pub open spec fn keyed_values(index: IndexView, k: u128) -> Seq<(u128, i64)> {
    values(index, k).map_values(|p: i64| (k, p))
}

/// The places where an entry next to the index key `k` can stand: those under `k`
/// itself, then those under the greatest smaller index key.
pub open spec fn adjacent_values(index: IndexView, k: u128) -> Seq<(u128, i64)> {
    match prev_key(index, k) {
        Some(pk) => keyed_values(index, k) + keyed_values(index, pk),
        None => keyed_values(index, k),
    }
}

/// The list of the positions under an index key is unique.
pub proof fn lemma_lists_values_unique(index: IndexView, k: u128, s: Seq<i64>, t: Seq<i64>)
    requires
        lists_values(index, k, s),
        lists_values(index, k, t),
    ensures
        s == t,
    decreases s.len() + t.len(),
{
    if s.len() == 0 {
        if t.len() > 0 {
            assert(t.contains(t[0]));
            assert(s.contains(t[0]));
        }
        assert(s =~= t);
    } else if t.len() == 0 {
        assert(s.contains(s[0]));
        assert(t.contains(s[0]));
    } else {
        let sl = s.last();
        let tl = t.last();
        assert(s.contains(sl) && t.contains(tl));
        assert(t.contains(sl) && s.contains(tl));
        let i = choose|i: int| 0 <= i < t.len() && t[i] == sl;
        let j = choose|j: int| 0 <= j < s.len() && s[j] == tl;
        assert(sl <= tl);
        assert(tl <= sl);
        let rest = index.remove((k, sl));
        let s1 = s.drop_last();
        let t1 = t.drop_last();
        assert forall|p: i64| #[trigger] s1.contains(p) <==> rest.contains_key((k, p)) by {
            if s1.contains(p) {
                let m = choose|m: int| 0 <= m < s1.len() && s1[m] == p;
                assert(s[m] == p);
                assert(s.contains(p));
            }
            if rest.contains_key((k, p)) {
                assert(s.contains(p));
                let m = choose|m: int| 0 <= m < s.len() && s[m] == p;
                assert(s1[m] == p);
            }
        }
        assert forall|p: i64| #[trigger] t1.contains(p) <==> rest.contains_key((k, p)) by {
            if t1.contains(p) {
                let m = choose|m: int| 0 <= m < t1.len() && t1[m] == p;
                assert(t[m] == p);
                assert(t.contains(p));
            }
            if rest.contains_key((k, p)) {
                assert(t.contains(p));
                let m = choose|m: int| 0 <= m < t.len() && t[m] == p;
                assert(t1[m] == p);
            }
        }
        lemma_lists_values_unique(rest, k, s1, t1);
        assert(s =~= s1.push(sl));
        assert(t =~= t1.push(tl));
    }
}

/// The greatest position under the index key `k`.
proof fn lemma_greatest_value(index: IndexView, k: u128) -> (p: i64)
    requires
        index.dom().finite(),
        has_key(index, k),
    ensures
        index.contains_key((k, p)),
        forall|q: i64| #[trigger] index.contains_key((k, q)) ==> q <= p,
    decreases index.dom().len(),
{
    let p0 = choose|p: i64| #[trigger] index.contains_key((k, p));
    let rest = index.remove((k, p0));
    assert(rest.dom() =~= index.dom().remove((k, p0)));
    let p = if has_key(rest, k) {
        let p1 = lemma_greatest_value(rest, k);
        if p0 < p1 {
            p1
        } else {
            p0
        }
    } else {
        p0
    };
    assert forall|q: i64| #[trigger] index.contains_key((k, q)) implies q <= p by {
        if q != p0 {
            assert(rest.contains_key((k, q)));
        }
    }
    p
}

proof fn lemma_values_exist(index: IndexView, k: u128) -> (s: Seq<i64>)
    requires
        index.dom().finite(),
    ensures
        lists_values(index, k, s),
    decreases index.dom().len(),
{
    if has_key(index, k) {
        let p = lemma_greatest_value(index, k);
        let rest = index.remove((k, p));
        assert(rest.dom() =~= index.dom().remove((k, p)));
        let t = lemma_values_exist(rest, k);
        let s = t.push(p);
        assert forall|i: int, j: int| 0 <= i < j < s.len() implies s[i] < s[j] by {
            assert(t.contains(t[i]));
        }
        assert forall|q: i64| #[trigger] s.contains(q) <==> index.contains_key((k, q)) by {
            if s.contains(q) {
                let i = choose|i: int| 0 <= i < s.len() && s[i] == q;
                if i < t.len() {
                    assert(t.contains(t[i]));
                }
            }
            if index.contains_key((k, q)) {
                if q == p {
                    assert(s[t.len() as int] == q);
                } else {
                    assert(t.contains(q));
                    let i = choose|i: int| 0 <= i < t.len() && t[i] == q;
                    assert(s[i] == q);
                }
            }
        }
        s
    } else {
        Seq::empty()
    }
}

/// [`values`] lists the positions under an index key.
pub proof fn lemma_values(index: IndexView, k: u128)
    requires
        index.dom().finite(),
    ensures
        lists_values(index, k, values(index, k)),
{
    let s = lemma_values_exist(index, k);
    assert(lists_values(index, k, s));
}

proof fn lemma_prev_key_exists(index: IndexView, k: u128, q: u128) -> (pk: u128)
    requires
        index.dom().finite(),
        q < k,
        has_key(index, q),
    ensures
        is_prev_key(index, k, pk),
    decreases index.dom().len(),
{
    let p = choose|p: i64| #[trigger] index.contains_key((q, p));
    let rest = index.remove((q, p));
    assert(rest.dom() =~= index.dom().remove((q, p)));
    let pk = if exists|r: u128| r < k && has_key(rest, r) {
        let r = choose|r: u128| r < k && has_key(rest, r);
        let pk = lemma_prev_key_exists(rest, k, r);
        let p1 = choose|p1: i64| #[trigger] rest.contains_key((pk, p1));
        assert(index.contains_key((pk, p1)));
        if pk < q {
            q
        } else {
            pk
        }
    } else {
        q
    };
    assert forall|r: u128| #[trigger] has_key(index, r) && r < k implies r <= pk by {
        let p1 = choose|p1: i64| #[trigger] index.contains_key((r, p1));
        if r != q {
            assert(rest.contains_key((r, p1)));
            assert(has_key(rest, r));
        }
    }
    pk
}

/// Where an index key is less than `k`, [`prev_key`] is the greatest of those.
pub proof fn lemma_prev_key(index: IndexView, k: u128)
    requires
        index.dom().finite(),
    ensures
        prev_key(index, k) matches Some(pk) ==> is_prev_key(index, k, pk),
        prev_key(index, k) is None ==> forall|q: u128| #[trigger] has_key(index, q) ==> q >= k,
{
    if prev_key(index, k) is None {
        assert forall|q: u128| #[trigger] has_key(index, q) implies q >= k by {
            if q < k {
                let pk = lemma_prev_key_exists(index, k, q);
                assert(is_prev_key(index, k, pk));
            }
        }
    }
}

/// [`keyed_values`] lists the places under an index key, each once.
pub proof fn lemma_keyed_values(index: IndexView, k: u128)
    requires
        index.dom().finite(),
    ensures
        keyed_values(index, k).no_duplicates(),
        forall|place: (u128, i64)| #[trigger]
            keyed_values(index, k).contains(place) <==> index.contains_key(place) && place.0 == k,
{
    lemma_values(index, k);
    let s = values(index, k);
    let t = keyed_values(index, k);
    assert forall|place: (u128, i64)| #[trigger] t.contains(place) <==> index.contains_key(place)
        && place.0 == k by {
        if t.contains(place) {
            let i = choose|i: int| 0 <= i < t.len() && t[i] == place;
            assert(s.contains(s[i]));
        }
        if index.contains_key(place) && place.0 == k {
            assert(s.contains(place.1));
            let i = choose|i: int| 0 <= i < s.len() && s[i] == place.1;
            assert(t[i] == place);
        }
    }
}

/// [`adjacent_values`] lists the places under an index key and under the greatest
/// smaller one in use, each once.
pub proof fn lemma_adjacent_values(index: IndexView, k: u128)
    requires
        index.dom().finite(),
    ensures
        adjacent_values(index, k).no_duplicates(),
        forall|place: (u128, i64)| #[trigger]
            adjacent_values(index, k).contains(place) <==> index.contains_key(place) && (place.0
                == k || is_prev_key(index, k, place.0)),
{
    lemma_keyed_values(index, k);
    lemma_prev_key(index, k);
    let own = keyed_values(index, k);
    match prev_key(index, k) {
        None => {
            assert forall|place: (u128, i64)| #[trigger] own.contains(place) <==>
                index.contains_key(place) && (place.0 == k || is_prev_key(index, k, place.0)) by {}
        },
        Some(pk) => {
            lemma_keyed_values(index, pk);
            let prev = keyed_values(index, pk);
            let all = own + prev;
            assert forall|place: (u128, i64)| #[trigger] all.contains(place) <==>
                index.contains_key(place) && (place.0 == k || is_prev_key(index, k, place.0)) by {
                if all.contains(place) {
                    let i = choose|i: int| 0 <= i < all.len() && all[i] == place;
                    if i < own.len() {
                        assert(own.contains(own[i]));
                    } else {
                        assert(prev.contains(prev[i - own.len()]));
                    }
                }
                if index.contains_key(place) && place.0 == k {
                    assert(own.contains(place));
                    let i = choose|i: int| 0 <= i < own.len() && own[i] == place;
                    assert(all[i] == place);
                }
                if index.contains_key(place) && is_prev_key(index, k, place.0) {
                    assert(has_key(index, pk) && has_key(index, place.0));
                    assert(prev.contains(place));
                    let i = choose|i: int| 0 <= i < prev.len() && prev[i] == place;
                    assert(all[own.len() + i] == place);
                }
            }
            assert forall|i: int, j: int| 0 <= i < all.len() && 0 <= j < all.len() && i != j implies
                all[i] != all[j] by {
                if i < own.len() {
                    assert(own.contains(own[i]));
                } else {
                    assert(prev.contains(prev[i - own.len()]));
                }
                if j < own.len() {
                    assert(own.contains(own[j]));
                } else {
                    assert(prev.contains(prev[j - own.len()]));
                }
            }
        },
    }
}

struct IndexItem {
    k80: u128,
    pos: i64,
    sn: u64,
}

/// The places of `items` come in increasing order, each once.
spec fn sorted(items: Seq<IndexItem>) -> bool {
    forall|i: int, j: int|
        0 <= i < j < items.len() ==> place_before(
            (#[trigger] items[i]).k80,
            items[i].pos,
            (#[trigger] items[j]).k80,
            items[j].pos,
        )
}

spec fn place_before(k: u128, p: i64, l: u128, q: i64) -> bool {
    k < l || (k == l && p < q)
}

spec fn stands_at(items: Seq<IndexItem>, place: (u128, i64), i: int) -> bool {
    0 <= i < items.len() && items[i].k80 == place.0 && items[i].pos == place.1
}

spec fn as_map(items: Seq<IndexItem>) -> IndexView {
    Map::new(
        |place: (u128, i64)| exists|i: int| stands_at(items, place, i),
        |place: (u128, i64)| items[choose|i: int| stands_at(items, place, i)].sn,
    )
}

proof fn lemma_as_map(items: Seq<IndexItem>, i: int)
    requires
        sorted(items),
        0 <= i < items.len(),
    ensures
        as_map(items).contains_key((items[i].k80, items[i].pos)),
        as_map(items)[(items[i].k80, items[i].pos)] == items[i].sn,
{
    let place = (items[i].k80, items[i].pos);
    assert(stands_at(items, place, i));
    let j = choose|j: int| stands_at(items, place, j);
    if i < j {
        assert(place_before(items[i].k80, items[i].pos, items[j].k80, items[j].pos));
    }
    if j < i {
        assert(place_before(items[j].k80, items[j].pos, items[i].k80, items[i].pos));
    }
}

proof fn lemma_insert_item(items: Seq<IndexItem>, at: int, item: IndexItem)
    requires
        sorted(items),
        0 <= at <= items.len(),
        forall|i: int|
            0 <= i < at ==> place_before(
                (#[trigger] items[i]).k80,
                items[i].pos,
                item.k80,
                item.pos,
            ),
        forall|i: int|
            at <= i < items.len() ==> place_before(
                item.k80,
                item.pos,
                (#[trigger] items[i]).k80,
                items[i].pos,
            ),
    ensures
        sorted(items.insert(at, item)),
        as_map(items.insert(at, item)) == as_map(items).insert((item.k80, item.pos), item.sn),
        !as_map(items).contains_key((item.k80, item.pos)),
{
    let new = items.insert(at, item);
    assert(sorted(new)) by {
        assert forall|i: int, j: int| 0 <= i < j < new.len() implies place_before(
            (#[trigger] new[i]).k80,
            new[i].pos,
            (#[trigger] new[j]).k80,
            new[j].pos,
        ) by {
            if i < at {
                assert(new[i] == items[i]);
            } else if i > at {
                assert(new[i] == items[i - 1]);
            }
            if j < at {
                assert(new[j] == items[j]);
            } else if j > at {
                assert(new[j] == items[j - 1]);
            }
        }
    }
    assert forall|place: (u128, i64)|
        as_map(new).contains_key(place) <==> as_map(items).insert(
            (item.k80, item.pos),
            item.sn,
        ).contains_key(place) by {
        if as_map(new).contains_key(place) {
            let i = choose|i: int| stands_at(new, place, i);
            if i < at {
                assert(stands_at(items, place, i));
            } else if i > at {
                assert(stands_at(items, place, i - 1));
            }
        }
        if as_map(items).contains_key(place) {
            let i = choose|i: int| stands_at(items, place, i);
            if i < at {
                assert(stands_at(new, place, i));
            } else {
                assert(stands_at(new, place, i + 1));
            }
        }
        assert(stands_at(new, (item.k80, item.pos), at));
    }
    assert forall|place: (u128, i64)| as_map(new).contains_key(place) implies as_map(new)[place]
        == as_map(items).insert((item.k80, item.pos), item.sn)[place] by {
        let i = choose|i: int| stands_at(new, place, i);
        lemma_as_map(new, i);
        if i < at {
            lemma_as_map(items, i);
            assert(new[i] == items[i]);
        } else if i > at {
            lemma_as_map(items, i - 1);
            assert(new[i] == items[i - 1]);
        }
    }
    assert(as_map(new) =~= as_map(items).insert((item.k80, item.pos), item.sn));
    if as_map(items).contains_key((item.k80, item.pos)) {
        let i = choose|i: int| stands_at(items, (item.k80, item.pos), i);
        assert(items[i].k80 == item.k80);
    }
}

proof fn lemma_remove_item(items: Seq<IndexItem>, at: int)
    requires
        sorted(items),
        0 <= at < items.len(),
    ensures
        sorted(items.remove(at)),
        as_map(items.remove(at)) == as_map(items).remove((items[at].k80, items[at].pos)),
{
    let new = items.remove(at);
    assert(sorted(new)) by {
        assert forall|i: int, j: int| 0 <= i < j < new.len() implies place_before(
            (#[trigger] new[i]).k80,
            new[i].pos,
            (#[trigger] new[j]).k80,
            new[j].pos,
        ) by {
            let oi = if i < at { i } else { i + 1 };
            let oj = if j < at { j } else { j + 1 };
            assert(new[i] == items[oi]);
            assert(new[j] == items[oj]);
        }
    }
    assert forall|i: int| 0 <= i < at implies place_before(
        (#[trigger] new[i]).k80,
        new[i].pos,
        items[at].k80,
        items[at].pos,
    ) by {
        assert(new[i] == items[i]);
    }
    assert forall|i: int| at <= i < new.len() implies place_before(
        items[at].k80,
        items[at].pos,
        (#[trigger] new[i]).k80,
        new[i].pos,
    ) by {
        assert(new[i] == items[i + 1]);
    }
    lemma_insert_item(new, at, items[at]);
    assert(new.insert(at, items[at]) =~= items);
    assert(as_map(new) =~= as_map(items).remove((items[at].k80, items[at].pos)));
}

/// The index of one shard, kept in memory.
pub struct Indexer {
    items: Vec<IndexItem>,
}

impl View for Indexer {
    type V = IndexView;

    closed spec fn view(&self) -> IndexView {
        as_map(self.items@)
    }
}

impl Indexer {
    /// The index is in order, counts its entries, and holds no negative position.
    pub closed spec fn wf(&self) -> bool {
        &&& sorted(self.items@)
        &&& as_map(self.items@).dom().finite()
        &&& as_map(self.items@).dom().len() == self.items@.len()
        &&& forall|i: int| 0 <= i < self.items@.len() ==> (#[trigger] self.items@[i]).pos >= 0
    }

    /// An index with no entry.
    pub fn new() -> (r: Self)
        ensures
            r.wf(),
            r@ == IndexView::empty(),
    {
        let r = Indexer { items: Vec::new() };
        proof {
            assert(as_map(r.items@) =~= IndexView::empty()) by {
                assert forall|place: (u128, i64)| !as_map(r.items@).contains_key(place) by {}
            }
        }
        r
    }

    /// No position in the index is negative.
    pub proof fn lemma_positions(&self, k: u128, p: i64)
        requires
            self.wf(),
            self@.contains_key((k, p)),
        ensures
            p >= 0,
    {
        let i = choose|i: int| stands_at(self.items@, (k, p), i);
        assert(self.items@[i].pos >= 0);
    }

    /// The index is finite.
    pub proof fn lemma_finite(&self)
        requires
            self.wf(),
        ensures
            self@.dom().finite(),
    {
    }

    /// Number of entries.
    pub fn len(&self) -> (n: usize)
        requires
            self.wf(),
        ensures
            n == self@.dom().len(),
    {
        self.items.len()
    }

    /// Number of items that come before the place `(k80, pos)`.
    fn lower_bound(&self, k80: u128, pos: i64) -> (n: usize)
        requires
            self.wf(),
        ensures
            n <= self.items@.len(),
            forall|i: int|
                0 <= i < n ==> place_before(
                    (#[trigger] self.items@[i]).k80,
                    self.items@[i].pos,
                    k80,
                    pos,
                ),
            forall|i: int|
                n <= i < self.items@.len() ==> !place_before(
                    (#[trigger] self.items@[i]).k80,
                    self.items@[i].pos,
                    k80,
                    pos,
                ),
    {
        let mut lo: usize = 0;
        let mut hi: usize = self.items.len();
        while lo < hi
            invariant
                self.wf(),
                lo <= hi <= self.items@.len(),
                forall|i: int|
                    0 <= i < lo ==> place_before(
                        (#[trigger] self.items@[i]).k80,
                        self.items@[i].pos,
                        k80,
                        pos,
                    ),
                forall|i: int|
                    hi <= i < self.items@.len() ==> !place_before(
                        (#[trigger] self.items@[i]).k80,
                        self.items@[i].pos,
                        k80,
                        pos,
                    ),
            decreases hi - lo,
        {
            let mid: usize = lo + (hi - lo) / 2;
            let item = &self.items[mid];
            if item.k80 < k80 || (item.k80 == k80 && item.pos < pos) {
                assert forall|i: int| 0 <= i < mid + 1 implies place_before(
                    (#[trigger] self.items@[i]).k80,
                    self.items@[i].pos,
                    k80,
                    pos,
                ) by {
                    if i < mid {
                        assert(place_before(
                            self.items@[i].k80,
                            self.items@[i].pos,
                            self.items@[mid as int].k80,
                            self.items@[mid as int].pos,
                        ));
                    }
                }
                lo = mid + 1;
            } else {
                assert forall|i: int| mid <= i < self.items@.len() implies !place_before(
                    (#[trigger] self.items@[i]).k80,
                    self.items@[i].pos,
                    k80,
                    pos,
                ) by {
                    if mid < i {
                        assert(place_before(
                            self.items@[mid as int].k80,
                            self.items@[mid as int].pos,
                            self.items@[i].k80,
                            self.items@[i].pos,
                        ));
                    }
                }
                hi = mid;
            }
        }
        lo
    }

    /// Whether an entry stands at `file_pos` under the index key of `key_hash`.
    pub fn key_exists(&self, key_hash: &[u8], file_pos: i64) -> (r: bool)
        requires
            self.wf(),
            key_hash@.len() >= K80_LEN,
        ensures
            r == self@.contains_key((k80_of(key_hash@), file_pos)),
    {
        let k80: u128 = to_k80(key_hash);
        let at: usize = self.lower_bound(k80, file_pos);
        if at < self.items.len() && self.items[at].k80 == k80 && self.items[at].pos == file_pos {
            assert(stands_at(self.items@, (k80, file_pos), at as int));
            true
        } else {
            assert forall|i: int| !stands_at(self.items@, (k80, file_pos), i) by {
                if stands_at(self.items@, (k80, file_pos), i) && i > at {
                    assert(place_before(
                        self.items@[at as int].k80,
                        self.items@[at as int].pos,
                        self.items@[i].k80,
                        self.items@[i].pos,
                    ));
                }
            }
            false
        }
    }

    fn insert_place(&mut self, k80: u128, pos: i64, sn: u64)
        requires
            old(self).wf(),
            pos >= 0,
        ensures
            final(self).wf(),
            final(self)@ == old(self)@.insert((k80, pos), sn),
    {
        let at: usize = self.lower_bound(k80, pos);
        let item = IndexItem { k80, pos, sn };
        let ghost before = self.items@;
        if at < self.items.len() && self.items[at].k80 == k80 && self.items[at].pos == pos {
            self.items.remove(at);
            proof {
                lemma_remove_item(before, at as int);
                let mid = before.remove(at as int);
                assert(mid =~= self.items@);
                assert forall|i: int| 0 <= i < at implies place_before(
                    (#[trigger] mid[i]).k80,
                    mid[i].pos,
                    k80,
                    pos,
                ) by {
                    assert(mid[i] == before[i]);
                }
                assert forall|i: int| at <= i < mid.len() implies place_before(
                    k80,
                    pos,
                    (#[trigger] mid[i]).k80,
                    mid[i].pos,
                ) by {
                    assert(mid[i] == before[i + 1]);
                    assert(place_before(
                        before[at as int].k80,
                        before[at as int].pos,
                        before[i + 1].k80,
                        before[i + 1].pos,
                    ));
                }
                lemma_insert_item(mid, at as int, item);
                lemma_as_map(before, at as int);
                assert forall|i: int| 0 <= i < mid.len() implies (#[trigger] mid[i]).pos >= 0 by {
                    assert(mid[i] == before[i] || mid[i] == before[i + 1]);
                }
                assert(as_map(before).remove((k80, pos)).insert((k80, pos), sn) =~= as_map(
                    before,
                ).insert((k80, pos), sn));
            }
        } else {
            proof {
                assert forall|i: int| at <= i < before.len() implies place_before(
                    k80,
                    pos,
                    (#[trigger] before[i]).k80,
                    before[i].pos,
                ) by {
                    if i > at {
                        assert(place_before(
                            before[at as int].k80,
                            before[at as int].pos,
                            before[i].k80,
                            before[i].pos,
                        ));
                    }
                }
                lemma_insert_item(before, at as int, item);
            }
        }
        let ghost mid = self.items@;
        self.items.insert(at, item);
        proof {
            assert forall|i: int| 0 <= i < self.items@.len() implies (#[trigger] self.items@[i]).pos
                >= 0 by {
                assert(i != at ==> (self.items@[i] == mid[i] || self.items@[i] == mid[i - 1]));
            }
        }
    }

    fn remove_place(&mut self, k80: u128, pos: i64)
        requires
            old(self).wf(),
        ensures
            final(self).wf(),
            final(self)@ == old(self)@.remove((k80, pos)),
    {
        let at: usize = self.lower_bound(k80, pos);
        let ghost before = self.items@;
        if at < self.items.len() && self.items[at].k80 == k80 && self.items[at].pos == pos {
            self.items.remove(at);
            proof {
                lemma_remove_item(before, at as int);
                lemma_as_map(before, at as int);
                assert forall|i: int| 0 <= i < self.items@.len() implies (
                #[trigger] self.items@[i]).pos >= 0 by {
                    assert(self.items@[i] == before[i] || self.items@[i] == before[i + 1]);
                }
            }
        } else {
            proof {
                assert forall|i: int| !stands_at(before, (k80, pos), i) by {
                    if stands_at(before, (k80, pos), i) && i > at {
                        assert(place_before(
                            before[at as int].k80,
                            before[at as int].pos,
                            before[i].k80,
                            before[i].pos,
                        ));
                    }
                }
                assert(!as_map(before).contains_key((k80, pos)));
                assert(as_map(before).remove((k80, pos)) =~= as_map(before));
            }
        }
    }

    /// Adds the entry at `file_pos`, whose serial number is `sn`.
    pub fn add_kv(&mut self, key_hash: &[u8], file_pos: i64, sn: u64)
        requires
            old(self).wf(),
            key_hash@.len() >= K80_LEN,
            file_pos >= 0,
        ensures
            final(self).wf(),
            final(self)@ == old(self)@.insert((k80_of(key_hash@), file_pos), sn),
    {
        let k80: u128 = to_k80(key_hash);
        self.insert_place(k80, file_pos, sn);
    }

    /// Drops the entry at `file_pos`.
    pub fn erase_kv(&mut self, key_hash: &[u8], file_pos: i64)
        requires
            old(self).wf(),
            key_hash@.len() >= K80_LEN,
        ensures
            final(self).wf(),
            final(self)@ == old(self)@.remove((k80_of(key_hash@), file_pos)),
    {
        let k80: u128 = to_k80(key_hash);
        self.remove_place(k80, file_pos);
    }

    /// Replaces the entry at `old_pos` by the one at `new_pos`, whose serial number
    /// is `sn`.
    pub fn change_kv(&mut self, k80: u128, old_pos: i64, new_pos: i64, sn: u64)
        requires
            old(self).wf(),
            new_pos >= 0,
        ensures
            final(self).wf(),
            final(self)@ == old(self)@.remove((k80, old_pos)).insert((k80, new_pos), sn),
    {
        self.remove_place(k80, old_pos);
        self.insert_place(k80, new_pos, sn);
    }

    fn values_of(&self, k80: u128) -> (r: Vec<i64>)
        requires
            self.wf(),
        ensures
            r@ == values(self@, k80),
            lists_values(self@, k80, r@),
    {
        let start: usize = self.lower_bound(k80, 0);
        let mut r: Vec<i64> = Vec::new();
        let mut i: usize = start;
        while i < self.items.len() && self.items[i].k80 == k80
            invariant
                self.wf(),
                start <= i <= self.items@.len(),
                r@.len() == i - start,
                forall|j: int| start <= j < i ==> (#[trigger] self.items@[j]).k80 == k80,
                forall|m: int| 0 <= m < r@.len() ==> #[trigger] r@[m] == self.items@[start + m].pos,
            decreases self.items@.len() - i,
        {
            r.push(self.items[i].pos);
            i += 1;
        }
        proof {
            assert forall|a: int, b: int| 0 <= a < b < r@.len() implies r@[a] < r@[b] by {
                assert(place_before(
                    self.items@[start + a].k80,
                    self.items@[start + a].pos,
                    self.items@[start + b].k80,
                    self.items@[start + b].pos,
                ));
            }
            assert forall|p: i64| #[trigger] r@.contains(p) <==> self@.contains_key((k80, p)) by {
                if r@.contains(p) {
                    let m = choose|m: int| 0 <= m < r@.len() && r@[m] == p;
                    assert(stands_at(self.items@, (k80, p), start + m));
                }
                if self@.contains_key((k80, p)) {
                    let j = choose|j: int| stands_at(self.items@, (k80, p), j);
                    assert(self.items@[j].pos >= 0);
                    if j < start {
                        assert(place_before(self.items@[j].k80, self.items@[j].pos, k80, 0));
                    }
                    if j >= i && j > i {
                        assert(place_before(
                            self.items@[i as int].k80,
                            self.items@[i as int].pos,
                            self.items@[j].k80,
                            self.items@[j].pos,
                        ));
                        assert(!place_before(
                            self.items@[i as int].k80,
                            self.items@[i as int].pos,
                            k80,
                            0,
                        ));
                    }
                    assert(start <= j < i);
                    assert(r@[j - start] == p);
                }
            }
            assert(lists_values(self@, k80, r@));
            lemma_lists_values_unique(self@, k80, r@, values(self@, k80));
        }
        r
    }

    /// The positions under the index key of `key_hash`, in the block `_height`. This
    /// index keeps the latest block only, so the answer is the same for each block.
    pub fn get_values(&self, _height: i64, key_hash: &[u8]) -> (r: Vec<i64>)
        requires
            self.wf(),
            key_hash@.len() >= K80_LEN,
        ensures
            r@ == values(self@, k80_of(key_hash@)),
            lists_values(self@, k80_of(key_hash@), r@),
    {
        let k80: u128 = to_k80(key_hash);
        self.values_of(k80)
    }

    /// The places next to the index key of `key_hash`, in the block `_height`. This
    /// index keeps the latest block only, so the answer is the same for each block.
    pub fn get_adjacent_values(&self, _height: i64, key_hash: &[u8]) -> (r: Vec<(u128, i64)>)
        requires
            self.wf(),
            key_hash@.len() >= K80_LEN,
        ensures
            r@ == adjacent_values(self@, k80_of(key_hash@)),
            forall|i: int| 0 <= i < r@.len() ==> self@.contains_key(#[trigger] r@[i]),
    {
        let k80: u128 = to_k80(key_hash);
        let own = self.values_of(k80);
        let mut r: Vec<(u128, i64)> = Vec::new();
        let mut i: usize = 0;
        while i < own.len()
            invariant
                i <= own@.len(),
                lists_values(self@, k80, own@),
                r@ =~= own@.take(i as int).map_values(|p: i64| (k80, p)),
                forall|j: int| 0 <= j < r@.len() ==> self@.contains_key(#[trigger] r@[j]),
            decreases own@.len() - i,
        {
            assert(own@.contains(own@[i as int]));
            r.push((k80, own[i]));
            i += 1;
        }
        assert(own@.take(i as int) =~= own@);
        let ghost first = r@;
        let start: usize = self.lower_bound(k80, 0);
        proof {
            assert forall|q: u128| #[trigger] has_key(self@, q) && q < k80 implies exists|j: int|
                0 <= j < start && (#[trigger] self.items@[j]).k80 == q by {
                let p = choose|p: i64| #[trigger] self@.contains_key((q, p));
                let j = choose|j: int| stands_at(self.items@, (q, p), j);
                assert(self.items@[j].k80 == q);
                assert(j < start);
            }
        }
        if start == 0 {
            assert(prev_key(self@, k80) is None) by {
                assert forall|pk: u128| !is_prev_key(self@, k80, pk) by {}
            }
            return r;
        }
        let pk: u128 = self.items[start - 1].k80;
        proof {
            let last = start - 1;
            let item = self.items@[last];
            assert(place_before(item.k80, item.pos, k80, 0));
            assert(item.pos >= 0);
            assert(stands_at(self.items@, (pk, item.pos), last));
            assert(self@.contains_key((pk, item.pos)));
            assert(has_key(self@, pk));
            assert forall|q: u128| #[trigger] has_key(self@, q) && q < k80 implies q <= pk by {
                let j = choose|j: int| 0 <= j < start && (#[trigger] self.items@[j]).k80 == q;
                if j < last {
                    assert(place_before(
                        self.items@[j].k80,
                        self.items@[j].pos,
                        item.k80,
                        item.pos,
                    ));
                }
            }
            assert(is_prev_key(self@, k80, pk));
            let chosen = choose|c: u128| is_prev_key(self@, k80, c);
            assert(is_prev_key(self@, k80, chosen));
            assert(chosen == pk);
        }
        let prev = self.values_of(pk);
        let mut j: usize = 0;
        while j < prev.len()
            invariant
                j <= prev@.len(),
                lists_values(self@, pk, prev@),
                r@ =~= first + prev@.take(j as int).map_values(|p: i64| (pk, p)),
                forall|m: int| 0 <= m < r@.len() ==> self@.contains_key(#[trigger] r@[m]),
            decreases prev@.len() - j,
        {
            assert(prev@.contains(prev@[j as int]));
            r.push((pk, prev[j]));
            j += 1;
        }
        assert(prev@.take(j as int) =~= prev@);
        r
    }
}

} // verus!
