//! What the searches along the index find: the first place that fits, and nothing only
//! where none does.

use vstd::prelude::*;

use crate::compare::prev_entry_agrees;
use crate::entry::parse;
use crate::error::UpdateError;
use crate::hash::sha256;
use crate::model::{between, Db, DeleteScan, Located};
use crate::tasks::OpRecord;

verus! {

impl Db {
    /// The entry at `place` can be read and has the key `key`.
    pub open spec fn reads_key(self, place: (u128, i64), key: Seq<u8>) -> bool {
        self.load(place.1) matches Ok(bz) && parse(bz).key == key
    }

    /// The entry at `place` can be read and has another key than `key`.
    pub open spec fn reads_other_key(self, place: (u128, i64), key: Seq<u8>) -> bool {
        self.load(place.1) matches Ok(bz) && parse(bz).key != key
    }

    /// The entry at `place` can be read and lies around `key_hash`.
    pub open spec fn reads_around(self, place: (u128, i64), key_hash: Seq<u8>) -> bool {
        self.load(place.1) matches Ok(bz) && between(
            sha256(parse(bz).key),
            key_hash,
            parse(bz).next_key_hash,
        )
    }

    /// The entry at `place` can be read and does not lie around `key_hash`.
    pub open spec fn reads_aside(self, place: (u128, i64), key_hash: Seq<u8>) -> bool {
        self.load(place.1) matches Ok(bz) && !between(
            sha256(parse(bz).key),
            key_hash,
            parse(bz).next_key_hash,
        )
    }

    /// The entry at `place` can be read and names `key_hash` as the next one.
    pub open spec fn reads_link(self, place: (u128, i64), key_hash: Seq<u8>) -> bool {
        self.load(place.1) matches Ok(bz) && parse(bz).next_key_hash == key_hash
    }

    /// The entry at `place` can be read and names another hash as the next one.
    pub open spec fn reads_other_link(self, place: (u128, i64), key_hash: Seq<u8>) -> bool {
        self.load(place.1) matches Ok(bz) && parse(bz).next_key_hash != key_hash
    }

    /// The entry that is read at `place`.
    pub open spec fn located(self, place: (u128, i64)) -> Located {
        Located { place, bz: self.load(place.1)->Ok_0 }
    }

    /// The place `i` is the first of `places` whose entry has the key `key`.
    pub open spec fn first_with_key(
        self,
        places: Seq<(u128, i64)>,
        key: Seq<u8>,
        i: int,
    ) -> bool {
        &&& 0 <= i < places.len()
        &&& self.reads_key(places[i], key)
        &&& forall|j: int| 0 <= j < i ==> self.reads_other_key(#[trigger] places[j], key)
    }

    /// The place `i` is the first of `places` whose entry lies around `key_hash`.
    pub open spec fn first_around(
        self,
        places: Seq<(u128, i64)>,
        key_hash: Seq<u8>,
        i: int,
    ) -> bool {
        &&& 0 <= i < places.len()
        &&& self.reads_around(places[i], key_hash)
        &&& forall|j: int| 0 <= j < i ==> self.reads_aside(#[trigger] places[j], key_hash)
    }

    /// The place `i` is the first of `places`, but for the place `d`, whose entry names
    /// `key_hash` as the next one.
    pub open spec fn first_link_but(
        self,
        places: Seq<(u128, i64)>,
        key_hash: Seq<u8>,
        d: int,
        i: int,
    ) -> bool {
        &&& 0 <= i < places.len()
        &&& i != d
        &&& self.reads_link(places[i], key_hash)
        &&& forall|j: int|
            0 <= j < i && j != d ==> self.reads_other_link(#[trigger] places[j], key_hash)
    }
}

/// The search for a key that is to be written finds the first place whose entry has the
/// key. It fails for want of one if and only if all entries can be read and none has the
/// key, and else reports the first entry that cannot be read.
pub proof fn lemma_find_key_is_first(db: Db, places: Seq<(u128, i64)>, key: Seq<u8>)
    ensures
        db.find_key(places, key) is Ok <==> exists|i: int| db.first_with_key(places, key, i),
        forall|i: int| #[trigger]
            db.first_with_key(places, key, i) ==> db.find_key(places, key) == Ok::<
                Located,
                UpdateError,
            >(db.located(places[i])),
        db.find_key(places, key) == Err::<Located, UpdateError>(UpdateError::WriteToNonExistKey)
            <==> forall|i: int|
            0 <= i < places.len() ==> db.reads_other_key(#[trigger] places[i], key),
        forall|i: int|
            0 <= i < places.len() && (#[trigger] db.load(places[i].1)) is Err && (forall|j: int|
                0 <= j < i ==> db.reads_other_key(#[trigger] places[j], key)) ==> db.find_key(
                places,
                key,
            ) == Err::<Located, UpdateError>(db.load(places[i].1)->Err_0),
    decreases places.len(),
{
    if places.len() > 0 {
        let rest = places.skip(1);
        lemma_find_key_is_first(db, rest, key);
        assert forall|i: int| 0 <= i < rest.len() implies #[trigger] rest[i] == places[i + 1] by {}
        let here = places[0];
        if db.reads_key(here, key) {
            assert(db.first_with_key(places, key, 0));
            assert(!db.reads_other_key(here, key));
        } else if db.reads_other_key(here, key) {
            assert forall|i: int| db.first_with_key(rest, key, i) implies #[trigger]
                db.first_with_key(places, key, i + 1) by {
                assert forall|j: int| 0 <= j < i + 1 implies db.reads_other_key(
                    #[trigger] places[j],
                    key,
                ) by {
                    if j > 0 {
                        assert(rest[j - 1] == places[j]);
                    }
                }
            }
            assert forall|i: int| #[trigger] db.first_with_key(places, key, i) implies
                db.first_with_key(rest, key, i - 1) by {
                assert(i > 0);
                assert(rest[i - 1] == places[i]);
                assert forall|j: int| 0 <= j < i - 1 implies db.reads_other_key(
                    #[trigger] rest[j],
                    key,
                ) by {
                    assert(db.reads_other_key(places[j + 1], key));
                }
            }
            if db.find_key(rest, key) is Ok {
                let i = choose|i: int| db.first_with_key(rest, key, i);
                assert(db.first_with_key(places, key, i + 1));
            }
            if forall|i: int| 0 <= i < rest.len() ==> db.reads_other_key(#[trigger] rest[i], key) {
                assert forall|i: int| 0 <= i < places.len() implies db.reads_other_key(
                    #[trigger] places[i],
                    key,
                ) by {
                    if i > 0 {
                        assert(rest[i - 1] == places[i]);
                    }
                }
            }
            if forall|i: int|
                0 <= i < places.len() ==> db.reads_other_key(#[trigger] places[i], key) {
                assert forall|i: int| 0 <= i < rest.len() implies db.reads_other_key(
                    #[trigger] rest[i],
                    key,
                ) by {
                    assert(db.reads_other_key(places[i + 1], key));
                }
            }
            assert forall|i: int|
                0 <= i < places.len() && (#[trigger] db.load(places[i].1)) is Err && (forall|
                    j: int,
                |
                    0 <= j < i ==> db.reads_other_key(
                        #[trigger] places[j],
                        key,
                    )) implies db.find_key(places, key) == Err::<Located, UpdateError>(
                db.load(places[i].1)->Err_0,
            ) by {
                assert(i > 0);
                assert(rest[i - 1] == places[i]);
                assert forall|j: int| 0 <= j < i - 1 implies db.reads_other_key(
                    #[trigger] rest[j],
                    key,
                ) by {
                    assert(db.reads_other_key(places[j + 1], key));
                }
                assert(db.load(rest[i - 1].1) is Err);
            }
        } else {
            assert(db.load(here.1) is Err);
            assert forall|i: int| !#[trigger] db.first_with_key(places, key, i) by {
                if db.first_with_key(places, key, i) && i > 0 {
                    assert(db.reads_other_key(places[0], key));
                }
            }
            assert(!db.reads_other_key(places[0], key));
        }
    }
}

/// The search for the entry behind which a new key belongs finds the first place whose
/// entry lies around the key's hash, unless records are checked and its record does not
/// agree. It fails for want of one if and only if all entries can be read and none lies
/// around the hash.
pub proof fn lemma_find_prev_is_first(
    db: Db,
    places: Seq<(u128, i64)>,
    key_hash: Seq<u8>,
    rec: Option<&OpRecord>,
)
    ensures
        forall|i: int| #[trigger]
            db.first_around(places, key_hash, i) ==> db.find_prev(places, key_hash, rec) == if
                db.check_rec && !prev_entry_agrees(rec, db.located(places[i]).bz) {
                Err::<Located, UpdateError>(UpdateError::ComparePrevEntry)
            } else {
                Ok(db.located(places[i]))
            },
        db.find_prev(places, key_hash, rec) is Ok ==> exists|i: int|
            db.first_around(places, key_hash, i),
        db.find_prev(places, key_hash, rec) == Err::<Located, UpdateError>(
            UpdateError::PrevKeyNotFound,
        ) <==> forall|i: int|
            0 <= i < places.len() ==> db.reads_aside(#[trigger] places[i], key_hash),
    decreases places.len(),
{
    if places.len() > 0 {
        let rest = places.skip(1);
        lemma_find_prev_is_first(db, rest, key_hash, rec);
        assert forall|i: int| 0 <= i < rest.len() implies #[trigger] rest[i] == places[i + 1] by {}
        let here = places[0];
        if db.reads_around(here, key_hash) {
            assert(db.first_around(places, key_hash, 0));
            assert(!db.reads_aside(here, key_hash));
            assert forall|i: int| #[trigger] db.first_around(places, key_hash, i) implies i
                == 0 by {
                if i > 0 {
                    assert(db.reads_aside(places[0], key_hash));
                }
            }
        } else if db.reads_aside(here, key_hash) {
            assert forall|i: int| db.first_around(rest, key_hash, i) implies #[trigger]
                db.first_around(places, key_hash, i + 1) by {
                assert forall|j: int| 0 <= j < i + 1 implies db.reads_aside(
                    #[trigger] places[j],
                    key_hash,
                ) by {
                    if j > 0 {
                        assert(rest[j - 1] == places[j]);
                    }
                }
            }
            assert forall|i: int| #[trigger] db.first_around(places, key_hash, i) implies i > 0
                && rest[i - 1] == places[i] && db.first_around(rest, key_hash, i - 1) by {
                assert(i > 0);
                assert(rest[i - 1] == places[i]);
                assert forall|j: int| 0 <= j < i - 1 implies db.reads_aside(
                    #[trigger] rest[j],
                    key_hash,
                ) by {
                    assert(db.reads_aside(places[j + 1], key_hash));
                }
            }
            if db.find_prev(rest, key_hash, rec) is Ok {
                let i = choose|i: int| db.first_around(rest, key_hash, i);
                assert(db.first_around(places, key_hash, i + 1));
            }
            if forall|i: int| 0 <= i < rest.len() ==> db.reads_aside(#[trigger] rest[i], key_hash) {
                assert forall|i: int| 0 <= i < places.len() implies db.reads_aside(
                    #[trigger] places[i],
                    key_hash,
                ) by {
                    if i > 0 {
                        assert(rest[i - 1] == places[i]);
                    }
                }
            }
            if forall|i: int|
                0 <= i < places.len() ==> db.reads_aside(#[trigger] places[i], key_hash) {
                assert forall|i: int| 0 <= i < rest.len() implies db.reads_aside(
                    #[trigger] rest[i],
                    key_hash,
                ) by {
                    assert(db.reads_aside(places[i + 1], key_hash));
                }
            }
        } else {
            assert(db.load(here.1) is Err);
            assert forall|i: int| !#[trigger] db.first_around(places, key_hash, i) by {
                if db.first_around(places, key_hash, i) && i > 0 {
                    assert(db.reads_aside(places[0], key_hash));
                }
            }
            assert(!db.reads_aside(places[0], key_hash));
        }
    }
}

// ---- the two entries of a deletion ----

/// After `n` places, the first one with the key is `d`.
spec fn key_so_far(
    db: Db,
    places: Seq<(u128, i64)>,
    key: Seq<u8>,
    n: int,
    d: Option<int>,
) -> bool {
    match d {
        Some(x) => x < n && db.first_with_key(places, key, x),
        None => forall|j: int| 0 <= j < n ==> db.reads_other_key(#[trigger] places[j], key),
    }
}

/// After `n` places, the first one but `d` that names the hash is `p`.
spec fn link_so_far(
    db: Db,
    places: Seq<(u128, i64)>,
    key_hash: Seq<u8>,
    n: int,
    d: Option<int>,
    p: Option<int>,
) -> bool {
    let but = match d {
        Some(x) => x,
        None => -1,
    };
    match p {
        Some(y) => y < n && db.first_link_but(places, key_hash, but, y),
        None => forall|j: int|
            0 <= j < n && j != but ==> db.reads_other_link(#[trigger] places[j], key_hash),
    }
}

spec fn found_at(db: Db, places: Seq<(u128, i64)>, i: Option<int>) -> Option<Located> {
    match i {
        Some(x) => Some(db.located(places[x])),
        None => None,
    }
}

/// The walk ends well and has found the places `d` and `p`.
spec fn ends_with(
    db: Db,
    places: Seq<(u128, i64)>,
    key_hash: Seq<u8>,
    key: Seq<u8>,
    d: Option<int>,
    p: Option<int>,
    after: DeleteScan,
) -> bool {
    &&& key_so_far(db, places, key, places.len() as int, d)
    &&& link_so_far(db, places, key_hash, places.len() as int, d, p)
    &&& after == (DeleteScan { deleted: found_at(db, places, d), prev: found_at(db, places, p) })
}

/// The walk stops at the place `n`, which cannot be read, before it has found both.
spec fn stops_at(
    db: Db,
    places: Seq<(u128, i64)>,
    key_hash: Seq<u8>,
    key: Seq<u8>,
    d: Option<int>,
    p: Option<int>,
    n: int,
    e: UpdateError,
) -> bool {
    &&& 0 <= n < places.len()
    &&& db.load(places[n].1) == Err::<Seq<u8>, UpdateError>(e)
    &&& key_so_far(db, places, key, n, d)
    &&& link_so_far(db, places, key_hash, n, d, p)
    &&& d is None || p is None
}

proof fn lemma_scan_from(
    db: Db,
    places: Seq<(u128, i64)>,
    key_hash: Seq<u8>,
    key: Seq<u8>,
    rec: Option<&OpRecord>,
    n: int,
    d: Option<int>,
    p: Option<int>,
)
    requires
        0 <= n <= places.len(),
        key_so_far(db, places, key, n, d),
        link_so_far(db, places, key_hash, n, d, p),
    ensures
        match db.scan_deleted(
            places.skip(n),
            key_hash,
            key,
            rec,
            DeleteScan { deleted: found_at(db, places, d), prev: found_at(db, places, p) },
        ) {
            Ok(after) => exists|d2: Option<int>, p2: Option<int>|
                ends_with(db, places, key_hash, key, d2, p2, after),
            Err(e) => db.check_rec || exists|d2: Option<int>, p2: Option<int>, m: int|
                stops_at(db, places, key_hash, key, d2, p2, m, e),
        },
    decreases places.len() - n,
{
    let found = DeleteScan { deleted: found_at(db, places, d), prev: found_at(db, places, p) };
    if n == places.len() || (d is Some && p is Some) {
        assert(ends_with(db, places, key_hash, key, d, p, found));
    } else {
        let here = places[n];
        assert(places.skip(n)[0] == here);
        assert(places.skip(n).skip(1) =~= places.skip(n + 1));
        match db.load(here.1) {
            Err(e) => {
                assert(stops_at(db, places, key_hash, key, d, p, n, e));
            },
            Ok(bz) => {
                if d is None && parse(bz).key == key {
                    assert(db.first_with_key(places, key, n));
                    assert(link_so_far(db, places, key_hash, n + 1, Some(n), p));
                    lemma_scan_from(db, places, key_hash, key, rec, n + 1, Some(n), p);
                } else if p is None && parse(bz).next_key_hash == key_hash {
                    assert(key_so_far(db, places, key, n + 1, d));
                    assert(link_so_far(db, places, key_hash, n + 1, d, Some(n)));
                    lemma_scan_from(db, places, key_hash, key, rec, n + 1, d, Some(n));
                } else {
                    assert(key_so_far(db, places, key, n + 1, d));
                    assert(link_so_far(db, places, key_hash, n + 1, d, p));
                    lemma_scan_from(db, places, key_hash, key, rec, n + 1, d, p);
                }
            },
        }
    }
}

/// The search for a key that is to be deleted, and for the entry before it, finds the first
/// place whose entry has the key, and of the other places the first whose entry names the
/// key's hash as the next one.
pub proof fn lemma_find_deleted_is_first(
    db: Db,
    places: Seq<(u128, i64)>,
    key_hash: Seq<u8>,
    key: Seq<u8>,
    rec: Option<&OpRecord>,
)
    ensures
        db.find_deleted(places, key_hash, key, rec) matches Ok((deleted, prev)) ==> exists|
            d: int,
            p: int,
        |
            {
                &&& #[trigger] db.first_with_key(places, key, d)
                &&& #[trigger] db.first_link_but(places, key_hash, d, p)
                &&& deleted == db.located(places[d])
                &&& prev == db.located(places[p])
            },
{
    assert(places.skip(0) =~= places);
    lemma_scan_from(db, places, key_hash, key, rec, 0, None, None);
    if db.find_deleted(places, key_hash, key, rec) is Ok {
        let none = DeleteScan { deleted: None, prev: None };
        let after = db.scan_deleted(places, key_hash, key, rec, none)->Ok_0;
        let (d, p) = choose|d: Option<int>, p: Option<int>|
            ends_with(db, places, key_hash, key, d, p, after);
        assert(db.first_with_key(places, key, d->0));
        assert(db.first_link_but(places, key_hash, d->0, p->0));
    }
}

/// Where records are not checked, the search for a key that is to be deleted ends well
/// where both places are there. It fails for want of the key if and only if all entries can
/// be read and none has it, and for want of the entry before it if and only if all can be
/// read, one has the key, and of the others none names its hash.
pub proof fn lemma_find_deleted_fails(
    db: Db,
    places: Seq<(u128, i64)>,
    key_hash: Seq<u8>,
    key: Seq<u8>,
    rec: Option<&OpRecord>,
)
    requires
        !db.check_rec,
    ensures
        forall|d: int, p: int|
            #[trigger] db.first_with_key(places, key, d) && #[trigger] db.first_link_but(
                places,
                key_hash,
                d,
                p,
            ) ==> db.find_deleted(places, key_hash, key, rec) == Ok::<
                (Located, Located),
                UpdateError,
            >((db.located(places[d]), db.located(places[p]))),
        db.find_deleted(places, key_hash, key, rec) == Err::<(Located, Located), UpdateError>(
            UpdateError::DeleteNonExistKey,
        ) <==> forall|i: int|
            0 <= i < places.len() ==> db.reads_other_key(#[trigger] places[i], key),
        db.find_deleted(places, key_hash, key, rec) == Err::<(Located, Located), UpdateError>(
            UpdateError::PrevEntryNotFound,
        ) <==> exists|d: int| #[trigger]
            db.first_with_key(places, key, d) && forall|j: int|
                0 <= j < places.len() && j != d ==> db.reads_other_link(
                    #[trigger] places[j],
                    key_hash,
                ),
{
    assert(places.skip(0) =~= places);
    lemma_scan_from(db, places, key_hash, key, rec, 0, None, None);
    let none = DeleteScan { deleted: None, prev: None };
    match db.scan_deleted(places, key_hash, key, rec, none) {
        Ok(after) => {
            let (d, p) = choose|d: Option<int>, p: Option<int>|
                ends_with(db, places, key_hash, key, d, p, after);
            assert(ends_with(db, places, key_hash, key, d, p, after));
            if d is Some {
                let x = d->0;
                assert(db.first_with_key(places, key, x));
                assert(!db.reads_other_key(places[x], key));
                assert forall|x2: int| #[trigger] db.first_with_key(places, key, x2) implies x2
                    == x by {
                    lemma_first_with_key_once(db, places, key, x, x2);
                }
                if p is Some {
                    let y = p->0;
                    assert(db.first_link_but(places, key_hash, x, y));
                    assert(!db.reads_other_link(places[y], key_hash));
                    assert forall|y2: int| #[trigger]
                        db.first_link_but(places, key_hash, x, y2) implies y2 == y by {
                        lemma_first_link_once(db, places, key_hash, x, y, y2);
                    }
                } else {
                    assert forall|y2: int| !#[trigger]
                        db.first_link_but(places, key_hash, x, y2) by {
                        if db.first_link_but(places, key_hash, x, y2) {
                            assert(db.reads_other_link(places[y2], key_hash));
                        }
                    }
                }
            } else {
                assert forall|x2: int| !#[trigger] db.first_with_key(places, key, x2) by {
                    if db.first_with_key(places, key, x2) {
                        assert(db.reads_other_key(places[x2], key));
                    }
                }
            }
        },
        Err(e) => {
            let (d, p, n) = choose|d: Option<int>, p: Option<int>, n: int|
                stops_at(db, places, key_hash, key, d, p, n, e);
            assert(stops_at(db, places, key_hash, key, d, p, n, e));
            assert(!db.reads_other_key(places[n], key));
            assert(!db.reads_other_link(places[n], key_hash));
            assert forall|x: int, y: int|
                !(#[trigger] db.first_with_key(places, key, x) && #[trigger] db.first_link_but(
                    places,
                    key_hash,
                    x,
                    y,
                )) by {
                lemma_both_before(db, places, key_hash, key, d, p, n, e, x, y);
            }
            assert forall|x: int| #[trigger] db.first_with_key(places, key, x) implies x != n by {
                assert(db.load(places[n].1) is Err);
            }
        },
    }
}

proof fn lemma_first_with_key_once(
    db: Db,
    places: Seq<(u128, i64)>,
    key: Seq<u8>,
    x: int,
    y: int,
)
    requires
        db.first_with_key(places, key, x),
        db.first_with_key(places, key, y),
    ensures
        x == y,
{
    if x < y {
        assert(db.reads_other_key(places[x], key));
    } else if y < x {
        assert(db.reads_other_key(places[y], key));
    }
}

proof fn lemma_first_link_once(
    db: Db,
    places: Seq<(u128, i64)>,
    key_hash: Seq<u8>,
    d: int,
    x: int,
    y: int,
)
    requires
        db.first_link_but(places, key_hash, d, x),
        db.first_link_but(places, key_hash, d, y),
    ensures
        x == y,
{
    if x < y {
        assert(db.reads_other_link(places[x], key_hash));
    } else if y < x {
        assert(db.reads_other_link(places[y], key_hash));
    }
}

/// Where the walk stops at a place that cannot be read before it has found both, one of
/// the two is not there.
proof fn lemma_both_before(
    db: Db,
    places: Seq<(u128, i64)>,
    key_hash: Seq<u8>,
    key: Seq<u8>,
    d: Option<int>,
    p: Option<int>,
    n: int,
    e: UpdateError,
    x: int,
    y: int,
)
    requires
        stops_at(db, places, key_hash, key, d, p, n, e),
    ensures
        !(db.first_with_key(places, key, x) && db.first_link_but(places, key_hash, x, y)),
{
    if db.first_with_key(places, key, x) && db.first_link_but(places, key_hash, x, y) {
        assert(x != n && y != n);
        if x > n {
            assert(db.reads_other_key(places[n], key));
        }
        if y > n {
            assert(db.reads_other_link(places[n], key_hash));
        }
        match d {
            None => {
                assert(db.reads_other_key(places[x], key));
            },
            Some(x0) => {
                lemma_first_with_key_once(db, places, key, x, x0);
                assert(p is None);
                assert(db.reads_other_link(places[y], key_hash));
            },
        }
    }
}

} // verus!
