//! Entries that were read ahead of the task that needs them.

use std::collections::HashMap;
use vstd::prelude::*;

use crate::bytes::copy_bytes;
use crate::entry::EntryBz;

verus! {

broadcast use vstd::std_specs::hash::group_hash_axioms;

/// The bytes of entries, by shard and log position.
pub type CacheView = Map<(usize, i64), Seq<u8>>;

/// Bytes of entries, kept in memory for one block.
pub struct EntryCache {
    by_pos: HashMap<i64, HashMap<usize, Vec<u8>>>,
}

impl View for EntryCache {
    type V = CacheView;

    closed spec fn view(&self) -> CacheView {
        Map::new(
            |place: (usize, i64)|
                self.by_pos@.contains_key(place.1) && self.by_pos@[place.1]@.contains_key(place.0),
            |place: (usize, i64)| self.by_pos@[place.1]@[place.0]@,
        )
    }
}

impl EntryCache {
    /// A cache with no entry.
    pub fn new_uninit() -> (c: Self)
        ensures
            c@ == CacheView::empty(),
    {
        let c = EntryCache { by_pos: HashMap::new() };
        assert(c@ =~= CacheView::empty());
        c
    }

    /// Keeps the bytes of the entry that stands at `file_pos` in the log of a shard.
    pub fn insert(&mut self, shard_id: usize, file_pos: i64, entry_bz: &EntryBz)
        ensures
            final(self)@ == old(self)@.insert((shard_id, file_pos), entry_bz.bz@),
    {
        let mut by_shard = match self.by_pos.remove(&file_pos) {
            Some(m) => m,
            None => HashMap::new(),
        };
        by_shard.insert(shard_id, copy_bytes(entry_bz.bz));
        self.by_pos.insert(file_pos, by_shard);
        assert(self@ =~= old(self)@.insert((shard_id, file_pos), entry_bz.bz@));
    }

    /// The bytes of the entry at `file_pos`, if they are kept.
    pub fn lookup(&self, shard_id: usize, file_pos: i64) -> (r: Option<&Vec<u8>>)
        ensures
            r is Some == self@.contains_key((shard_id, file_pos)),
            r matches Some(bz) ==> bz@ == self@[(shard_id, file_pos)],
    {
        match self.by_pos.get(&file_pos) {
            Some(by_shard) => by_shard.get(&shard_id),
            None => None,
        }
    }
}

} // verus!
