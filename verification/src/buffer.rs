//! The update buffer: the end of the log, still in memory.

use std::collections::HashMap;
use vstd::prelude::*;

use crate::entry::{dump, fits, lemma_dump_parse, serialized_len, Entry, EntryView};

verus! {

broadcast use vstd::std_specs::hash::group_hash_axioms;

/// What is told of a block when it ends.
#[derive(Clone, Copy, PartialEq, Eq, Structural, Debug)]
pub struct EndBlock {
    /// Entries before this position have been moved away from it.
    pub compact_done_pos: i64,
    /// The least serial number that can still be active.
    pub sn_start: u64,
    /// The next serial number to be given.
    pub sn_end: u64,
}

/// The end of the log: the entries from `start` up to `end`, and the blocks ended.
#[verifier::ext_equal]
pub struct BufferView {
    pub start: i64,
    pub end: i64,
    pub entries: Map<i64, Seq<u8>>,
    pub blocks: Seq<EndBlock>,
}

impl BufferView {
    /// `bytes` more bytes can be added to the log.
    pub open spec fn has_room(self, bytes: int) -> bool {
        self.end + bytes <= i64::MAX
    }

    /// The buffer after the entry `e`, which deactivates `dsns`, is added at its end.
    pub open spec fn append(self, e: EntryView, dsns: Seq<u64>) -> BufferView {
        BufferView {
            end: (self.end + serialized_len(e, dsns.len())) as i64,
            entries: self.entries.insert(self.end, dump(e, dsns)),
            ..self
        }
    }
}

/// The end of the log, kept in memory until it is written to the entry file.
pub struct EntryBufferWriter {
    start: i64,
    end: i64,
    entries: HashMap<i64, Vec<u8>>,
    blocks: Vec<EndBlock>,
}

impl View for EntryBufferWriter {
    type V = BufferView;

    closed spec fn view(&self) -> BufferView {
        BufferView {
            start: self.start,
            end: self.end,
            entries: self.entries@.map_values(|v: Vec<u8>| v@),
            blocks: self.blocks@,
        }
    }
}

impl EntryBufferWriter {
    /// The buffer's entries stand between its start and its end.
    pub open spec fn wf(&self) -> bool {
        &&& 0 <= self@.start <= self@.end
        &&& forall|p: i64| #[trigger]
            self@.entries.contains_key(p) ==> self@.start <= p < self@.end
    }

    /// An empty buffer; the log before it ends at `start`.
    pub fn new(start: i64) -> (b: Self)
        requires
            start >= 0,
        ensures
            b.wf(),
            b@ == (BufferView {
                start,
                end: start,
                entries: Map::empty(),
                blocks: Seq::empty(),
            }),
    {
        let b = EntryBufferWriter {
            start,
            end: start,
            entries: HashMap::new(),
            blocks: Vec::new(),
        };
        assert(b@.entries =~= Map::<i64, Seq<u8>>::empty());
        b
    }

    /// Whether `bytes` more bytes can be added to the log.
    pub fn has_room(&self, bytes: usize) -> (r: bool)
        ensures
            r == self@.has_room(bytes as int),
    {
        self.end as i128 + bytes as i128 <= i64::MAX as i128
    }

    /// Adds an entry, which deactivates `dsns`, at the end of the log; returns where
    /// it stands.
    pub fn append(&mut self, entry: &Entry, dsns: &[u64]) -> (pos: i64)
        requires
            old(self).wf(),
            fits(entry@, dsns@),
            old(self)@.has_room(serialized_len(entry@, dsns@.len())),
        ensures
            final(self).wf(),
            pos == old(self)@.end,
            final(self)@ == old(self)@.append(entry@, dsns@),
    {
        let bz: Vec<u8> = entry.dump(dsns);
        proof {
            lemma_dump_parse(entry@, dsns@, Seq::empty());
            assert(dump(entry@, dsns@) + Seq::<u8>::empty() =~= dump(entry@, dsns@));
        }
        let pos: i64 = self.end;
        self.end = pos + bz.len() as i64;
        self.entries.insert(pos, bz);
        assert(self@ =~= old(self)@.append(entry@, dsns@)) by {
            assert(self@.entries =~= old(self)@.entries.insert(pos, dump(entry@, dsns@)));
        }
        pos
    }

    /// Looks for the entry at `file_pos`: first whether it has left the buffer, then
    /// its bytes, if the buffer has them.
    pub fn get_entry_bz_at(&self, file_pos: i64) -> (r: (bool, Option<&Vec<u8>>))
        requires
            self.wf(),
        ensures
            r.0 == (file_pos < self@.start),
            r.1 is Some == self@.entries.contains_key(file_pos),
            r.1 matches Some(bz) ==> bz@ == self@.entries[file_pos],
    {
        (file_pos < self.start, self.entries.get(&file_pos))
    }

    /// Ends a block.
    pub fn end_block(&mut self, compact_done_pos: i64, sn_start: u64, sn_end: u64)
        ensures
            old(self).wf() ==> final(self).wf(),
            final(self)@ == (BufferView {
                blocks: old(self)@.blocks.push(EndBlock { compact_done_pos, sn_start, sn_end }),
                ..old(self)@
            }),
    {
        self.blocks.push(EndBlock { compact_done_pos, sn_start, sn_end });
    }

    /// Number of blocks that have ended.
    pub fn block_count(&self) -> (n: usize)
        ensures
            n == self@.blocks.len(),
    {
        self.blocks.len()
    }

    /// What was told of the `i`-th block that ended.
    pub fn block(&self, i: usize) -> (b: EndBlock)
        requires
            i < self@.blocks.len(),
        ensures
            b == self@.blocks[i as int],
    {
        self.blocks[i]
    }
}

} // verus!
