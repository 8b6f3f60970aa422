//! The entry file: the part of the log that has left the buffer.

use vstd::prelude::*;
use vstd::slice::slice_subrange;

use crate::bytes::append_bytes;
use crate::entry::{entry_len, EntryBz, HEADER_LEN};

verus! {

/// A whole entry stands at `pos` in the file.
pub open spec fn file_has_entry(file: Seq<u8>, pos: i64) -> bool {
    &&& 0 <= pos
    &&& pos + HEADER_LEN <= file.len()
    &&& pos + entry_len(file.skip(pos as int)) <= file.len()
}

/// The bytes of the entry that stands at `pos` in the file.
pub open spec fn file_entry(file: Seq<u8>, pos: i64) -> Seq<u8> {
    file.subrange(pos as int, pos + entry_len(file.skip(pos as int)))
}

/// The bytes of the entry file, from its start on.
pub struct EntryFile {
    data: Vec<u8>,
}

impl View for EntryFile {
    type V = Seq<u8>;

    closed spec fn view(&self) -> Seq<u8> {
        self.data@
    }
}

impl EntryFile {
    /// The file that holds `data`.
    pub fn new(data: Vec<u8>) -> (f: Self)
        ensures
            f@ == data@,
    {
        EntryFile { data }
    }

    /// Adds bytes at the end; returns where they start, unless the file is too long
    /// for a position.
    pub fn append(&mut self, bz: &[u8]) -> (pos: Option<i64>)
        ensures
            pos is Some == (old(self)@.len() <= i64::MAX),
            pos matches Some(p) ==> p == old(self)@.len() && final(self)@ == old(self)@ + bz@,
            pos is None ==> final(self)@ == old(self)@,
    {
        let at: usize = self.data.len();
        if at as u128 > i64::MAX as u128 {
            return None;
        }
        append_bytes(&mut self.data, bz);
        Some(at as i64)
    }

    /// Reads the entry at `file_pos` into `buf`, as far as it fits there, and returns
    /// the entry's length; returns `None` where no whole entry stands there.
    pub fn read_entry(&self, file_pos: i64, buf: &mut Vec<u8>) -> (size: Option<usize>)
        ensures
            size is Some == file_has_entry(self@, file_pos),
            size is None ==> final(buf)@ == old(buf)@,
            size matches Some(n) ==> {
                let entry = file_entry(self@, file_pos);
                &&& n == entry.len()
                &&& n <= old(buf)@.len() ==> final(buf)@ == entry + old(buf)@.skip(n as int)
                &&& n > old(buf)@.len() ==> final(buf)@ == entry.take(old(buf)@.len() as int)
            },
    {
        if file_pos < 0 || file_pos as u128 > self.data.len() as u128 {
            return None;
        }
        let start: usize = file_pos as usize;
        if self.data.len() - start < HEADER_LEN {
            return None;
        }
        let tail: &[u8] = slice_subrange(self.data.as_slice(), start, self.data.len());
        assert(tail@ =~= self.data@.skip(start as int));
        let size: usize = EntryBz::get_entry_len(tail);
        if tail.len() < size {
            return None;
        }
        let ghost entry = file_entry(self@, file_pos);
        let mut i: usize = 0;
        while i < size && i < buf.len()
            invariant
                i <= size,
                i <= buf@.len() == old(buf)@.len(),
                size == entry.len() <= tail@.len(),
                entry =~= tail@.take(size as int),
                buf@ =~= entry.take(i as int) + old(buf)@.skip(i as int),
            decreases size - i,
        {
            buf[i] = tail[i];
            i += 1;
        }
        assert(size <= buf@.len() ==> entry.take(i as int) =~= entry);
        Some(size)
    }
}

} // verus!
