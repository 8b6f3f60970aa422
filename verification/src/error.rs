//! Why an update stops.

use vstd::prelude::*;
use vstd::string::{StrSliceExecFns, StringExecFns};

verus! {

#[derive(Clone, Copy, PartialEq, Eq, Structural, Debug)]
pub enum UpdateError {
    /// No entry stands at a position that the index gives.
    CannotReadEntry,
    /// The bytes of an entry end before the entry does.
    MalformedEntry,
    /// A key that does not exist was written.
    WriteToNonExistKey,
    /// A key that does not exist was deleted.
    DeleteNonExistKey,
    /// No entry names the deleted key as the next one.
    PrevEntryNotFound,
    /// No entry stands around the created key.
    PrevKeyNotFound,
    /// The operation has an unknown type.
    UnsupportedOperation,
    /// The task is not in the hub.
    UnknownTask,
    /// Another task has begun and not ended.
    OtherTaskRunning,
    /// A compaction is due, and no job that was received is for a live entry.
    CompactJobsExhausted,
    /// The key or the value is too long for an entry.
    EntryTooLong,
    /// There is no next serial number.
    SerialNumberOverflow,
    /// There is no position that far in the log.
    FilePositionOverflow,
    /// There is no next version.
    VersionOverflow,
    /// The record has another number of active entries.
    IncorrectNumActive,
    /// The record has another oldest active serial number.
    IncorrectSnStart,
    /// The record has another deleted entry.
    CompareOldEntry,
    /// The record has another previous entry.
    ComparePrevEntry,
    /// The record has another change of the previous entry.
    ComparePrevChanged,
    /// The record has another new entry.
    CompareNewEntry,
    /// The record has another entry to be compacted.
    CompareDigEntry,
    /// The record has another entry to be written by the compaction.
    ComparePutEntry,
}

/// The decimal digits, in order.
pub const DIGITS: &'static str = "0123456789";

/// The decimal digits of `n`.
pub open spec fn decimal_text(n: int) -> Seq<char>
    decreases n,
{
    if n < 10 {
        DIGITS@.subrange(n, n + 1)
    } else {
        decimal_text(n / 10) + DIGITS@.subrange(n % 10, n % 10 + 1)
    }
}

/// The bytes in decimal, with a comma and a space between them.
pub open spec fn joined_text(bytes: Seq<u8>) -> Seq<char>
    decreases bytes.len(),
{
    if bytes.len() == 0 {
        Seq::empty()
    } else if bytes.len() == 1 {
        decimal_text(bytes[0] as int)
    } else {
        joined_text(bytes.drop_last()) + ", "@ + decimal_text(bytes.last() as int)
    }
}

/// A list of bytes, in square brackets.
pub open spec fn list_text(bytes: Seq<u8>) -> Seq<char> {
    "["@ + joined_text(bytes) + "]"@
}

fn append_decimal(s: &mut String, n: usize)
    ensures
        final(s)@ == old(s)@ + decimal_text(n as int),
    decreases n,
{
    if n >= 10 {
        append_decimal(s, n / 10);
    }
    proof {
        reveal_strlit("0123456789");
    }
    let d: usize = n % 10;
    s.append(DIGITS.substring_ascii(d, d + 1));
    assert(s@ =~= old(s)@ + decimal_text(n as int));
}

fn append_list(s: &mut String, bytes: &[u8])
    ensures
        final(s)@ == old(s)@ + list_text(bytes@),
{
    s.append("[");
    let ghost start = s@;
    let mut i: usize = 0;
    assert(s@ =~= start + joined_text(bytes@.take(0)));
    while i < bytes.len()
        invariant
            i <= bytes@.len(),
            s@ == start + joined_text(bytes@.take(i as int)),
        decreases bytes@.len() - i,
    {
        let ghost t = bytes@.take(i + 1);
        assert(t.drop_last() =~= bytes@.take(i as int));
        if i > 0 {
            s.append(", ");
        }
        append_decimal(s, bytes[i] as usize);
        i += 1;
        assert(s@ =~= start + joined_text(t));
    }
    assert(bytes@.take(i as int) =~= bytes@);
    s.append("]");
    assert(s@ =~= old(s)@ + list_text(bytes@));
}

impl UpdateError {
    /// What the error says, as far as it does not depend on the operation.
    pub open spec fn label_text(self) -> Seq<char> {
        match self {
            UpdateError::CannotReadEntry => "Cannot read the entry"@,
            UpdateError::MalformedEntry => "Malformed entry"@,
            UpdateError::WriteToNonExistKey => "Write to non-exist key"@,
            UpdateError::DeleteNonExistKey => "Delete non-exist key"@,
            UpdateError::PrevEntryNotFound => "Cannot find prevEntry"@,
            UpdateError::PrevKeyNotFound => "Cannot find prevKey when creating"@,
            UpdateError::UnsupportedOperation => "Updater: unsupported operation"@,
            UpdateError::UnknownTask => "Unknown task"@,
            UpdateError::OtherTaskRunning => "Another task has begun and not ended"@,
            UpdateError::CompactJobsExhausted => "No compaction job is left"@,
            UpdateError::EntryTooLong => "Entry too long"@,
            UpdateError::SerialNumberOverflow => "Serial number overflow"@,
            UpdateError::FilePositionOverflow => "File position overflow"@,
            UpdateError::VersionOverflow => "Version overflow"@,
            UpdateError::IncorrectNumActive => "incorrect num_active"@,
            UpdateError::IncorrectSnStart => "incorrect sn_start"@,
            UpdateError::CompareOldEntry => "compare_old_entry failed"@,
            UpdateError::ComparePrevEntry => "compare_prev_entry failed"@,
            UpdateError::ComparePrevChanged => "compare_prev_changed failed"@,
            UpdateError::CompareNewEntry => "compare_new_entry failed"@,
            UpdateError::CompareDigEntry => "compare_dig_entry failed"@,
            UpdateError::ComparePutEntry => "compare_put_entry failed"@,
        }
    }

    /// What the error says of an operation of the shard `shard_id` on a key.
    pub open spec fn text(self, shard_id: usize, key: Seq<u8>, key_hash: Seq<u8>) -> Seq<char> {
        match self {
            UpdateError::WriteToNonExistKey => self.label_text() + " shard_id="@ + decimal_text(
                shard_id as int,
            ) + " key="@ + list_text(key) + " key_hash="@ + list_text(key_hash),
            UpdateError::DeleteNonExistKey => self.label_text() + " at id=-1 key="@ + list_text(
                key,
            ),
            UpdateError::PrevKeyNotFound => self.label_text() + " shard_id="@ + decimal_text(
                shard_id as int,
            ) + " key="@ + list_text(key),
            _ => self.label_text(),
        }
    }

    fn label(self) -> (s: &'static str)
        ensures
            s@ == self.label_text(),
    {
        match self {
            UpdateError::CannotReadEntry => "Cannot read the entry",
            UpdateError::MalformedEntry => "Malformed entry",
            UpdateError::WriteToNonExistKey => "Write to non-exist key",
            UpdateError::DeleteNonExistKey => "Delete non-exist key",
            UpdateError::PrevEntryNotFound => "Cannot find prevEntry",
            UpdateError::PrevKeyNotFound => "Cannot find prevKey when creating",
            UpdateError::UnsupportedOperation => "Updater: unsupported operation",
            UpdateError::UnknownTask => "Unknown task",
            UpdateError::OtherTaskRunning => "Another task has begun and not ended",
            UpdateError::CompactJobsExhausted => "No compaction job is left",
            UpdateError::EntryTooLong => "Entry too long",
            UpdateError::SerialNumberOverflow => "Serial number overflow",
            UpdateError::FilePositionOverflow => "File position overflow",
            UpdateError::VersionOverflow => "Version overflow",
            UpdateError::IncorrectNumActive => "incorrect num_active",
            UpdateError::IncorrectSnStart => "incorrect sn_start",
            UpdateError::CompareOldEntry => "compare_old_entry failed",
            UpdateError::ComparePrevEntry => "compare_prev_entry failed",
            UpdateError::ComparePrevChanged => "compare_prev_changed failed",
            UpdateError::CompareNewEntry => "compare_new_entry failed",
            UpdateError::CompareDigEntry => "compare_dig_entry failed",
            UpdateError::ComparePutEntry => "compare_put_entry failed",
        }
    }

    /// What the error says of an operation of the shard `shard_id` on a key.
    pub fn message(self, shard_id: usize, key: &[u8], key_hash: &[u8]) -> (s: String)
        ensures
            s@ == self.text(shard_id, key@, key_hash@),
    {
        let mut s: String = String::from_str(self.label());
        match self {
            UpdateError::WriteToNonExistKey => {
                s.append(" shard_id=");
                append_decimal(&mut s, shard_id);
                s.append(" key=");
                append_list(&mut s, key);
                s.append(" key_hash=");
                append_list(&mut s, key_hash);
            },
            UpdateError::DeleteNonExistKey => {
                s.append(" at id=-1 key=");
                append_list(&mut s, key);
            },
            UpdateError::PrevKeyNotFound => {
                s.append(" shard_id=");
                append_decimal(&mut s, shard_id);
                s.append(" key=");
                append_list(&mut s, key);
            },
            _ => {},
        }
        s
    }
}

/// In a list of bytes, each but the last is followed by a comma and a space; a list of none
/// is a pair of brackets.
pub proof fn lemma_list_of_bytes(x: u8, rest: Seq<u8>)
    ensures
        joined_text(Seq::<u8>::empty()) == Seq::<char>::empty(),
        joined_text(seq![x]) == decimal_text(x as int),
        rest.len() > 0 ==> joined_text(seq![x] + rest) == decimal_text(x as int) + seq![',', ' ']
            + joined_text(rest),
        list_text(rest) == seq!['['] + joined_text(rest) + seq![']'],
    decreases rest.len(),
{
    reveal_strlit(", ");
    reveal_strlit("[");
    reveal_strlit("]");
    assert(", "@ =~= seq![',', ' ']);
    assert("["@ =~= seq!['[']);
    assert("]"@ =~= seq![']']);
    let all = seq![x] + rest;
    if rest.len() > 0 {
        let front = rest.drop_last();
        lemma_list_of_bytes(x, front);
        assert(all.drop_last() =~= seq![x] + front);
        assert(all.last() == rest.last());
        if front.len() == 0 {
            assert(seq![x] + front =~= seq![x]);
            assert(rest =~= seq![rest[0]]);
        }
        assert(joined_text(all) =~= decimal_text(x as int) + seq![',', ' '] + joined_text(rest));
    }
}

} // verus!
