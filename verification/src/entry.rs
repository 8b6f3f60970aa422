//! Entries and their layout in the log.
//!
//! An entry is written as: the key's length (one byte), the value's length (three
//! bytes), the number of deactivated serial numbers (one byte), the key, the
//! value, the hash of the next key (32 bytes), the version and the serial number
//! (eight bytes each), zeros up to a multiple of eight, and the deactivated serial
//! numbers (eight bytes each). All numbers are little-endian.

use vstd::bytes::{
    lemma_auto_spec_u64_to_from_le_bytes, spec_u64_from_le_bytes, spec_u64_to_le_bytes,
    u64_from_le_bytes, u64_to_le_bytes,
};
use vstd::prelude::*;
use vstd::slice::slice_subrange;

use crate::bytes::{append_bytes, bytes_equal};
use crate::hash::{sha256, sha256_digest};

verus! {

/// Length of the three length fields in front of the key.
pub const HEADER_LEN: usize = 5;

/// Length of a key hash.
pub const HASH_LEN: usize = 32;

/// Length of an entry with an empty key, an empty value, and no padding.
pub const ENTRY_BASE_LENGTH: usize = 53;

/// Largest length of a key.
pub const MAX_KEY_LEN: usize = 0xff;

/// Largest length of a value.
pub const MAX_VALUE_LEN: usize = 0xff_ffff;

/// Largest number of serial numbers that one entry deactivates.
pub const MAX_DSN_COUNT: usize = 0xff;

/// What an entry says.
#[verifier::ext_equal]
pub struct EntryView {
    pub key: Seq<u8>,
    pub value: Seq<u8>,
    pub next_key_hash: Seq<u8>,
    pub version: i64,
    pub serial_number: u64,
}

/// The least multiple of eight that is at least `n`.
pub open spec fn padded(n: int) -> int {
    (n + 7) / 8 * 8
}

pub open spec fn key_len(b: Seq<u8>) -> int {
    b[0] as int
}

pub open spec fn value_len(b: Seq<u8>) -> int {
    b[1] + b[2] * 0x100 + b[3] * 0x1_0000
}

pub open spec fn dsn_count(b: Seq<u8>) -> int {
    b[4] as int
}

/// Length of the entry that starts with `b`, up to and with its serial number.
pub open spec fn payload_len(b: Seq<u8>) -> int {
    ENTRY_BASE_LENGTH + key_len(b) + value_len(b)
}

/// Length of the entry that starts with `b`, as its length fields give it.
pub open spec fn entry_len(b: Seq<u8>) -> int {
    padded(payload_len(b)) + 8 * dsn_count(b)
}

/// `b` holds all the bytes of the entry that it starts with.
pub open spec fn well_formed(b: Seq<u8>) -> bool {
    b.len() >= HEADER_LEN && b.len() >= entry_len(b)
}

/// Where the hash of the next key stands in an entry.
pub open spec fn next_hash_start(b: Seq<u8>) -> int {
    HEADER_LEN + key_len(b) + value_len(b)
}

/// The entry that starts with `b`.
pub open spec fn parse(b: Seq<u8>) -> EntryView {
    let value_start = HEADER_LEN + key_len(b);
    let hash_start = next_hash_start(b);
    EntryView {
        key: b.subrange(HEADER_LEN as int, value_start),
        value: b.subrange(value_start, hash_start),
        next_key_hash: b.subrange(hash_start, hash_start + 32),
        version: spec_u64_from_le_bytes(b.subrange(hash_start + 32, hash_start + 40)) as i64,
        serial_number: spec_u64_from_le_bytes(b.subrange(hash_start + 40, hash_start + 48)),
    }
}

/// The serial numbers that the entry starting with `b` deactivates.
pub open spec fn parse_dsns(b: Seq<u8>) -> Seq<u64> {
    let start = padded(payload_len(b));
    Seq::new(
        dsn_count(b) as nat,
        |i: int| spec_u64_from_le_bytes(b.subrange(start + 8 * i, start + 8 * i + 8)),
    )
}

/// Length of the log entry that says `e` and deactivates `n` serial numbers.
pub open spec fn serialized_len(e: EntryView, n: nat) -> int {
    padded((ENTRY_BASE_LENGTH + e.key.len() + e.value.len()) as int) + 8 * n
}

/// The lengths of `e` and `dsns` can be written in the length fields.
pub open spec fn fits(e: EntryView, dsns: Seq<u64>) -> bool {
    &&& e.key.len() <= MAX_KEY_LEN
    &&& e.value.len() <= MAX_VALUE_LEN
    &&& e.next_key_hash.len() == HASH_LEN
    &&& dsns.len() <= MAX_DSN_COUNT
}

pub open spec fn zeros(n: nat) -> Seq<u8> {
    Seq::new(n, |i: int| 0u8)
}

/// Serial numbers, one after the other.
pub open spec fn sn_bytes(sns: Seq<u64>) -> Seq<u8>
    decreases sns.len(),
{
    if sns.len() == 0 {
        Seq::empty()
    } else {
        sn_bytes(sns.drop_last()) + spec_u64_to_le_bytes(sns.last())
    }
}

/// The three length fields.
pub open spec fn header(key_len: nat, value_len: nat, dsn_count: nat) -> Seq<u8> {
    seq![
        key_len as u8,
        (value_len % 0x100) as u8,
        (value_len / 0x100 % 0x100) as u8,
        (value_len / 0x1_0000) as u8,
        dsn_count as u8,
    ]
}

/// The bytes of the log entry that says `e` and deactivates `dsns`.
pub open spec fn dump(e: EntryView, dsns: Seq<u64>) -> Seq<u8> {
    let payload = ENTRY_BASE_LENGTH + e.key.len() + e.value.len();
    header(e.key.len(), e.value.len(), dsns.len()) + e.key + e.value + e.next_key_hash
        + spec_u64_to_le_bytes(e.version as u64) + spec_u64_to_le_bytes(e.serial_number) + zeros(
        (padded(payload as int) - payload) as nat,
    ) + sn_bytes(dsns)
}

proof fn lemma_sn_bytes(sns: Seq<u64>)
    ensures
        sn_bytes(sns).len() == 8 * sns.len(),
        forall|i: int|
            0 <= i < sns.len() ==> #[trigger] sn_bytes(sns).subrange(8 * i, 8 * i + 8)
                == spec_u64_to_le_bytes(sns[i]),
    decreases sns.len(),
{
    lemma_auto_spec_u64_to_from_le_bytes();
    if sns.len() > 0 {
        let front = sns.drop_last();
        lemma_sn_bytes(front);
        assert forall|i: int| 0 <= i < sns.len() implies #[trigger] sn_bytes(sns).subrange(
            8 * i,
            8 * i + 8,
        ) == spec_u64_to_le_bytes(sns[i]) by {
            if i < front.len() {
                assert(sn_bytes(sns).subrange(8 * i, 8 * i + 8) =~= sn_bytes(front).subrange(
                    8 * i,
                    8 * i + 8,
                ));
            } else {
                assert(sn_bytes(sns).subrange(8 * i, 8 * i + 8) =~= spec_u64_to_le_bytes(
                    sns.last(),
                ));
            }
        }
    }
}

proof fn lemma_header(key_len: nat, value_len: nat, dsn_count: nat)
    requires
        key_len <= MAX_KEY_LEN,
        value_len <= MAX_VALUE_LEN,
        dsn_count <= MAX_DSN_COUNT,
    ensures
        header(key_len, value_len, dsn_count)[0] == key_len,
        header(key_len, value_len, dsn_count)[1] + header(key_len, value_len, dsn_count)[2] * 0x100
            + header(key_len, value_len, dsn_count)[3] * 0x1_0000 == value_len,
        header(key_len, value_len, dsn_count)[4] == dsn_count,
{
}

/// A written entry is read back as it was: its length fields give its own length,
/// and it says what was written, whatever bytes follow it.
pub proof fn lemma_dump_parse(e: EntryView, dsns: Seq<u64>, rest: Seq<u8>)
    requires
        fits(e, dsns),
    ensures
        dump(e, dsns).len() == serialized_len(e, dsns.len()),
        entry_len(dump(e, dsns) + rest) == dump(e, dsns).len(),
        well_formed(dump(e, dsns) + rest),
        parse(dump(e, dsns) + rest) == e,
        parse_dsns(dump(e, dsns) + rest) == dsns,
{
    lemma_auto_spec_u64_to_from_le_bytes();
    lemma_sn_bytes(dsns);
    let b = dump(e, dsns) + rest;
    let h = header(e.key.len(), e.value.len(), dsns.len());
    lemma_header(e.key.len(), e.value.len(), dsns.len());
    assert(b[0] == h[0] && b[1] == h[1] && b[2] == h[2] && b[3] == h[3] && b[4] == h[4]);
    let hash_start = next_hash_start(b);
    assert(b.subrange(5, HEADER_LEN + e.key.len()) =~= e.key);
    assert(b.subrange(HEADER_LEN + e.key.len(), hash_start) =~= e.value);
    assert(b.subrange(hash_start, hash_start + 32) =~= e.next_key_hash);
    assert(b.subrange(hash_start + 32, hash_start + 40) =~= spec_u64_to_le_bytes(e.version as u64));
    assert(b.subrange(hash_start + 40, hash_start + 48) =~= spec_u64_to_le_bytes(e.serial_number));
    let version = e.version;
    assert((version as u64) as i64 == version) by (bit_vector);
    let start = padded(payload_len(b));
    assert(parse_dsns(b) =~= dsns) by {
        assert forall|i: int| 0 <= i < dsns.len() implies parse_dsns(b)[i] == dsns[i] by {
            assert(b.subrange(start + 8 * i, start + 8 * i + 8) =~= sn_bytes(dsns).subrange(
                8 * i,
                8 * i + 8,
            ));
        }
    }
}

/// An entry, with its parts borrowed from where they stand.
pub struct Entry<'a> {
    pub key: &'a [u8],
    pub value: &'a [u8],
    pub next_key_hash: &'a [u8],
    pub version: i64,
    pub serial_number: u64,
}

impl<'a> View for Entry<'a> {
    type V = EntryView;

    open spec fn view(&self) -> EntryView {
        EntryView {
            key: self.key@,
            value: self.value@,
            next_key_hash: self.next_key_hash@,
            version: self.version,
            serial_number: self.serial_number,
        }
    }
}

impl<'a> Entry<'a> {
    /// The entry that `bz` starts with.
    pub fn from_bz(bz: &EntryBz<'a>) -> (e: Entry<'a>)
        requires
            well_formed(bz.bz@),
        ensures
            e@ == parse(bz.bz@),
    {
        Entry {
            key: bz.key(),
            value: bz.value(),
            next_key_hash: bz.next_key_hash(),
            version: bz.version(),
            serial_number: bz.serial_number(),
        }
    }

    /// Whether the entry can be written with `dsn_count` deactivated serial numbers.
    pub fn has_valid_lengths(&self, dsn_count: usize) -> (r: bool)
        ensures
            forall|dsns: Seq<u64>| dsns.len() == dsn_count ==> r == #[trigger] fits(self@, dsns),
    {
        self.key.len() <= MAX_KEY_LEN && self.value.len() <= MAX_VALUE_LEN
            && self.next_key_hash.len() == HASH_LEN && dsn_count <= MAX_DSN_COUNT
    }

    /// Number of bytes that the entry takes in the log.
    pub fn get_serialized_len(&self, dsn_count: usize) -> (n: usize)
        requires
            self@.key.len() <= MAX_KEY_LEN,
            self@.value.len() <= MAX_VALUE_LEN,
            dsn_count <= MAX_DSN_COUNT,
        ensures
            n == serialized_len(self@, dsn_count as nat),
    {
        let payload: usize = ENTRY_BASE_LENGTH + self.key.len() + self.value.len();
        (payload + 7) / 8 * 8 + 8 * dsn_count
    }

    /// The bytes of the entry in the log.
    pub fn dump(&self, dsns: &[u64]) -> (b: Vec<u8>)
        requires
            fits(self@, dsns@),
        ensures
            b@ == dump(self@, dsns@),
    {
        proof {
            lemma_auto_spec_u64_to_from_le_bytes();
        }
        let value_len: usize = self.value.len();
        let payload: usize = ENTRY_BASE_LENGTH + self.key.len() + value_len;
        let end: usize = (payload + 7) / 8 * 8;
        let mut b: Vec<u8> = Vec::new();
        b.push(self.key.len() as u8);
        b.push((value_len % 0x100) as u8);
        b.push((value_len / 0x100 % 0x100) as u8);
        b.push((value_len / 0x1_0000) as u8);
        b.push(dsns.len() as u8);
        assert(b@ =~= header(self.key@.len(), self.value@.len(), dsns@.len()));
        append_bytes(&mut b, self.key);
        append_bytes(&mut b, self.value);
        append_bytes(&mut b, self.next_key_hash);
        append_bytes(&mut b, u64_to_le_bytes(self.version as u64).as_slice());
        append_bytes(&mut b, u64_to_le_bytes(self.serial_number).as_slice());
        let ghost body = b@;
        let mut n: usize = payload;
        while n < end
            invariant
                payload <= n <= end,
                b@ == body + zeros((n - payload) as nat),
            decreases end - n,
        {
            b.push(0);
            n += 1;
            assert(b@ =~= body + zeros((n - payload) as nat));
        }
        let ghost padded_body = b@;
        let mut i: usize = 0;
        while i < dsns.len()
            invariant
                i <= dsns.len(),
                b@ == padded_body + sn_bytes(dsns@.take(i as int)),
            decreases dsns.len() - i,
        {
            append_bytes(&mut b, u64_to_le_bytes(dsns[i]).as_slice());
            i += 1;
            proof {
                let t = dsns@.take(i as int);
                assert(t.drop_last() =~= dsns@.take(i - 1));
                assert(b@ =~= padded_body + sn_bytes(t));
            }
        }
        assert(dsns@.take(i as int) =~= dsns@);
        b
    }
}

/// The bytes of an entry.
pub struct EntryBz<'a> {
    pub bz: &'a [u8],
}

impl<'a> EntryBz<'a> {
    /// Length of the entry that `b` starts with, from its length fields.
    pub fn get_entry_len(b: &[u8]) -> (n: usize)
        requires
            b@.len() >= HEADER_LEN,
        ensures
            n == entry_len(b@),
    {
        let value_len: usize = b[1] as usize + b[2] as usize * 0x100 + b[3] as usize * 0x1_0000;
        let payload: usize = ENTRY_BASE_LENGTH + b[0] as usize + value_len;
        (payload + 7) / 8 * 8 + 8 * (b[4] as usize)
    }

    /// Whether all the bytes of the entry are there.
    pub fn is_well_formed(&self) -> (r: bool)
        ensures
            r == well_formed(self.bz@),
    {
        self.bz.len() >= HEADER_LEN && self.bz.len() >= EntryBz::get_entry_len(self.bz)
    }

    fn value_start(&self) -> (n: usize)
        requires
            well_formed(self.bz@),
        ensures
            n == HEADER_LEN + key_len(self.bz@),
    {
        HEADER_LEN + self.bz[0] as usize
    }

    fn hash_start(&self) -> (n: usize)
        requires
            well_formed(self.bz@),
        ensures
            n == next_hash_start(self.bz@),
    {
        let b: &[u8] = self.bz;
        let value_len: usize = b[1] as usize + b[2] as usize * 0x100 + b[3] as usize * 0x1_0000;
        HEADER_LEN + b[0] as usize + value_len
    }

    pub fn key(&self) -> (k: &'a [u8])
        requires
            well_formed(self.bz@),
        ensures
            k@ == parse(self.bz@).key,
    {
        slice_subrange(self.bz, HEADER_LEN, self.value_start())
    }

    pub fn value(&self) -> (v: &'a [u8])
        requires
            well_formed(self.bz@),
        ensures
            v@ == parse(self.bz@).value,
    {
        slice_subrange(self.bz, self.value_start(), self.hash_start())
    }

    pub fn next_key_hash(&self) -> (h: &'a [u8])
        requires
            well_formed(self.bz@),
        ensures
            h@ == parse(self.bz@).next_key_hash,
    {
        let start: usize = self.hash_start();
        slice_subrange(self.bz, start, start + 32)
    }

    pub fn version(&self) -> (v: i64)
        requires
            well_formed(self.bz@),
        ensures
            v == parse(self.bz@).version,
    {
        let start: usize = self.hash_start();
        u64_from_le_bytes(slice_subrange(self.bz, start + 32, start + 40)) as i64
    }

    pub fn serial_number(&self) -> (sn: u64)
        requires
            well_formed(self.bz@),
        ensures
            sn == parse(self.bz@).serial_number,
    {
        let start: usize = self.hash_start();
        u64_from_le_bytes(slice_subrange(self.bz, start + 40, start + 48))
    }

    /// The hash of the entry's key.
    pub fn key_hash(&self) -> (h: [u8; 32])
        requires
            well_formed(self.bz@),
        ensures
            h@ == sha256(parse(self.bz@).key),
    {
        sha256_digest(self.key())
    }

    /// Number of bytes held.
    pub fn len(&self) -> (n: usize)
        ensures
            n == self.bz@.len(),
    {
        self.bz.len()
    }
}

/// `bz` holds just the bytes of the log entry that says `e` and deactivates `dsns`.
pub open spec fn is_dump(bz: Seq<u8>, e: EntryView, dsns: Seq<u64>) -> bool {
    fits(e, dsns) && bz == dump(e, dsns)
}

/// Whether `bz` is the log entry that says `entry` and deactivates `dsns`.
pub fn entry_equal(bz: &[u8], entry: &Entry, dsns: &[u64]) -> (r: bool)
    ensures
        r == is_dump(bz@, entry@, dsns@),
{
    if !entry.has_valid_lengths(dsns.len()) {
        return false;
    }
    bytes_equal(bz, entry.dump(dsns).as_slice())
}

} // verus!
