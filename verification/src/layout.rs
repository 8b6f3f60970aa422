//! Where the parts of an entry stand among its bytes, byte by byte.

use vstd::bytes::{
    lemma_auto_spec_u64_to_from_le_bytes, spec_u64_from_le_bytes, spec_u64_to_le_bytes,
    spec_u64_to_le_bytes_open, spec_u64_to_le_bytes_to_open,
};
use vstd::prelude::*;

use crate::entry::{
    dump, entry_len, fits, header, is_dump, lemma_dump_parse, parse, parse_dsns, sn_bytes,
    well_formed, zeros, EntryView,
};

verus! {

/// The number that the eight bytes of `b` from `at` on write, the least significant first.
pub open spec fn le_number(b: Seq<u8>, at: int) -> int {
    b[at] + b[at + 1] * 0x100 + b[at + 2] * 0x1_0000 + b[at + 3] * 0x100_0000 + b[at + 4]
        * 0x1_0000_0000 + b[at + 5] * 0x100_0000_0000 + b[at + 6] * 0x1_0000_0000_0000 + b[at + 7]
        * 0x100_0000_0000_0000
}

/// What `n` is written as when it takes 64 bits: a negative number counts back from 2^64.
pub open spec fn unsigned(n: i64) -> int {
    if n < 0 {
        n + 0x1_0000_0000_0000_0000
    } else {
        n as int
    }
}

proof fn lemma_le_bytes(x: u64)
    ensures
        spec_u64_to_le_bytes(x).len() == 8,
        le_number(spec_u64_to_le_bytes(x), 0) == x,
{
    spec_u64_to_le_bytes_to_open(x);
    let s = spec_u64_to_le_bytes_open(x);
    assert(s[0] == (x & 0xff) as u8 && s[1] == ((x >> 8) & 0xff) as u8);
    assert(s[2] == ((x >> 16) & 0xff) as u8 && s[3] == ((x >> 24) & 0xff) as u8);
    assert(s[4] == ((x >> 32) & 0xff) as u8 && s[5] == ((x >> 40) & 0xff) as u8);
    assert(s[6] == ((x >> 48) & 0xff) as u8 && s[7] == ((x >> 56) & 0xff) as u8);
    assert(((x & 0xff) as u8) + (((x >> 8) & 0xff) as u8) * 0x100 + (((x >> 16) & 0xff) as u8)
        * 0x1_0000 + (((x >> 24) & 0xff) as u8) * 0x100_0000 + (((x >> 32) & 0xff) as u8)
        * 0x1_0000_0000 + (((x >> 40) & 0xff) as u8) * 0x100_0000_0000 + (((x >> 48) & 0xff) as u8)
        * 0x1_0000_0000_0000 + (((x >> 56) & 0xff) as u8) * 0x100_0000_0000_0000 == x)
        by (bit_vector);
}

proof fn lemma_le_number(b: Seq<u8>, at: int)
    requires
        0 <= at,
        at + 8 <= b.len(),
    ensures
        spec_u64_from_le_bytes(b.subrange(at, at + 8)) == le_number(b, at),
{
    let s = b.subrange(at, at + 8);
    lemma_auto_spec_u64_to_from_le_bytes();
    let x = spec_u64_from_le_bytes(s);
    assert(spec_u64_to_le_bytes(x) == s);
    lemma_le_bytes(x);
}

proof fn lemma_signed(u: u64, n: i64)
    requires
        n == u as i64,
    ensures
        u == unsigned(n),
{
    assert((u as i64) as int == if u < 0x8000_0000_0000_0000u64 {
        u as int
    } else {
        u - 0x1_0000_0000_0000_0000
    }) by (bit_vector);
}

/// The parts of the entry that `b` starts with are read from these bytes: one with the
/// key's length, three with the value's, one with the number of serial numbers that go out
/// of use, then the key, the value, 32 bytes of hash, eight of version and eight of serial
/// number.
pub proof fn lemma_parse_reads(b: Seq<u8>)
    requires
        well_formed(b),
    ensures
        ({
            let k = b[0] as int;
            let v = b[1] + b[2] * 0x100 + b[3] * 0x1_0000;
            &&& b.len() >= 53 + k + v
            &&& parse(b).key == b.subrange(5, 5 + k)
            &&& parse(b).value == b.subrange(5 + k, 5 + k + v)
            &&& parse(b).next_key_hash == b.subrange(5 + k + v, 37 + k + v)
            &&& unsigned(parse(b).version) == le_number(b, 37 + k + v)
            &&& parse(b).serial_number == le_number(b, 45 + k + v)
        }),
{
    let k = b[0] as int;
    let v = b[1] + b[2] * 0x100 + b[3] * 0x1_0000;
    lemma_le_number(b, 37 + k + v);
    lemma_le_number(b, 45 + k + v);
    lemma_signed(
        spec_u64_from_le_bytes(b.subrange(37 + k + v, 45 + k + v)),
        parse(b).version,
    );
}

/// Behind the parts of an entry and what fills them up to a multiple of eight stand the
/// serial numbers that go out of use, eight bytes each, and they end the entry.
pub proof fn lemma_dsns_read(b: Seq<u8>)
    requires
        well_formed(b),
    ensures
        parse_dsns(b).len() == b[4],
        entry_len(b) % 8 == 0,
        ({
            let filled = 53 + b[0] + b[1] + b[2] * 0x100 + b[3] * 0x1_0000;
            filled + 8 * b[4] <= entry_len(b) < filled + 8 * b[4] + 8
        }),
        forall|i: int|
            0 <= i < b[4] ==> #[trigger] parse_dsns(b)[i] == le_number(
                b,
                entry_len(b) - 8 * (b[4] - i),
            ),
{
    assert forall|i: int| 0 <= i < b[4] implies #[trigger] parse_dsns(b)[i] == le_number(
        b,
        entry_len(b) - 8 * (b[4] - i),
    ) by {
        lemma_le_number(b, entry_len(b) - 8 * (b[4] - i));
    }
}

/// An entry is all there if and only if there are as many bytes as its lengths ask for.
pub proof fn lemma_well_formed(b: Seq<u8>)
    ensures
        well_formed(b) <==> b.len() >= 5 && b.len() >= entry_len(b),
        well_formed(b) ==> b.len() >= 53,
{
}

/// What fits in an entry: a key of up to 255 bytes, a value of up to 16777215, a hash of 32
/// and up to 255 serial numbers.
pub proof fn lemma_fits(e: EntryView, dsns: Seq<u64>)
    ensures
        fits(e, dsns) <==> e.key.len() <= 255 && e.value.len() <= 16777215
            && e.next_key_hash.len() == 32 && dsns.len() <= 255,
{
}

/// An entry is written as its lengths, its parts and the serial numbers that it takes out of
/// use, at the places where they are read, with zeros up to a multiple of eight.
pub proof fn lemma_dump_layout(e: EntryView, dsns: Seq<u64>)
    requires
        fits(e, dsns),
    ensures
        ({
            let b = dump(e, dsns);
            let k = e.key.len() as int;
            let v = e.value.len() as int;
            let n = dsns.len() as int;
            &&& b.len() % 8 == 0
            &&& 53 + k + v + 8 * n <= b.len() < 61 + k + v + 8 * n
            &&& b[0] == k
            &&& b[1] + b[2] * 0x100 + b[3] * 0x1_0000 == v
            &&& b[4] == n
            &&& b.subrange(5, 5 + k) == e.key
            &&& b.subrange(5 + k, 5 + k + v) == e.value
            &&& b.subrange(5 + k + v, 37 + k + v) == e.next_key_hash
            &&& le_number(b, 37 + k + v) == unsigned(e.version)
            &&& le_number(b, 45 + k + v) == e.serial_number
            &&& forall|i: int| 53 + k + v <= i < b.len() - 8 * n ==> #[trigger] b[i] == 0
            &&& forall|i: int|
                0 <= i < n ==> le_number(b, b.len() - 8 * (n - i)) == #[trigger] dsns[i]
        }),
{
    let b = dump(e, dsns);
    let none = Seq::<u8>::empty();
    assert(b + none =~= b);
    lemma_dump_parse(e, dsns, none);
    lemma_parse_reads(b);
    lemma_dsns_read(b);
    lemma_padding(e, dsns);
    assert(parse_dsns(b) == dsns);
    assert forall|i: int| 0 <= i < dsns.len() implies le_number(
        b,
        b.len() - 8 * (dsns.len() - i),
    ) == #[trigger] dsns[i] by {
        assert(parse_dsns(b)[i] == dsns[i]);
    }
}

proof fn lemma_sn_len(sns: Seq<u64>)
    ensures
        sn_bytes(sns).len() == 8 * sns.len(),
    decreases sns.len(),
{
    lemma_auto_spec_u64_to_from_le_bytes();
    if sns.len() > 0 {
        lemma_sn_len(sns.drop_last());
    }
}

proof fn lemma_padding(e: EntryView, dsns: Seq<u64>)
    requires
        fits(e, dsns),
    ensures
        dump(e, dsns)[0] == e.key.len(),
        dump(e, dsns)[4] == dsns.len(),
        dump(e, dsns)[1] + dump(e, dsns)[2] * 0x100 + dump(e, dsns)[3] * 0x1_0000 == e.value.len(),
        forall|i: int|
            53 + e.key.len() + e.value.len() <= i < dump(e, dsns).len() - 8 * dsns.len()
                ==> #[trigger] dump(e, dsns)[i] == 0,
{
    lemma_auto_spec_u64_to_from_le_bytes();
    lemma_sn_len(dsns);
    let h = header(e.key.len(), e.value.len(), dsns.len());
    let b = dump(e, dsns);
    assert(b[0] == h[0] && b[1] == h[1] && b[2] == h[2] && b[3] == h[3] && b[4] == h[4]);
    let front = h + e.key + e.value + e.next_key_hash + spec_u64_to_le_bytes(e.version as u64)
        + spec_u64_to_le_bytes(e.serial_number);
    let fill = zeros((b.len() - 8 * dsns.len() - front.len()) as nat);
    assert(b =~= front + fill + sn_bytes(dsns));
}

/// A part of a written entry is no entry.
pub proof fn lemma_cut_entry(e: EntryView, dsns: Seq<u64>, n: int)
    requires
        fits(e, dsns),
        0 <= n < dump(e, dsns).len(),
    ensures
        !well_formed(dump(e, dsns).take(n)),
{
    let b = dump(e, dsns);
    let none = Seq::<u8>::empty();
    assert(b + none =~= b);
    lemma_dump_parse(e, dsns, none);
    let c = b.take(n);
    if n >= 5 {
        assert(c[0] == b[0] && c[1] == b[1] && c[2] == b[2] && c[3] == b[3] && c[4] == b[4]);
    }
}

/// Bytes are what is written of an entry if and only if they are these bytes and all of the
/// entry fits; two entries that are written alike are the same.
pub proof fn lemma_is_dump(
    b: Seq<u8>,
    e: EntryView,
    dsns: Seq<u64>,
    f: EntryView,
    others: Seq<u64>,
)
    requires
        fits(e, dsns),
        fits(f, others),
    ensures
        is_dump(b, e, dsns) <==> b == dump(e, dsns),
        is_dump(b, e, dsns) && is_dump(b, f, others) ==> e == f && dsns == others,
{
    let none = Seq::<u8>::empty();
    lemma_dump_parse(e, dsns, none);
    lemma_dump_parse(f, others, none);
    assert(dump(e, dsns) + none =~= dump(e, dsns));
    assert(dump(f, others) + none =~= dump(f, others));
}

} // verus!
