//! Byte strings: equality, order, and the number an index key stands for.

use vstd::prelude::*;

verus! {

/// Length in bytes of the part of a key hash that the index keeps.
pub const K80_LEN: usize = 10;

/// `a` and `b` agree before `i`, and at `i` `a` ends or has the smaller byte.
pub open spec fn smaller_at(a: Seq<u8>, b: Seq<u8>, i: int) -> bool {
    &&& 0 <= i <= a.len()
    &&& i < b.len()
    &&& a.take(i) == b.take(i)
    &&& (i < a.len() ==> a[i] < b[i])
}

/// `a` comes before `b` in the dictionary order of byte strings.
pub open spec fn bytes_before(a: Seq<u8>, b: Seq<u8>) -> bool {
    exists|i: int| smaller_at(a, b, i)
}

/// No byte string comes before itself.
pub proof fn lemma_before_irreflexive(a: Seq<u8>)
    ensures
        !bytes_before(a, a),
{
}

/// What comes before something that comes before `c` comes before `c`.
pub proof fn lemma_before_transitive(a: Seq<u8>, b: Seq<u8>, c: Seq<u8>)
    requires
        bytes_before(a, b),
        bytes_before(b, c),
    ensures
        bytes_before(a, c),
{
    let i = choose|i: int| smaller_at(a, b, i);
    let j = choose|j: int| smaller_at(b, c, j);
    let k = if i < j {
        i
    } else {
        j
    };
    assert forall|m: int| 0 <= m < k implies a[m] == c[m] by {
        assert(a[m] == a.take(i)[m] && b[m] == b.take(i)[m]);
        assert(b[m] == b.take(j)[m] && c[m] == c.take(j)[m]);
    }
    assert(a.take(k) =~= c.take(k));
    if i < j {
        assert(b[i] == b.take(j)[i] && c[i] == c.take(j)[i]);
    } else if j < i {
        assert(a[j] == a.take(i)[j] && b[j] == b.take(i)[j]);
    }
    assert(smaller_at(a, c, k));
}

proof fn lemma_before_total_from(a: Seq<u8>, b: Seq<u8>, i: int)
    requires
        0 <= i <= a.len(),
        i <= b.len(),
        a.take(i) == b.take(i),
    ensures
        a == b || bytes_before(a, b) || bytes_before(b, a),
    decreases a.len() - i,
{
    if i == a.len() || i == b.len() {
        if i < b.len() {
            assert(smaller_at(a, b, i));
        } else if i < a.len() {
            assert(smaller_at(b, a, i));
        } else {
            assert(a.take(i) =~= a && b.take(i) =~= b);
        }
    } else if a[i] < b[i] {
        assert(smaller_at(a, b, i));
    } else if b[i] < a[i] {
        assert(smaller_at(b, a, i));
    } else {
        assert(a.take(i + 1) =~= a.take(i).push(a[i]));
        assert(b.take(i + 1) =~= b.take(i).push(b[i]));
        lemma_before_total_from(a, b, i + 1);
    }
}

/// Of two byte strings that differ, one comes before the other.
pub proof fn lemma_before_total(a: Seq<u8>, b: Seq<u8>)
    ensures
        a == b || bytes_before(a, b) || bytes_before(b, a),
{
    assert(a.take(0) =~= b.take(0));
    lemma_before_total_from(a, b, 0);
}

/// Compares two byte strings for equality.
pub fn bytes_equal(a: &[u8], b: &[u8]) -> (r: bool)
    ensures
        r == (a@ == b@),
{
    if a.len() != b.len() {
        return false;
    }
    let mut i: usize = 0;
    while i < a.len()
        invariant
            i <= a.len(),
            a.len() == b.len(),
            forall|j: int| 0 <= j < i ==> a@[j] == b@[j],
        decreases a.len() - i,
    {
        if a[i] != b[i] {
            return false;
        }
        i += 1;
    }
    assert(a@ =~= b@);
    true
}

/// Whether `a` comes before `b` in dictionary order.
pub fn bytes_less(a: &[u8], b: &[u8]) -> (r: bool)
    ensures
        r == bytes_before(a@, b@),
{
    let mut i: usize = 0;
    while i < a.len() && i < b.len()
        invariant
            i <= a.len(),
            i <= b.len(),
            forall|j: int| 0 <= j < i ==> a@[j] == b@[j],
        decreases a.len() - i,
    {
        if a[i] != b[i] {
            assert(a@.take(i as int) =~= b@.take(i as int));
            if a[i] < b[i] {
                assert(smaller_at(a@, b@, i as int));
                return true;
            }
            assert forall|k: int| !smaller_at(a@, b@, k) by {
                if smaller_at(a@, b@, k) {
                    if k > i {
                        assert(a@.take(k)[i as int] == b@.take(k)[i as int]);
                    }
                    assert(k < i ==> a@[k] == b@[k]);
                }
            }
            return false;
        }
        i += 1;
    }
    assert(a@.take(i as int) =~= b@.take(i as int));
    if i < b.len() {
        assert(smaller_at(a@, b@, i as int));
        return true;
    }
    assert forall|k: int| !smaller_at(a@, b@, k) by {
        if smaller_at(a@, b@, k) {
            assert(a@[k] == b@[k]);
        }
    }
    false
}

/// The number that `s` writes in base 256, the most significant byte first.
pub open spec fn be_value(s: Seq<u8>) -> nat
    decreases s.len(),
{
    if s.len() == 0 {
        0
    } else {
        be_value(s.drop_last()) * 256 + s.last() as nat
    }
}

/// The index key of a key hash: its first ten bytes, as a number.
pub open spec fn k80_of(key_hash: Seq<u8>) -> u128 {
    be_value(key_hash.take(K80_LEN as int)) as u128
}

/// Of byte strings of one length, the one that comes before writes the smaller number.
proof fn lemma_be_value_order(a: Seq<u8>, b: Seq<u8>)
    requires
        a.len() == b.len(),
        bytes_before(a, b),
    ensures
        be_value(a) < be_value(b),
    decreases a.len(),
{
    let i = choose|i: int| smaller_at(a, b, i);
    let a1 = a.drop_last();
    let b1 = b.drop_last();
    if i == a.len() - 1 {
        assert(a.take(i) =~= a1 && b.take(i) =~= b1);
    } else {
        assert(a1.take(i) =~= a.take(i) && b1.take(i) =~= b.take(i));
        assert(smaller_at(a1, b1, i));
        lemma_be_value_order(a1, b1);
    }
}

proof fn lemma_be_value_bound(s: Seq<u8>)
    requires
        s.len() <= K80_LEN,
    ensures
        be_value(s) < 0x1_0000_0000_0000_0000_0000,
{
    reveal_with_fuel(be_value, 11);
}

/// The index keys of two key hashes stand in the order of the hashes: a hash that comes
/// before another has no greater index key, and one with a smaller index key comes
/// before the other.
pub proof fn lemma_k80_order(a: Seq<u8>, b: Seq<u8>)
    requires
        a.len() >= K80_LEN,
        b.len() >= K80_LEN,
    ensures
        bytes_before(a, b) ==> k80_of(a) <= k80_of(b),
        k80_of(a) < k80_of(b) ==> bytes_before(a, b),
{
    let x = a.take(K80_LEN as int);
    let y = b.take(K80_LEN as int);
    lemma_be_value_bound(x);
    lemma_be_value_bound(y);
    lemma_before_total(a, b);
    if bytes_before(a, b) {
        lemma_k80_not_greater(a, b);
    }
    if bytes_before(b, a) {
        lemma_k80_not_greater(b, a);
    }
}

proof fn lemma_k80_not_greater(a: Seq<u8>, b: Seq<u8>)
    requires
        a.len() >= K80_LEN,
        b.len() >= K80_LEN,
        bytes_before(a, b),
    ensures
        be_value(a.take(K80_LEN as int)) <= be_value(b.take(K80_LEN as int)),
{
    let x = a.take(K80_LEN as int);
    let y = b.take(K80_LEN as int);
    let i = choose|i: int| smaller_at(a, b, i);
    if i < K80_LEN {
        assert(x.take(i) =~= a.take(i) && y.take(i) =~= b.take(i));
        assert(smaller_at(x, y, i));
        lemma_be_value_order(x, y);
    } else {
        assert forall|m: int| 0 <= m < K80_LEN implies x[m] == y[m] by {
            assert(a[m] == a.take(i)[m] && b[m] == b.take(i)[m]);
        }
        assert(x =~= y);
    }
}

/// The index key of a key hash, or of its first ten bytes.
pub fn to_k80(key_hash: &[u8]) -> (k: u128)
    requires
        key_hash@.len() >= K80_LEN,
    ensures
        k == k80_of(key_hash@),
{
    let mut acc: u128 = 0;
    let mut i: usize = 0;
    let ghost mut bound: int = 1;
    while i < K80_LEN
        invariant
            i <= K80_LEN <= key_hash@.len(),
            acc == be_value(key_hash@.take(i as int)),
            acc < bound,
            i == 0 ==> bound == 1,
            i == 1 ==> bound == 0x100,
            i == 2 ==> bound == 0x1_0000,
            i == 3 ==> bound == 0x100_0000,
            i == 4 ==> bound == 0x1_0000_0000,
            i == 5 ==> bound == 0x100_0000_0000,
            i == 6 ==> bound == 0x1_0000_0000_0000,
            i == 7 ==> bound == 0x100_0000_0000_0000,
            i == 8 ==> bound == 0x1_0000_0000_0000_0000,
            i == 9 ==> bound == 0x100_0000_0000_0000_0000,
        decreases K80_LEN - i,
    {
        assert(key_hash@.take(i + 1).drop_last() =~= key_hash@.take(i as int));
        acc = acc * 256 + key_hash[i] as u128;
        i += 1;
        proof {
            bound = bound * 256;
        }
    }
    acc
}

/// Appends the bytes of `s` to `v`.
pub fn append_bytes(v: &mut Vec<u8>, s: &[u8])
    ensures
        final(v)@ == old(v)@ + s@,
{
    v.extend_from_slice(s);
    assert(v@ =~= old(v)@ + s@);
}

/// A copy of `s`.
pub fn copy_bytes(s: &[u8]) -> (v: Vec<u8>)
    ensures
        v@ == s@,
{
    let mut v: Vec<u8> = Vec::new();
    append_bytes(&mut v, s);
    assert(v@ =~= s@);
    v
}

} // verus!
