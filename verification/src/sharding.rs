//! How many shards the store is split into.

use vstd::arithmetic::div_mod::lemma_div_multiples_vanish;
use vstd::arithmetic::power2::{
    lemma2_to64, lemma2_to64_rest, lemma_pow2_adds, lemma_pow2_pos,
    lemma_pow2_strictly_increases, lemma_pow2_unfold, pow2,
};
use vstd::prelude::*;

use crate::def::{SENTRY_COUNT, SHARD_COUNT, SHARD_DIV};

verus! {

/// Number of two-byte prefixes of key hashes, which the shards divide among them.
pub const PREFIX_COUNT: usize = 0x1_0000;

pub open spec fn power_of_two(n: int) -> bool {
    exists|e: nat| n == #[trigger] pow2(e)
}

/// `n` is the least power of two that is at least `count`.
pub open spec fn least_power_from(count: int, n: int) -> bool {
    &&& power_of_two(n)
    &&& n >= count
    &&& forall|m: int| #[trigger] power_of_two(m) && m >= count ==> m >= n
}

/// The number of shards in use, a power of two.
pub struct Sharding {
    shard_count: usize,
}

impl View for Sharding {
    type V = nat;

    closed spec fn view(&self) -> nat {
        self.shard_count as nat
    }
}

impl Sharding {
    #[verifier::type_invariant]
    spec fn inv(self) -> bool {
        power_of_two(self.shard_count as int)
    }

    /// Starts with `SHARD_COUNT` shards.
    pub fn new() -> (s: Self)
        ensures
            s@ == SHARD_COUNT,
    {
        proof {
            lemma2_to64();
            assert(pow2(4) == SHARD_COUNT);
        }
        Sharding { shard_count: SHARD_COUNT }
    }
}

proof fn lemma_power_positive(n: int)
    requires
        power_of_two(n),
    ensures
        n >= 1,
{
    let e = choose|e: nat| n == #[trigger] pow2(e);
    lemma2_to64();
    if e > 0 {
        lemma_pow2_strictly_increases(0, e);
    }
}

/// The largest power of two that fits in a `usize`.
proof fn lemma_largest_power() -> (e: nat)
    ensures
        pow2(e) == usize::MAX / 2 + 1,
{
    lemma2_to64();
    lemma2_to64_rest();
    if usize::MAX == 0xffff_ffff {
        31
    } else {
        63
    }
}

/// The least power of two that is at least `count`, where it fits in a `usize`.
fn checked_next_power(count: usize) -> (r: Option<usize>)
    ensures
        count <= usize::MAX / 2 + 1 ==> r is Some,
        count > usize::MAX / 2 + 1 ==> r is None,
        r matches Some(n) ==> least_power_from(count as int, n as int),
{
    let ghost top = lemma_largest_power();
    let ghost mut e: nat = 0;
    let mut n: usize = 1;
    proof {
        lemma2_to64();
    }
    while n < count
        invariant
            n == pow2(e),
            n <= usize::MAX / 2 + 1,
            e > 0 ==> pow2((e - 1) as nat) < count,
            pow2(top) == usize::MAX / 2 + 1,
        decreases usize::MAX - n,
    {
        if n > usize::MAX / 2 {
            return None;
        }
        proof {
            lemma_pow2_pos(e);
            if e >= top {
                if e > top {
                    lemma_pow2_strictly_increases(top, e);
                }
                assert(false);
            }
            if e + 1 < top {
                lemma_pow2_strictly_increases(e + 1, top);
            }
            lemma_pow2_unfold(e + 1);
            e = e + 1;
        }
        n = n * 2;
    }
    proof {
        assert(power_of_two(n as int));
        assert forall|m: int| #[trigger] power_of_two(m) && m >= count implies m >= n by {
            let f = choose|f: nat| m == #[trigger] pow2(f);
            if f < e {
                if f < e - 1 {
                    lemma_pow2_strictly_increases(f, (e - 1) as nat);
                }
                assert(false);
            }
            if e < f {
                lemma_pow2_strictly_increases(e, f);
            }
        }
    }
    Some(n)
}

/// Sets the number of shards to the least power of two that is at least `count`,
/// or to 1 where that power does not fit in a `usize`.
pub fn set_shard_count(sharding: &mut Sharding, count: usize)
    ensures
        power_of_two(final(sharding)@ as int),
        count <= usize::MAX / 2 + 1 ==> least_power_from(count as int, final(sharding)@ as int),
        count > usize::MAX / 2 + 1 ==> final(sharding)@ == 1,
{
    match checked_next_power(count) {
        Some(n) => {
            sharding.shard_count = n;
        },
        None => {
            proof {
                lemma2_to64();
                assert(pow2(0) == 1);
            }
            sharding.shard_count = 1;
        },
    }
}

/// The number of shards.
pub fn get_current_shard_count(sharding: &Sharding) -> (n: usize)
    ensures
        n == sharding@,
        power_of_two(n as int),
{
    proof {
        use_type_invariant(sharding);
    }
    sharding.shard_count
}

/// The number of sentries of one shard.
pub fn get_current_sentry_count(sharding: &Sharding) -> (n: usize)
    ensures
        n == PREFIX_COUNT as int / sharding@ as int,
{
    let count: usize = get_current_shard_count(sharding);
    proof {
        lemma_power_positive(count as int);
    }
    PREFIX_COUNT / count
}

/// The number of two-byte prefixes of one shard.
pub fn get_current_shard_div(sharding: &Sharding) -> (n: usize)
    ensures
        n == PREFIX_COUNT as int / sharding@ as int,
{
    let count: usize = get_current_shard_count(sharding);
    proof {
        lemma_power_positive(count as int);
    }
    PREFIX_COUNT / count
}

/// As long as there are no more shards than prefixes, each shard has a prefix, and
/// the shards together have every prefix once.
pub proof fn lemma_shards_cover_prefixes(count: int)
    requires
        power_of_two(count),
        count <= PREFIX_COUNT,
    ensures
        PREFIX_COUNT as int / count >= 1,
        count * (PREFIX_COUNT as int / count) == PREFIX_COUNT,
{
    lemma_power_positive(count);
    lemma2_to64();
    let e = choose|e: nat| count == #[trigger] pow2(e);
    if e > 16 {
        lemma_pow2_strictly_increases(16, e);
    }
    let rest = pow2((16 - e) as nat);
    lemma_pow2_adds(e, (16 - e) as nat);
    assert(e + (16 - e) as nat == 16);
    assert(PREFIX_COUNT as int == count * rest);
    lemma_div_multiples_vanish(rest as int, count);
    assert(PREFIX_COUNT as int / count == rest);
    lemma_pow2_pos((16 - e) as nat);
}

/// A count that is a power of two already is kept, so setting the count that is in
/// use changes nothing.
pub proof fn lemma_power_is_kept(count: int, n: int)
    requires
        power_of_two(count),
        least_power_from(count, n),
    ensures
        n == count,
{
}

/// The number of shards for a count is the only power of two from the count up to less than
/// twice the count, and 1 for a count of 0 or 1.
pub proof fn lemma_least_power_is_near(count: int, n: int)
    requires
        least_power_from(count, n),
    ensures
        n >= count,
        count <= 1 ==> n == 1,
        count > 1 ==> n < 2 * count,
{
    lemma2_to64();
    let e = choose|e: nat| n == #[trigger] pow2(e);
    assert(pow2(0) == 1);
    assert(power_of_two(1));
    lemma_power_positive(n);
    if count > 1 {
        assert(e > 0);
        lemma_pow2_unfold(e);
        let half = pow2((e - 1) as nat) as int;
        assert(power_of_two(half));
        assert(half < count) by {
            if half >= count {
                lemma_power_positive(half);
            }
        }
    }
}

/// The shards in use divide 65536 prefixes evenly among them, as long as there are no more
/// shards than that; from the start there are 16 shards of 4096 prefixes.
pub proof fn lemma_prefixes(count: int)
    requires
        power_of_two(count),
        count <= 65536,
    ensures
        count * (PREFIX_COUNT as int / count) == 65536,
        count == 16 ==> PREFIX_COUNT as int / count == 4096,
        SHARD_COUNT == 16,
        SHARD_DIV == 4096,
        SENTRY_COUNT == 4096,
{
    lemma_shards_cover_prefixes(count);
    assert(PREFIX_COUNT as int / 16 == 4096);
}

} // verus!
