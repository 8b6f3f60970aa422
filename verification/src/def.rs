//! Constants of the store and the rule that starts a compaction.

use vstd::prelude::*;

verus! {

/// Number of shards a process starts with.
pub const SHARD_COUNT: usize = 16;

/// Number of two-byte key-hash prefixes that one of `SHARD_COUNT` shards holds.
pub const SHARD_DIV: usize = 4096;

/// Number of sentries in one of `SHARD_COUNT` shards: one for each prefix.
pub const SENTRY_COUNT: usize = 4096;

/// Size of the buffer into which an entry is read from the entry file.
pub const DEFAULT_ENTRY_SIZE: usize = 300;

/// The low bits of a task id and of a version count tasks within a block.
pub const IN_BLOCK_IDX_BITS: u32 = 24;

/// Selects the bits of a task id that count tasks within a block.
pub const IN_BLOCK_IDX_MASK: i64 = 0xff_ffff;

/// An operation that only exists to be compared with a record.
pub const OP_READ: u8 = 1;

/// Replaces the value of a key that exists.
pub const OP_WRITE: u8 = 2;

/// Adds a key that does not exist.
pub const OP_CREATE: u8 = 3;

/// Removes a key that exists.
pub const OP_DELETE: u8 = 4;

/// At least `compact_thres` entries are active, and the active entries are at most
/// `utilization_ratio / utilization_div` of the serial numbers from `sn_start` up
/// to `sn_end`.
pub open spec fn compactible(
    utilization_div: i64,
    utilization_ratio: i64,
    compact_thres: i64,
    active_count: nat,
    sn_start: u64,
    sn_end: u64,
) -> bool {
    &&& active_count >= compact_thres
    &&& active_count * utilization_div <= (sn_end - sn_start) * utilization_ratio
}

/// Whether compaction is due depends on how many serial numbers the range holds, not on
/// where it starts.
pub proof fn lemma_width_alone_counts(
    utilization_div: i64,
    utilization_ratio: i64,
    compact_thres: i64,
    active_count: nat,
    sn_start: u64,
    sn_end: u64,
    shift: u64,
)
    requires
        sn_start <= sn_end,
        sn_end + shift <= u64::MAX,
    ensures
        compactible(
            utilization_div,
            utilization_ratio,
            compact_thres,
            active_count,
            sn_start,
            sn_end,
        ) == compactible(
            utilization_div,
            utilization_ratio,
            compact_thres,
            active_count,
            0,
            (sn_end - sn_start) as u64,
        ),
        compactible(
            utilization_div,
            utilization_ratio,
            compact_thres,
            active_count,
            sn_start,
            sn_end,
        ) == compactible(
            utilization_div,
            utilization_ratio,
            compact_thres,
            active_count,
            (sn_start + shift) as u64,
            (sn_end + shift) as u64,
        ),
{
}

/// Where every serial number of a range is in use and the limit is below that, compaction
/// is not due.
pub proof fn lemma_full_range_is_left_alone(
    utilization_div: i64,
    utilization_ratio: i64,
    compact_thres: i64,
    active_count: nat,
    sn_start: u64,
    sn_end: u64,
)
    requires
        sn_start < sn_end,
        active_count == sn_end - sn_start,
        0 <= utilization_ratio < utilization_div,
    ensures
        !compactible(
            utilization_div,
            utilization_ratio,
            compact_thres,
            active_count,
            sn_start,
            sn_end,
        ),
{
    let width = sn_end - sn_start;
    assert(width * utilization_div > width * utilization_ratio) by (nonlinear_arith)
        requires
            width > 0,
            utilization_ratio < utilization_div,
    ;
}

/// Below the threshold compaction is never due.
pub proof fn lemma_few_entries_are_left_alone(
    utilization_div: i64,
    utilization_ratio: i64,
    compact_thres: i64,
    active_count: nat,
    sn_start: u64,
    sn_end: u64,
)
    requires
        active_count < compact_thres,
    ensures
        !compactible(
            utilization_div,
            utilization_ratio,
            compact_thres,
            active_count,
            sn_start,
            sn_end,
        ),
{
}

/// With just `utilization_ratio` of every `utilization_div` serial numbers in use,
/// compaction is due from the threshold on; with one more in use it is not.
pub proof fn lemma_limit_is_the_ratio(
    utilization_div: i64,
    utilization_ratio: i64,
    compact_thres: i64,
    times: nat,
    sn_start: u64,
    sn_end: u64,
)
    requires
        utilization_div > 0,
        utilization_ratio >= 0,
        sn_end - sn_start == utilization_div * times,
    ensures
        compact_thres <= utilization_ratio * times ==> compactible(
            utilization_div,
            utilization_ratio,
            compact_thres,
            (utilization_ratio * times) as nat,
            sn_start,
            sn_end,
        ),
        !compactible(
            utilization_div,
            utilization_ratio,
            compact_thres,
            (utilization_ratio * times + 1) as nat,
            sn_start,
            sn_end,
        ),
{
    assert(0 <= utilization_ratio * times) by (nonlinear_arith)
        requires
            utilization_ratio >= 0,
            times >= 0,
    ;
    assert((utilization_ratio * times) * utilization_div == (utilization_div * times)
        * utilization_ratio) by (nonlinear_arith);
    assert((utilization_ratio * times + 1) * utilization_div > (utilization_div * times)
        * utilization_ratio) by (nonlinear_arith)
        requires
            utilization_div > 0,
    ;
}

/// Where compaction is due, it is due with fewer entries, down to the threshold, and over
/// a wider range.
pub proof fn lemma_less_use_is_due_too(
    utilization_div: i64,
    utilization_ratio: i64,
    compact_thres: i64,
    active_count: nat,
    sn_start: u64,
    sn_end: u64,
    fewer: nat,
    wider: u64,
)
    requires
        utilization_div >= 0,
        utilization_ratio >= 0,
        compact_thres <= fewer <= active_count,
        sn_end <= wider,
        compactible(
            utilization_div,
            utilization_ratio,
            compact_thres,
            active_count,
            sn_start,
            sn_end,
        ),
    ensures
        compactible(
            utilization_div,
            utilization_ratio,
            compact_thres,
            fewer,
            sn_start,
            wider,
        ),
{
    assert(fewer * utilization_div <= active_count * utilization_div) by (nonlinear_arith)
        requires
            fewer <= active_count,
            utilization_div >= 0,
    ;
    assert((sn_end - sn_start) * utilization_ratio <= (wider - sn_start) * utilization_ratio)
        by (nonlinear_arith)
        requires
            sn_end <= wider,
            utilization_ratio >= 0,
    ;
}

/// The tasks that start a block are those whose id is a multiple of 16777216, and the
/// block's number is the id divided by it.
pub proof fn lemma_block_bits(task_id: i64)
    requires
        task_id >= 0,
    ensures
        task_id & IN_BLOCK_IDX_MASK == task_id % 16777216,
        task_id >> IN_BLOCK_IDX_BITS == task_id / 16777216,
{
    assert(task_id & 0xff_ffffi64 == task_id % 16777216i64) by (bit_vector)
        requires
            task_id >= 0,
    ;
    assert(task_id >> 24u32 == task_id / 16777216i64) by (bit_vector)
        requires
            task_id >= 0,
    ;
}

/// Whether the log should be compacted: see [`compactible`].
pub fn is_compactible(
    utilization_div: i64,
    utilization_ratio: i64,
    compact_thres: i64,
    active_count: usize,
    sn_start: u64,
    sn_end: u64,
) -> (r: bool)
    ensures
        r == compactible(
            utilization_div,
            utilization_ratio,
            compact_thres,
            active_count as nat,
            sn_start,
            sn_end,
        ),
{
    let active: i128 = active_count as i128;
    let total: i128 = sn_end as i128 - sn_start as i128;
    let div: i128 = utilization_div as i128;
    let ratio: i128 = utilization_ratio as i128;
    assert(-0x8000_0000_0000_0000 * 0xffff_ffff_ffff_ffff <= active * div
        <= 0x7fff_ffff_ffff_ffff * 0xffff_ffff_ffff_ffff) by (nonlinear_arith)
        requires
            0 <= active <= 0xffff_ffff_ffff_ffff,
            -0x8000_0000_0000_0000 <= div <= 0x7fff_ffff_ffff_ffff,
    ;
    assert(-0x8000_0000_0000_0000 * 0xffff_ffff_ffff_ffff <= total * ratio
        <= 0x8000_0000_0000_0000 * 0xffff_ffff_ffff_ffff) by (nonlinear_arith)
        requires
            -0xffff_ffff_ffff_ffff <= total <= 0xffff_ffff_ffff_ffff,
            -0x8000_0000_0000_0000 <= ratio <= 0x7fff_ffff_ffff_ffff,
    ;
    active >= compact_thres as i128 && active * div <= total * ratio
}

} // verus!
