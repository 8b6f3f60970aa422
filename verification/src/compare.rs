//! Comparison of an update with the record of an earlier run of it.

use vstd::prelude::*;

use crate::bytes::bytes_equal;
use crate::entry::{entry_equal, is_dump, Entry, EntryBz, EntryView};
use crate::error::UpdateError;
use crate::tasks::OpRecord;

verus! {

/// The `i`-th entry of `list` has the bytes `bz`.
pub open spec fn recorded(list: Seq<Vec<u8>>, i: int, bz: Seq<u8>) -> bool {
    0 <= i < list.len() && list[i]@ == bz
}

/// The `i`-th entry of `list` says `e` and deactivates `dsns`.
pub open spec fn recorded_entry(list: Seq<Vec<u8>>, i: int, e: EntryView, dsns: Seq<u64>) -> bool {
    0 <= i < list.len() && is_dump(list[i]@, e, dsns)
}

/// There is no record, or it has `num_active` active entries.
pub open spec fn num_active_agrees(rec: Option<&OpRecord>, num_active: nat) -> bool {
    rec matches Some(r) ==> r.num_active == num_active
}

/// There is no record, or `sn_start` is its oldest active serial number.
pub open spec fn sn_start_agrees(rec: Option<&OpRecord>, sn_start: u64) -> bool {
    rec matches Some(r) ==> r.oldest_active_sn == sn_start
}

/// There is no record, or the last entry that it read is `bz`.
pub open spec fn old_entry_agrees(rec: Option<&OpRecord>, bz: Seq<u8>) -> bool {
    rec matches Some(r) ==> recorded(r.rd_list@, r.rd_list@.len() - 1, bz)
}

/// There is no record, or the first entry that it read is `bz`.
pub open spec fn prev_entry_agrees(rec: Option<&OpRecord>, bz: Seq<u8>) -> bool {
    rec matches Some(r) ==> recorded(r.rd_list@, 0, bz)
}

/// There is no record, or the first entry that it wrote is this one.
pub open spec fn prev_changed_agrees(
    rec: Option<&OpRecord>,
    e: EntryView,
    dsns: Seq<u64>,
) -> bool {
    rec matches Some(r) ==> recorded_entry(r.wr_list@, 0, e, dsns)
}

/// There is no record, or the last entry that it wrote is this one.
pub open spec fn new_entry_agrees(rec: Option<&OpRecord>, e: EntryView, dsns: Seq<u64>) -> bool {
    rec matches Some(r) ==> recorded_entry(r.wr_list@, r.wr_list@.len() - 1, e, dsns)
}

/// There is no record, or its compaction `comp_idx` read `bz`.
pub open spec fn dig_entry_agrees(rec: Option<&OpRecord>, bz: Seq<u8>, comp_idx: int) -> bool {
    rec matches Some(r) ==> recorded(r.dig_list@, comp_idx, bz)
}

/// There is no record, or its compaction `comp_idx` wrote this entry.
pub open spec fn put_entry_agrees(
    rec: Option<&OpRecord>,
    e: EntryView,
    dsns: Seq<u64>,
    comp_idx: int,
) -> bool {
    rec matches Some(r) ==> recorded_entry(r.put_list@, comp_idx, e, dsns)
}

fn list_has(list: &Vec<Vec<u8>>, i: usize, bz: &[u8]) -> (r: bool)
    ensures
        r == recorded(list@, i as int, bz@),
{
    i < list.len() && bytes_equal(list[i].as_slice(), bz)
}

fn list_has_entry(list: &Vec<Vec<u8>>, i: usize, entry: &Entry, dsns: &[u64]) -> (r: bool)
    ensures
        r == recorded_entry(list@, i as int, entry@, dsns@),
{
    i < list.len() && entry_equal(list[i].as_slice(), entry, dsns)
}

/// Compares the deleted entry with the record.
pub fn _compare_old_entry(rec: Option<&OpRecord>, entry_bz: &EntryBz) -> (res: Result<
    (),
    UpdateError,
>)
    ensures
        res is Ok == old_entry_agrees(rec, entry_bz.bz@),
        res matches Err(e) ==> e == UpdateError::CompareOldEntry,
{
    match rec {
        Some(r) => {
            let n: usize = r.rd_list.len();
            if n > 0 && list_has(&r.rd_list, n - 1, entry_bz.bz) {
                Ok(())
            } else {
                Err(UpdateError::CompareOldEntry)
            }
        },
        None => Ok(()),
    }
}

/// Compares the previous entry with the record.
pub fn _compare_prev_entry(rec: Option<&OpRecord>, entry_bz: &EntryBz) -> (res: Result<
    (),
    UpdateError,
>)
    ensures
        res is Ok == prev_entry_agrees(rec, entry_bz.bz@),
        res matches Err(e) ==> e == UpdateError::ComparePrevEntry,
{
    match rec {
        Some(r) => {
            if list_has(&r.rd_list, 0, entry_bz.bz) {
                Ok(())
            } else {
                Err(UpdateError::ComparePrevEntry)
            }
        },
        None => Ok(()),
    }
}

/// Compares the changed previous entry with the record.
pub fn _compare_prev_changed(rec: Option<&OpRecord>, entry: &Entry, dsn_list: &[u64]) -> (res:
    Result<(), UpdateError>)
    ensures
        res is Ok == prev_changed_agrees(rec, entry@, dsn_list@),
        res matches Err(e) ==> e == UpdateError::ComparePrevChanged,
{
    match rec {
        Some(r) => {
            if list_has_entry(&r.wr_list, 0, entry, dsn_list) {
                Ok(())
            } else {
                Err(UpdateError::ComparePrevChanged)
            }
        },
        None => Ok(()),
    }
}

/// Compares the new entry with the record.
pub fn _compare_new_entry(rec: Option<&OpRecord>, entry: &Entry, dsn_list: &[u64]) -> (res: Result<
    (),
    UpdateError,
>)
    ensures
        res is Ok == new_entry_agrees(rec, entry@, dsn_list@),
        res matches Err(e) ==> e == UpdateError::CompareNewEntry,
{
    match rec {
        Some(r) => {
            let n: usize = r.wr_list.len();
            if n > 0 && list_has_entry(&r.wr_list, n - 1, entry, dsn_list) {
                Ok(())
            } else {
                Err(UpdateError::CompareNewEntry)
            }
        },
        None => Ok(()),
    }
}

/// Compares the entry that a compaction moves with the record.
pub fn _compare_dig_entry(rec: Option<&OpRecord>, entry_bz: &EntryBz, comp_idx: usize) -> (res:
    Result<(), UpdateError>)
    ensures
        res is Ok == dig_entry_agrees(rec, entry_bz.bz@, comp_idx as int),
        res matches Err(e) ==> e == UpdateError::CompareDigEntry,
{
    match rec {
        Some(r) => {
            if list_has(&r.dig_list, comp_idx, entry_bz.bz) {
                Ok(())
            } else {
                Err(UpdateError::CompareDigEntry)
            }
        },
        None => Ok(()),
    }
}

/// Compares the entry that a compaction writes with the record.
pub fn _compare_put_entry(
    rec: Option<&OpRecord>,
    entry: &Entry,
    dsn_list: &[u64],
    comp_idx: usize,
) -> (res: Result<(), UpdateError>)
    ensures
        res is Ok == put_entry_agrees(rec, entry@, dsn_list@, comp_idx as int),
        res matches Err(e) ==> e == UpdateError::ComparePutEntry,
{
    match rec {
        Some(r) => {
            if list_has_entry(&r.put_list, comp_idx, entry, dsn_list) {
                Ok(())
            } else {
                Err(UpdateError::ComparePutEntry)
            }
        },
        None => Ok(()),
    }
}

/// Compares the deleted entry with the record, if records are to be checked.
pub fn compare_old_entry(check_rec: bool, rec: Option<&OpRecord>, entry_bz: &EntryBz) -> (res:
    Result<(), UpdateError>)
    ensures
        res is Ok == (check_rec ==> old_entry_agrees(rec, entry_bz.bz@)),
        res matches Err(e) ==> e == UpdateError::CompareOldEntry,
{
    if check_rec {
        _compare_old_entry(rec, entry_bz)
    } else {
        Ok(())
    }
}

/// Compares the previous entry with the record, if records are to be checked.
pub fn compare_prev_entry(check_rec: bool, rec: Option<&OpRecord>, entry_bz: &EntryBz) -> (res:
    Result<(), UpdateError>)
    ensures
        res is Ok == (check_rec ==> prev_entry_agrees(rec, entry_bz.bz@)),
        res matches Err(e) ==> e == UpdateError::ComparePrevEntry,
{
    if check_rec {
        _compare_prev_entry(rec, entry_bz)
    } else {
        Ok(())
    }
}

/// Compares the changed previous entry with the record, if records are to be checked.
pub fn compare_prev_changed(
    check_rec: bool,
    rec: Option<&OpRecord>,
    entry: &Entry,
    dsn_list: &[u64],
) -> (res: Result<(), UpdateError>)
    ensures
        res is Ok == (check_rec ==> prev_changed_agrees(rec, entry@, dsn_list@)),
        res matches Err(e) ==> e == UpdateError::ComparePrevChanged,
{
    if check_rec {
        _compare_prev_changed(rec, entry, dsn_list)
    } else {
        Ok(())
    }
}

/// Compares the new entry with the record, if records are to be checked.
pub fn compare_new_entry(
    check_rec: bool,
    rec: Option<&OpRecord>,
    entry: &Entry,
    dsn_list: &[u64],
) -> (res: Result<(), UpdateError>)
    ensures
        res is Ok == (check_rec ==> new_entry_agrees(rec, entry@, dsn_list@)),
        res matches Err(e) ==> e == UpdateError::CompareNewEntry,
{
    if check_rec {
        _compare_new_entry(rec, entry, dsn_list)
    } else {
        Ok(())
    }
}

/// Compares the entry that a compaction moves with the record, if records are to be
/// checked.
pub fn compare_dig_entry(
    check_rec: bool,
    rec: Option<&OpRecord>,
    entry_bz: &EntryBz,
    comp_idx: usize,
) -> (res: Result<(), UpdateError>)
    ensures
        res is Ok == (check_rec ==> dig_entry_agrees(rec, entry_bz.bz@, comp_idx as int)),
        res matches Err(e) ==> e == UpdateError::CompareDigEntry,
{
    if check_rec {
        _compare_dig_entry(rec, entry_bz, comp_idx)
    } else {
        Ok(())
    }
}

/// Compares the entry that a compaction writes with the record, if records are to be
/// checked.
pub fn compare_put_entry(
    check_rec: bool,
    rec: Option<&OpRecord>,
    entry: &Entry,
    dsn_list: &[u64],
    comp_idx: usize,
) -> (res: Result<(), UpdateError>)
    ensures
        res is Ok == (check_rec ==> put_entry_agrees(rec, entry@, dsn_list@, comp_idx as int)),
        res matches Err(e) ==> e == UpdateError::ComparePutEntry,
{
    if check_rec {
        _compare_put_entry(rec, entry, dsn_list, comp_idx)
    } else {
        Ok(())
    }
}

} // verus!
