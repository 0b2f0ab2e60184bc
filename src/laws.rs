//! Properties of the allocation table and the search, proved over the
//! spec functions that their contracts use.

use vstd::prelude::*;

use crate::table::{
    encodes, entry_wf, fits, in_window, inserted_in_order, live, overlaps, record_start, record_wf,
    valid_encoding,
    AllocationEntry, AllocationTable,
};
use crate::{ALLOCATION_TIME_SECS, HIGH, LOW};

verus! {

/// An entry stays in the table after its lease runs past `now` and expired
/// entries are dropped at `now`.
pub proof fn lemma_live_keeps(entries: Seq<AllocationEntry>, now: u64, e: AllocationEntry)
    requires
        entries.contains(e),
        e.expires > now,
    ensures
        live(entries, now).contains(e),
    decreases entries.len(),
{
    let rest = entries.drop_last();
    if entries.last() == e {
        assert(live(entries, now).last() == e);
    } else {
        let i = choose|i: int| 0 <= i < entries.len() && entries[i] == e;
        assert(rest[i] == e);
        lemma_live_keeps(rest, now, e);
        let k = choose|k: int| 0 <= k < live(rest, now).len() && live(rest, now)[k] == e;
        assert(live(entries, now)[k] == e);
    }
}

/// Dropping expired entries keeps only entries of the table whose lease
/// runs past `now`.
pub proof fn lemma_live_members(entries: Seq<AllocationEntry>, now: u64, e: AllocationEntry)
    requires
        live(entries, now).contains(e),
    ensures
        entries.contains(e),
        e.expires > now,
    decreases entries.len(),
{
    let rest = entries.drop_last();
    let l = live(entries, now);
    let k = choose|k: int| 0 <= k < l.len() && l[k] == e;
    if entries.last().expires > now && k == l.len() - 1 {
        assert(entries[entries.len() - 1] == e);
    } else {
        assert(live(rest, now)[k] == e);
        lemma_live_members(rest, now, e);
        let i = choose|i: int| 0 <= i < rest.len() && rest[i] == e;
        assert(entries[i] == e);
    }
}

/// Inserting a reservation keeps every entry that was already there.
pub proof fn lemma_insert_keeps(
    before: Seq<AllocationEntry>,
    after: Seq<AllocationEntry>,
    added: AllocationEntry,
    e: AllocationEntry,
)
    requires
        inserted_in_order(before, after, added),
        before.contains(e),
    ensures
        after.contains(e),
        after.contains(added),
{
    let pos = choose|pos: int|
        0 <= pos <= before.len() && after == before.insert(pos, added) && (forall|j: int|
            0 <= j < pos ==> (#[trigger] before[j]).start <= added.start) && (forall|j: int|
            pos <= j < before.len() ==> (#[trigger] before[j]).start > added.start);
    let i = choose|i: int| 0 <= i < before.len() && before[i] == e;
    if i < pos {
        assert(after[i] == e);
    } else {
        assert(after[i + 1] == e);
    }
    assert(after[pos] == added);
}

/// A reservation whose lease runs past `now` is never handed out again: a
/// range that the search may settle on at `now`, one that fits in the table
/// or in the table without the entries expired at `now`, shares no port
/// with it.
pub proof fn lemma_unexpired_not_reused(
    entries: Seq<AllocationEntry>,
    now: u64,
    e: AllocationEntry,
    base: int,
    size: int,
)
    requires
        entries.contains(e),
        e.expires > now,
        fits(entries, base, size) || fits(live(entries, now), base, size),
    ensures
        !overlaps(e, base, base + size),
{
    if fits(entries, base, size) {
        let i = choose|i: int| 0 <= i < entries.len() && entries[i] == e;
        assert(!overlaps(entries[i], base, base + size));
    } else {
        lemma_live_keeps(entries, now, e);
        let l = live(entries, now);
        let k = choose|k: int| 0 <= k < l.len() && l[k] == e;
        assert(!overlaps(l[k], base, base + size));
    }
}

/// Two allocations made one after the other never overlap while the first
/// is leased: after a range is committed at `first_now`, a range that the
/// next search may settle on at a time before the lease ends is disjoint
/// from it.
pub proof fn lemma_sequential_allocations_disjoint(
    before: Seq<AllocationEntry>,
    after: Seq<AllocationEntry>,
    first_base: u16,
    first_size: u16,
    first_now: u64,
    second_now: u64,
    second_base: int,
    second_size: int,
)
    requires
        first_now <= u64::MAX - ALLOCATION_TIME_SECS,
        first_base + first_size <= HIGH + 1,
        inserted_in_order(
            before,
            after,
            AllocationEntry {
                start: first_base,
                end: (first_base + first_size) as u16,
                expires: (first_now + ALLOCATION_TIME_SECS) as u64,
            },
        ),
        second_now < first_now + ALLOCATION_TIME_SECS,
        fits(after, second_base, second_size) || fits(live(after, second_now), second_base, second_size),
    ensures
        second_base + second_size <= first_base || first_base + first_size <= second_base,
{
    let added = AllocationEntry {
        start: first_base,
        end: (first_base + first_size) as u16,
        expires: (first_now + ALLOCATION_TIME_SECS) as u64,
    };
    let pos = choose|pos: int|
        0 <= pos <= before.len() && after == before.insert(pos, added) && (forall|j: int|
            0 <= j < pos ==> (#[trigger] before[j]).start <= added.start) && (forall|j: int|
            pos <= j < before.len() ==> (#[trigger] before[j]).start > added.start);
    assert(after[pos] == added);
    lemma_unexpired_not_reused(after, second_now, added, second_base, second_size);
}

/// An entry blocks every range that overlaps it for as long as it stays in
/// the table, whether or not its lease has run out.
pub proof fn lemma_entry_blocks_until_reclaimed(
    entries: Seq<AllocationEntry>,
    e: AllocationEntry,
    base: int,
    size: int,
)
    requires
        entries.contains(e),
        overlaps(e, base, base + size),
    ensures
        !fits(entries, base, size),
{
    let i = choose|i: int| 0 <= i < entries.len() && entries[i] == e;
    assert(overlaps(entries[i], base, base + size));
}

/// Once expired entries are dropped at `now`, a range in the window that
/// only expired entries overlapped fits again.
pub proof fn lemma_reclaim_frees_expired(entries: Seq<AllocationEntry>, now: u64, base: int, size: int)
    requires
        in_window(base, size),
        forall|i: int|
            0 <= i < entries.len() && #[trigger] overlaps(entries[i], base, base + size)
                ==> entries[i].expires <= now,
    ensures
        fits(live(entries, now), base, size),
{
    let l = live(entries, now);
    assert forall|k: int| 0 <= k < l.len() implies !#[trigger] overlaps(l[k], base, base + size) by {
        assert(l.contains(l[k]));
        lemma_live_members(entries, now, l[k]);
        let i = choose|i: int| 0 <= i < entries.len() && entries[i] == l[k];
        assert(entries[i].expires > now);
    }
}

/// On an empty table, the lowest fitting base of any request that the
/// window can hold is the bottom of the window.
pub proof fn lemma_empty_table_starts_at_low(size: int, base: int)
    requires
        1 <= size <= HIGH + 1 - LOW,
        fits(Seq::<AllocationEntry>::empty(), base, size),
        forall|y: int| LOW <= y < base ==> !#[trigger] fits(Seq::<AllocationEntry>::empty(), y, size),
    ensures
        base == LOW,
{
    assert(fits(Seq::<AllocationEntry>::empty(), LOW as int, size));
}

/// A well-formed table survives being persisted: its numbers are a valid
/// encoding, and any table read back from them is the same table.
pub proof fn lemma_encoding_round_trip(t: AllocationTable, nums: Seq<u64>, back: AllocationTable)
    requires
        t.wf(),
        encodes(nums, t.next, t.entries@),
        encodes(nums, back.next, back.entries@),
    ensures
        valid_encoding(nums),
        back.next == t.next,
        back.entries@ == t.entries@,
{
    let es = t.entries@;
    assert(nums.len() / 3 == es.len());
    assert forall|i: int| 0 <= i < nums.len() / 3 implies #[trigger] record_wf(nums, i) by {
        assert(entry_wf(es[i]));
    }
    assert forall|i: int, j: int| 0 <= i < j < nums.len() / 3 implies #[trigger] record_start(nums, i)
        <= #[trigger] record_start(nums, j) by {
        assert(es[i].start <= es[j].start);
    }
    assert forall|i: int| 0 <= i < es.len() implies back.entries@[i] == es[i] by {
        assert(back.entries@[i].start as u64 == nums[1 + 3 * i]);
        assert(es[i].start as u64 == nums[1 + 3 * i]);
    }
    assert(back.entries@ =~= es);
}

} // verus!
