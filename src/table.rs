//! The allocation table: reserved port ranges with expiry timestamps, kept
//! ordered by start port, and the cursor where the next scan begins.

use vstd::prelude::*;

use crate::{HIGH, LOW};

verus! {

/// A reserved port range `[start, end)` together with the absolute time
/// (seconds since the epoch) at which the reservation lapses.
#[derive(Clone, Copy, Debug, PartialEq, Eq)]
pub struct AllocationEntry {
    pub start: u16,
    pub end: u16,
    pub expires: u64,
}

/// The reserved ranges, ordered by start port, and the port where the next
/// search resumes.
#[derive(Debug)]
pub struct AllocationTable {
    pub next: u16,
    pub entries: Vec<AllocationEntry>,
}

/// The entry's range shares a port with `[start, end)`.
pub open spec fn overlaps(e: AllocationEntry, start: int, end: int) -> bool {
    (e.start as int) < end && start < (e.end as int)
}

/// No entry of `entries` shares a port with `[start, end)`.
pub open spec fn is_free(entries: Seq<AllocationEntry>, start: int, end: int) -> bool {
    forall|i: int| 0 <= i < entries.len() ==> !#[trigger] overlaps(entries[i], start, end)
}

/// `[base, base + size)` is a non-empty range inside the managed window.
pub open spec fn in_window(base: int, size: int) -> bool {
    LOW <= base && 1 <= size && base + size <= HIGH + 1
}

/// `[base, base + size)` lies in the window and is reserved by no entry.
pub open spec fn fits(entries: Seq<AllocationEntry>, base: int, size: int) -> bool {
    in_window(base, size) && is_free(entries, base, base + size)
}

/// A non-empty range inside the managed window.
pub open spec fn entry_wf(e: AllocationEntry) -> bool {
    LOW <= e.start && e.start < e.end && e.end <= HIGH + 1
}

/// Entries ordered by start port.
pub open spec fn sorted(entries: Seq<AllocationEntry>) -> bool {
    forall|i: int, j: int|
        0 <= i < j < entries.len() ==> (#[trigger] entries[i]).start <= (#[trigger] entries[j]).start
}

/// Entries that are well formed and ordered by start port.
pub open spec fn entries_wf(entries: Seq<AllocationEntry>) -> bool {
    sorted(entries) && forall|i: int| 0 <= i < entries.len() ==> entry_wf(#[trigger] entries[i])
}

/// The entries whose expiry lies after `now`, in their original order.
pub open spec fn live(entries: Seq<AllocationEntry>, now: u64) -> Seq<AllocationEntry>
    decreases entries.len(),
{
    if entries.len() == 0 {
        Seq::empty()
    } else {
        let rest = live(entries.drop_last(), now);
        if entries.last().expires > now {
            rest.push(entries.last())
        } else {
            rest
        }
    }
}

/// `after` is `before` with `e` placed after every entry that starts at or
/// below it and before every entry that starts above it.
pub open spec fn inserted_in_order(
    before: Seq<AllocationEntry>,
    after: Seq<AllocationEntry>,
    e: AllocationEntry,
) -> bool {
    exists|pos: int|
        0 <= pos <= before.len() && after == before.insert(pos, e) && (forall|j: int|
            0 <= j < pos ==> (#[trigger] before[j]).start <= e.start) && (forall|j: int|
            pos <= j < before.len() ==> (#[trigger] before[j]).start > e.start)
}

/// `nums` lists the cursor, then for each entry its start, end and expiry.
pub open spec fn encodes(nums: Seq<u64>, next: u16, entries: Seq<AllocationEntry>) -> bool {
    &&& nums.len() == 1 + 3 * entries.len()
    &&& nums[0] == next as u64
    &&& forall|i: int|
        0 <= i < entries.len() ==> {
            &&& nums[1 + 3 * i] == (#[trigger] entries[i]).start as u64
            &&& nums[2 + 3 * i] == entries[i].end as u64
            &&& nums[3 + 3 * i] == entries[i].expires
        }
}

/// The `i`-th record of `nums` is a non-empty range inside the window.
pub open spec fn record_wf(nums: Seq<u64>, i: int) -> bool {
    LOW <= nums[1 + 3 * i] && nums[1 + 3 * i] < nums[2 + 3 * i] && nums[2 + 3 * i] <= HIGH + 1
}

/// `nums` encodes a well-formed table: a cursor in the window or just past
/// it, then records of well-formed ranges ordered by start port.
pub open spec fn valid_encoding(nums: Seq<u64>) -> bool {
    &&& nums.len() % 3 == 1
    &&& LOW <= nums[0] <= HIGH + 1
    &&& forall|i: int| 0 <= i < nums.len() / 3 ==> #[trigger] record_wf(nums, i)
    &&& forall|i: int, j: int|
        0 <= i < j < nums.len() / 3 ==> #[trigger] record_start(nums, i) <= #[trigger] record_start(nums, j)
}

/// The start port of the `i`-th record of `nums`.
pub open spec fn record_start(nums: Seq<u64>, i: int) -> u64 {
    nums[1 + 3 * i]
}

impl AllocationTable {
    /// The cursor lies in the window or just past it, and the entries are
    /// well formed and ordered.
    pub open spec fn wf(&self) -> bool {
        LOW <= self.next <= HIGH + 1 && entries_wf(self.entries@)
    }

    /// An empty table whose cursor is at the bottom of the window.
    pub fn new() -> (r: AllocationTable)
        ensures
            r.next == LOW,
            r.entries@ == Seq::<AllocationEntry>::empty(),
            r.wf(),
    {
        AllocationTable { next: LOW, entries: Vec::new() }
    }

    /// Looks for an entry that overlaps `[start, end)`. Returns `None` when
    /// there is none, else the end of the first such entry, from which a
    /// search may resume.
    pub fn contains(&self, start: u16, end: u16) -> (r: Option<u16>)
        ensures
            r is None <==> is_free(self.entries@, start as int, end as int),
            r matches Some(h) ==> exists|i: int|
                0 <= i < self.entries@.len() && overlaps(self.entries@[i], start as int, end as int)
                    && h == self.entries@[i].end && (forall|j: int|
                    0 <= j < i ==> !#[trigger] overlaps(self.entries@[j], start as int, end as int)),
    {
        let mut i: usize = 0;
        while i < self.entries.len()
            invariant
                0 <= i <= self.entries@.len(),
                forall|j: int| 0 <= j < i ==> !#[trigger] overlaps(self.entries@[j], start as int, end as int),
            decreases self.entries@.len() - i,
        {
            let e = self.entries[i];
            if e.start < end && start < e.end {
                assert(overlaps(self.entries@[i as int], start as int, end as int));
                return Some(e.end);
            }
            i = i + 1;
        }
        None
    }

    /// The numbers that persist this table: see `encodes`.
    pub fn encode(&self) -> (r: Vec<u64>)
        ensures
            encodes(r@, self.next, self.entries@),
    {
        let mut nums: Vec<u64> = Vec::new();
        nums.push(self.next as u64);
        let mut i: usize = 0;
        while i < self.entries.len()
            invariant
                0 <= i <= self.entries@.len(),
                encodes(nums@, self.next, self.entries@.take(i as int)),
            decreases self.entries@.len() - i,
        {
            let e = self.entries[i];
            let ghost before = nums@;
            nums.push(e.start as u64);
            nums.push(e.end as u64);
            nums.push(e.expires);
            proof {
                let es = self.entries@.take(i as int + 1);
                assert forall|k: int| 0 <= k < es.len() implies {
                    &&& nums@[1 + 3 * k] == (#[trigger] es[k]).start as u64
                    &&& nums@[2 + 3 * k] == es[k].end as u64
                    &&& nums@[3 + 3 * k] == es[k].expires
                } by {
                    if k < i {
                        assert(es[k] == self.entries@.take(i as int)[k]);
                    }
                }
            }
            i = i + 1;
        }
        assert(self.entries@.take(self.entries@.len() as int) =~= self.entries@);
        nums
    }

    /// Rebuilds a table from persisted numbers. Numbers that do not encode a
    /// well-formed table give the empty table, so that a lost or damaged
    /// store never blocks allocation.
    pub fn decode(nums: &Vec<u64>) -> (r: AllocationTable)
        ensures
            r.wf(),
            valid_encoding(nums@) ==> encodes(nums@, r.next, r.entries@),
            !valid_encoding(nums@) ==> r.next == LOW && r.entries@ == Seq::<AllocationEntry>::empty(),
    {
        let len = nums.len();
        if len % 3 != 1 || nums[0] < LOW as u64 || nums[0] > HIGH as u64 + 1 {
            return AllocationTable::new();
        }
        let count = len / 3;
        let mut entries: Vec<AllocationEntry> = Vec::new();
        let mut i: usize = 0;
        while i < count
            invariant
                len == nums@.len(),
                count == len / 3,
                len % 3 == 1,
                LOW <= nums@[0] <= HIGH + 1,
                0 <= i <= count,
                entries@.len() == i,
                entries_wf(entries@),
                forall|k: int| 0 <= k < i ==> #[trigger] record_wf(nums@, k),
                forall|k: int|
                    0 <= k < i ==> {
                        &&& nums@[1 + 3 * k] == (#[trigger] entries@[k]).start as u64
                        &&& nums@[2 + 3 * k] == entries@[k].end as u64
                        &&& nums@[3 + 3 * k] == entries@[k].expires
                    },
            decreases count - i,
        {
            let start = nums[1 + 3 * i];
            let end = nums[2 + 3 * i];
            let expires = nums[3 + 3 * i];
            if start < LOW as u64 || start >= end || end > HIGH as u64 + 1 {
                proof {
                    assert(!record_wf(nums@, i as int));
                }
                return AllocationTable::new();
            }
            if i > 0 && nums[3 * i - 2] > start {
                proof {
                    assert(!valid_encoding(nums@)) by {
                        assert(record_start(nums@, i as int - 1) > record_start(nums@, i as int));
                    }
                }
                return AllocationTable::new();
            }
            let e = AllocationEntry { start: start as u16, end: end as u16, expires };
            proof {
                assert(record_wf(nums@, i as int));
                if i > 0 {
                    assert(entries@[i - 1].start as u64 == nums@[3 * i - 2]);
                }
                assert forall|k: int| 0 <= k < i implies (#[trigger] entries@[k]).start <= e.start by {
                    if k < i - 1 {
                        assert(entries@[k].start <= entries@[i - 1].start);
                    }
                }
            }
            entries.push(e);
            i = i + 1;
        }
        let r = AllocationTable { next: nums[0] as u16, entries };
        assert forall|k: int, j: int| 0 <= k < j < nums@.len() / 3 implies #[trigger] record_start(nums@, k)
            <= #[trigger] record_start(nums@, j) by {
            assert(r.entries@[k].start <= r.entries@[j].start);
        }
        assert(valid_encoding(nums@));
        r
    }

    /// A table without the entries that expired at or before `now`, with its
    /// cursor back at the bottom of the window.
    pub fn reclaim(&self, now: u64) -> (r: AllocationTable)
        requires
            self.wf(),
        ensures
            r.entries@ == live(self.entries@, now),
            r.next == LOW,
            r.wf(),
    {
        let ghost s = self.entries@;
        let mut kept: Vec<AllocationEntry> = Vec::new();
        let mut i: usize = 0;
        while i < self.entries.len()
            invariant
                s == self.entries@,
                entries_wf(s),
                0 <= i <= s.len(),
                kept@ == live(s.take(i as int), now),
                entries_wf(kept@),
                forall|k: int, j: int|
                    0 <= k < kept@.len() && i <= j < s.len() ==> (#[trigger] kept@[k]).start
                        <= (#[trigger] s[j]).start,
            decreases s.len() - i,
        {
            let e = self.entries[i];
            proof {
                assert(s.take(i as int + 1).drop_last() =~= s.take(i as int));
                assert(s.take(i as int + 1).last() == e);
            }
            if e.expires > now {
                kept.push(e);
            }
            i = i + 1;
        }
        assert(s.take(s.len() as int) =~= s);
        AllocationTable { next: LOW, entries: kept }
    }

    /// Records `[start, end)` as reserved until `expires`, keeping the
    /// entries ordered, and moves the cursor to `end`.
    pub fn insert(&mut self, start: u16, end: u16, expires: u64)
        requires
            old(self).wf(),
            LOW <= start < end <= HIGH + 1,
        ensures
            final(self).next == end,
            inserted_in_order(
                old(self).entries@,
                final(self).entries@,
                AllocationEntry { start, end, expires },
            ),
            final(self).wf(),
    {
        let e = AllocationEntry { start, end, expires };
        let ghost s = self.entries@;
        let mut pos: usize = 0;
        while pos < self.entries.len() && self.entries[pos].start <= start
            invariant
                s == self.entries@,
                0 <= pos <= s.len(),
                forall|j: int| 0 <= j < pos ==> (#[trigger] s[j]).start <= start,
            decreases s.len() - pos,
        {
            pos = pos + 1;
        }
        assert(forall|j: int| pos <= j < s.len() ==> (#[trigger] s[j]).start > start) by {
            assert forall|j: int| pos <= j < s.len() implies (#[trigger] s[j]).start > start by {
                assert(s[pos as int].start > start);
                if j > pos {
                    assert(s[pos as int].start <= s[j].start);
                }
            }
        }
        self.entries.insert(pos, e);
        self.next = end;
        let ghost t = self.entries@;
        assert(t == s.insert(pos as int, e));
        assert(entries_wf(t)) by {
            assert forall|i: int, j: int| 0 <= i < j < t.len() implies (#[trigger] t[i]).start
                <= (#[trigger] t[j]).start by {
                if i < pos && j < pos {
                    assert(s[i].start <= s[j].start);
                } else if i < pos && j > pos {
                    assert(s[i].start <= s[j - 1].start);
                } else if i > pos {
                    assert(s[i - 1].start <= s[j - 1].start);
                }
            }
            assert forall|i: int| 0 <= i < t.len() implies entry_wf(#[trigger] t[i]) by {
                if i < pos {
                    assert(entry_wf(s[i]));
                } else if i > pos {
                    assert(entry_wf(s[i - 1]));
                }
            }
        }
    }
}

} // verus!
