//! The allocation search: from the table's cursor, find a range that fits in
//! the window and that no entry reserves, wrapping around (and dropping
//! expired entries) at the top of the window. The caller probes each
//! candidate against the operating system and reports a port that could not
//! be bound; the search then resumes after it.

use vstd::prelude::*;

use crate::table::{fits, inserted_in_order, live, overlaps, AllocationEntry, AllocationTable};
use crate::{ALLOCATION_TIME_SECS, HIGH, LOW};

verus! {

/// Why an allocation request cannot be served.
#[derive(Clone, Copy, Debug, PartialEq, Eq)]
pub enum AllocError {
    /// A range of zero ports was requested.
    InvalidArgument,
    /// No directory for the shared state could be determined.
    Configuration,
}

/// Accepts a request for `range_size` contiguous ports, refusing an empty one.
pub fn validate_range_size(range_size: u16) -> (r: Result<(), AllocError>)
    ensures
        r is Err <==> range_size == 0,
        r matches Err(e) ==> e == AllocError::InvalidArgument,
{
    if range_size == 0 {
        Err(AllocError::InvalidArgument)
    } else {
        Ok(())
    }
}

/// Where the shared state lives.
#[derive(Clone, Debug, PartialEq, Eq)]
pub enum DataDirChoice<P> {
    /// The directory named by the override, used as it is.
    Override(P),
    /// A fixed subdirectory of the platform's cache directory.
    CacheSubdir(P),
}

/// Picks the shared state directory: the override when one is given, else
/// the platform cache directory, else a configuration error.
pub fn choose_data_dir<P>(override_dir: Option<P>, cache_dir: Option<P>) -> (r: Result<DataDirChoice<P>, AllocError>)
    ensures
        override_dir matches Some(o) ==> r == Ok::<DataDirChoice<P>, AllocError>(DataDirChoice::Override(o)),
        override_dir is None ==> match cache_dir {
            Some(c) => r == Ok::<DataDirChoice<P>, AllocError>(DataDirChoice::CacheSubdir(c)),
            None => r == Err::<DataDirChoice<P>, AllocError>(AllocError::Configuration),
        },
{
    match override_dir {
        Some(o) => Ok(DataDirChoice::Override(o)),
        None => match cache_dir {
            Some(c) => Ok(DataDirChoice::CacheSubdir(c)),
            None => Err(AllocError::Configuration),
        },
    }
}

/// One allocation in progress: the table as loaded, the base port under
/// consideration, the number of ports requested, and how many ports of the
/// candidate, from its base up, were found bindable.
#[derive(Debug)]
pub struct Search {
    pub table: AllocationTable,
    pub base: u16,
    pub range_size: u16,
    pub probed: u16,
}

impl Search {
    /// The table is well formed, the base lies in the window or just past
    /// it, and the request is not empty.
    pub open spec fn wf(&self) -> bool {
        &&& self.table.wf()
        &&& LOW <= self.base <= HIGH + 1
        &&& self.range_size >= 1
        &&& self.probed <= self.range_size
    }

    /// The base port starts a range that fits in the window and that no
    /// entry reserves.
    pub open spec fn at_candidate(&self) -> bool {
        fits(self.table.entries@, self.base as int, self.range_size as int)
    }

    /// Starts a search for `range_size` ports at the table's cursor.
    pub fn new(table: AllocationTable, range_size: u16) -> (r: Search)
        requires
            table.wf(),
            range_size >= 1,
        ensures
            r.table == table,
            r.base == table.next,
            r.range_size == range_size,
            r.probed == 0,
            r.wf(),
    {
        let base = table.next;
        Search { table, base, range_size, probed: 0 }
    }

    /// Moves to the lowest base, from the current one up, whose range fits
    /// and is unreserved. When there is none, the expired entries at `now`
    /// are dropped, the cursor goes back to the bottom of the window and the
    /// lowest fitting base from there is taken. When there is still none,
    /// the window is full: the result is `None` and the base is left past
    /// the window, so that the next call drops expired entries again.
    pub fn next_candidate(&mut self, now: u64) -> (r: Option<u16>)
        requires
            old(self).wf(),
        ensures
            final(self).wf(),
            final(self).range_size == old(self).range_size,
            final(self).probed == 0,
            r matches Some(b) ==> b == final(self).base && final(self).at_candidate(),
            r is None ==> final(self).base == HIGH + 1,
            ({
                let s = old(self).base as int;
                let n = old(self).range_size as int;
                let t = old(self).table.entries@;
                let u = live(t, now);
                if exists|x: int| s <= x && #[trigger] fits(t, x, n) {
                    &&& final(self).table == old(self).table
                    &&& r is Some
                    &&& s <= final(self).base
                    &&& forall|y: int| s <= y < final(self).base ==> !#[trigger] fits(t, y, n)
                } else {
                    &&& final(self).table.entries@ == u
                    &&& final(self).table.next == LOW
                    &&& forall|y: int| LOW <= y < final(self).base ==> !#[trigger] fits(u, y, n)
                }
            }),
    {
        let ghost s = old(self).base as int;
        let ghost n = old(self).range_size as int;
        let ghost t = old(self).table.entries@;
        let ghost u = live(t, now);
        let mut wrapped = false;
        self.probed = 0;
        loop
            invariant
                s == old(self).base,
                n == old(self).range_size,
                t == old(self).table.entries@,
                u == live(t, now),
                self.wf(),
                self.range_size == n,
                self.probed == 0,
                !wrapped ==> {
                    &&& self.table == old(self).table
                    &&& s <= self.base
                    &&& forall|y: int| s <= y < self.base ==> !#[trigger] fits(t, y, n)
                },
                wrapped ==> {
                    &&& self.table.entries@ == u
                    &&& self.table.next == LOW
                    &&& forall|x: int| s <= x ==> !#[trigger] fits(t, x, n)
                    &&& forall|y: int| LOW <= y < self.base ==> !#[trigger] fits(u, y, n)
                },
            decreases (if wrapped { 0int } else { 1int }), HIGH + 1 - self.base,
        {
            if self.base as u32 + self.range_size as u32 > HIGH as u32 + 1 {
                if wrapped {
                    assert forall|y: int| LOW <= y < HIGH + 1 implies !#[trigger] fits(u, y, n) by {
                        if y >= self.base {
                            assert(y + n > HIGH + 1);
                        }
                    }
                    self.base = HIGH + 1;
                    return None;
                }
                assert forall|x: int| s <= x implies !#[trigger] fits(t, x, n) by {
                    if x >= self.base {
                        assert(x + n > HIGH + 1);
                    }
                }
                self.table = self.table.reclaim(now);
                self.base = LOW;
                wrapped = true;
            } else {
                let end = self.base + self.range_size;
                match self.table.contains(self.base, end) {
                    Some(h) => {
                        let ghost cur = self.table.entries@;
                        let ghost b = self.base as int;
                        assert forall|y: int| b <= y < h implies !#[trigger] fits(cur, y, n) by {
                            let i = choose|i: int|
                                0 <= i < cur.len() && overlaps(cur[i], b, b + n) && h == cur[i].end;
                            assert(overlaps(cur[i], y, y + n));
                        }
                        self.base = h;
                    },
                    None => {
                        assert(fits(self.table.entries@, self.base as int, n));
                        return Some(self.base);
                    },
                }
            }
        }
    }

    /// Records that `port`, the next port of the candidate, was found
    /// bindable.
    pub fn probe_ok(&mut self, port: u16)
        requires
            old(self).wf(),
            old(self).at_candidate(),
            old(self).probed < old(self).range_size,
            port == old(self).base + old(self).probed,
        ensures
            final(self).table == old(self).table,
            final(self).range_size == old(self).range_size,
            final(self).base == old(self).base,
            final(self).probed == old(self).probed + 1,
            final(self).wf(),
            final(self).at_candidate(),
    {
        self.probed = self.probed + 1;
    }

    /// Records that `port`, the next port of the candidate, could not be
    /// bound: the search resumes just after it.
    pub fn probe_failed(&mut self, port: u16)
        requires
            old(self).wf(),
            old(self).at_candidate(),
            old(self).probed < old(self).range_size,
            port == old(self).base + old(self).probed,
        ensures
            final(self).table == old(self).table,
            final(self).range_size == old(self).range_size,
            final(self).base == port + 1,
            final(self).probed == 0,
            final(self).wf(),
    {
        self.base = port + 1;
        self.probed = 0;
    }

    /// Every port of the candidate was found bindable.
    pub fn confirmed(&self) -> (r: bool)
        ensures
            r == (self.probed == self.range_size),
    {
        self.probed == self.range_size
    }

    /// Reserves the current candidate, once every port of it was found
    /// bindable, until `now` plus the lease and returns its base port. The
    /// table's cursor moves to the end of the range.
    pub fn commit(&mut self, now: u64) -> (r: u16)
        requires
            old(self).wf(),
            old(self).at_candidate(),
            old(self).probed == old(self).range_size,
            now <= u64::MAX - ALLOCATION_TIME_SECS,
        ensures
            r == old(self).base,
            final(self).base == old(self).base,
            final(self).range_size == old(self).range_size,
            final(self).table.next == old(self).base + old(self).range_size,
            inserted_in_order(
                old(self).table.entries@,
                final(self).table.entries@,
                AllocationEntry {
                    start: old(self).base,
                    end: (old(self).base + old(self).range_size) as u16,
                    expires: (now + ALLOCATION_TIME_SECS) as u64,
                },
            ),
            final(self).table.wf(),
    {
        let end = self.base + self.range_size;
        self.table.insert(self.base, end, now + ALLOCATION_TIME_SECS);
        self.base
    }
}

} // verus!
