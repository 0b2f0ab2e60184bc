use portalloc::search::{choose_data_dir, validate_range_size, AllocError, DataDirChoice, Search};
use portalloc::table::{AllocationEntry, AllocationTable};
use portalloc::{ALLOCATION_TIME_SECS, HIGH, LOW};

fn entry(start: u16, end: u16, expires: u64) -> AllocationEntry {
    AllocationEntry { start, end, expires }
}

fn confirm_all(s: &mut Search) {
    let b = s.base;
    for port in b..b + s.range_size {
        s.probe_ok(port);
    }
    assert!(s.confirmed());
}

fn allocate_without_probe_failures(table: AllocationTable, size: u16, now: u64) -> (u16, AllocationTable) {
    let mut s = Search::new(table, size);
    let b = s.next_candidate(now).expect("window has room");
    confirm_all(&mut s);
    let r = s.commit(now);
    assert_eq!(r, b);
    (r, s.table)
}

#[test]
fn zero_range_is_invalid_argument() {
    assert_eq!(validate_range_size(0), Err(AllocError::InvalidArgument));
    assert_eq!(validate_range_size(1), Ok(()));
    assert_eq!(validate_range_size(u16::MAX), Ok(()));
}

#[test]
fn data_dir_override_wins() {
    assert_eq!(
        choose_data_dir(Some("/o"), Some("/c")),
        Ok(DataDirChoice::Override("/o"))
    );
    assert_eq!(choose_data_dir(None, Some("/c")), Ok(DataDirChoice::CacheSubdir("/c")));
    assert_eq!(choose_data_dir::<&str>(None, None), Err(AllocError::Configuration));
}

#[test]
fn first_allocation_on_empty_table() {
    let now = 1_000_000;
    let (b, t) = allocate_without_probe_failures(AllocationTable::new(), 3, now);
    assert_eq!(b, 10000);
    assert_eq!(t.entries, vec![entry(10000, 10003, now + ALLOCATION_TIME_SECS)]);
    assert_eq!(t.next, 10003);
    let (b2, t2) = allocate_without_probe_failures(t, 3, now);
    assert!(b2 >= 10003);
    assert_eq!(b2, 10003);
    assert_eq!(t2.entries.len(), 2);
}

#[test]
fn damaged_store_first_allocation_at_low() {
    let t = AllocationTable::decode(&vec![1, 2, 3]);
    let (b, _) = allocate_without_probe_failures(t, 5, 10);
    assert_eq!(b, LOW);
}

#[test]
fn sequential_allocations_do_not_overlap() {
    let mut t = AllocationTable::new();
    let mut ranges: Vec<(u16, u16)> = Vec::new();
    let sizes: [u16; 5] = [3, 1, 10, 7, 2];
    for (k, size) in sizes.iter().enumerate() {
        let (b, next) = allocate_without_probe_failures(t, *size, 100 + k as u64);
        t = next;
        ranges.push((b, b + size));
    }
    for i in 0..ranges.len() {
        for j in (i + 1)..ranges.len() {
            let (a0, a1) = ranges[i];
            let (b0, b1) = ranges[j];
            assert!(a1 <= b0 || b1 <= a0);
        }
    }
}

#[test]
fn conflict_skips_whole_entry() {
    let t = AllocationTable {
        next: 10000,
        entries: vec![entry(10001, 10050, 500)],
    };
    let mut s = Search::new(t, 2);
    assert_eq!(s.next_candidate(100), Some(10050));
    assert_eq!(s.base, 10050);
}

#[test]
fn probe_failure_resumes_after_port() {
    let mut s = Search::new(AllocationTable::new(), 4);
    assert_eq!(s.next_candidate(0), Some(10000));
    s.probe_ok(10000);
    s.probe_ok(10001);
    assert_eq!(s.probed, 2);
    assert!(!s.confirmed());
    s.probe_failed(10002);
    assert_eq!(s.base, 10003);
    assert_eq!(s.probed, 0);
    assert_eq!(s.next_candidate(0), Some(10003));
    confirm_all(&mut s);
    assert_eq!(s.commit(0), 10003);
    assert_eq!(s.table.entries, vec![entry(10003, 10007, ALLOCATION_TIME_SECS)]);
}

#[test]
fn expired_entry_reused_only_after_wraparound() {
    let aged = AllocationTable {
        next: 10000,
        entries: vec![entry(10000, 10003, 50)],
    };
    let mut s = Search::new(aged, 3);
    assert_eq!(s.next_candidate(100), Some(10003));
    assert_eq!(s.table.entries.len(), 1);

    let aged = AllocationTable {
        next: HIGH - 1,
        entries: vec![entry(10000, 10003, 50)],
    };
    let mut s = Search::new(aged, 3);
    assert_eq!(s.next_candidate(100), Some(10000));
    assert!(s.table.entries.is_empty());
    assert_eq!(s.table.next, LOW);
}

#[test]
fn unexpired_entry_survives_wraparound() {
    let t = AllocationTable {
        next: HIGH + 1,
        entries: vec![entry(10000, 10003, 500), entry(10003, 10006, 50)],
    };
    let mut s = Search::new(t, 3);
    assert_eq!(s.next_candidate(100), Some(10003));
    assert_eq!(s.table.entries, vec![entry(10000, 10003, 500)]);
}

#[test]
fn range_reaching_top_of_window() {
    let t = AllocationTable { next: HIGH - 2, entries: vec![] };
    let mut s = Search::new(t, 3);
    assert_eq!(s.next_candidate(0), Some(HIGH - 2));
    confirm_all(&mut s);
    assert_eq!(s.commit(0), HIGH - 2);
    assert_eq!(s.table.next, HIGH + 1);
}

#[test]
fn largest_request_fills_window() {
    let mut s = Search::new(AllocationTable::new(), HIGH - LOW + 1);
    assert_eq!(s.next_candidate(0), Some(LOW));
    let mut s = Search::new(AllocationTable::new(), HIGH - LOW + 2);
    assert_eq!(s.next_candidate(0), None);
    assert_eq!(s.base, HIGH + 1);
}

#[test]
fn full_window_waits_for_expiry() {
    let t = AllocationTable {
        next: 20000,
        entries: vec![entry(10000, 20000, 500), entry(20000, 32001, 500)],
    };
    let mut s = Search::new(t, 1);
    assert_eq!(s.next_candidate(100), None);
    assert_eq!(s.base, HIGH + 1);
    assert_eq!(s.table.entries.len(), 2);
    assert_eq!(s.next_candidate(500), Some(LOW));
    assert!(s.table.entries.is_empty());
}
