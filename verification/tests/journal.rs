//! Journal ranges in normal form, and runs cut at their boundaries.

use elide_core::journal::{JournalRanges, JournalWindow};

#[test]
fn contains_hits_inside_and_misses_outside() {
    let r = JournalRanges::new(vec![(100, 10), (200, 5)]);
    assert!(!r.contains(99));
    assert!(r.contains(100));
    assert!(r.contains(109));
    assert!(!r.contains(110));
    assert!(r.contains(204));
    assert!(!r.contains(205));
}

#[test]
fn new_sorts_coalesces_and_drops_empty() {
    let r = JournalRanges::new(vec![(200, 5), (0, 0), (100, 10), (110, 4), (108, 3)]);
    assert_eq!(r.as_slice(), &[(100, 14), (200, 5)]);
    assert_eq!(r.lba_count(), 19);
}

#[test]
fn empty_contains_nothing() {
    let r = JournalRanges::default();
    assert!(!r.contains(0));
    assert!(r.is_empty());
}

#[test]
fn crosses_boundary_detects_entering_and_leaving_runs() {
    let r = JournalRanges::new(vec![(100, 10)]);
    assert!(
        !r.crosses_boundary(90, 10),
        "ends exactly at the window start"
    );
    assert!(r.crosses_boundary(95, 10), "enters the window mid-run");
    assert!(!r.crosses_boundary(100, 10), "exactly the window");
    assert!(!r.crosses_boundary(102, 4), "fully inside");
    assert!(r.crosses_boundary(105, 10), "leaves the window mid-run");
    assert!(
        !r.crosses_boundary(110, 5),
        "starts exactly at the window end"
    );
    assert!(r.crosses_boundary(95, 20), "spans the whole window");
    assert!(!JournalRanges::default().crosses_boundary(0, 100));
}

#[test]
fn split_at_boundaries_yields_uniform_runs() {
    let r = JournalRanges::new(vec![(100, 10), (200, 5)]);
    assert_eq!(r.split_at_boundaries(102, 4), vec![(102, 4)]);
    assert_eq!(r.split_at_boundaries(95, 10), vec![(95, 5), (100, 5)]);
    assert_eq!(
        r.split_at_boundaries(95, 20),
        vec![(95, 5), (100, 10), (110, 5)]
    );
    assert_eq!(
        r.split_at_boundaries(90, 120),
        vec![(90, 10), (100, 10), (110, 90), (200, 5), (205, 5)]
    );
    for (start, len) in r.split_at_boundaries(90, 120) {
        let inside = r.contains(start);
        for lba in start..start + len as u64 {
            assert_eq!(r.contains(lba), inside, "run [{start},+{len}) mixes tiers");
        }
    }
}

#[test]
fn normal_form_ignores_the_order_it_was_given_in() {
    let a = JournalRanges::new(vec![(10, 5), (15, 5), (30, 1)]);
    let b = JournalRanges::new(vec![(30, 1), (12, 8), (10, 3), (10, 5)]);
    assert_eq!(a.as_slice(), b.as_slice());
    assert_eq!(a.as_slice(), &[(10, 10), (30, 1)]);
}

#[test]
fn a_run_of_no_blocks_comes_back_whole() {
    let r = JournalRanges::new(vec![(100, 10)]);
    assert_eq!(r.split_at_boundaries(105, 0), vec![(105, 0)]);
    assert!(!r.crosses_boundary(105, 0));
}

#[test]
fn a_range_may_reach_the_last_block() {
    let r = JournalRanges::new(vec![(u64::MAX - 4, 4), (0, 1)]);
    assert!(r.contains(0));
    assert!(r.contains(u64::MAX - 1));
    assert!(!r.contains(u64::MAX));
    assert_eq!(r.lba_count(), 5);
    assert_eq!(r.duplicate().as_slice(), r.as_slice());
}

#[test]
fn an_unknown_window_is_empty() {
    let w = JournalWindow::default();
    assert!(w.ranges.is_empty());
    assert!(w.activation.is_none());
}

#[test]
fn a_run_up_to_a_boundary_comes_back_whole() {
    let r = JournalRanges::new(vec![(100, 10)]);
    assert_eq!(r.split_at_boundaries(90, 10), vec![(90, 10)]);
    assert_eq!(r.split_at_boundaries(100, 10), vec![(100, 10)]);
    assert_eq!(r.split_at_boundaries(110, 5), vec![(110, 5)]);
    assert_eq!(r.split_at_boundaries(95, 15), vec![(95, 5), (100, 10)]);
    assert_eq!(r.split_at_boundaries(100, 0), vec![(100, 0)]);
}
