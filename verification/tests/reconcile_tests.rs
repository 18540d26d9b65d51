use bake_codepoints::compact::compact;
use bake_codepoints::reconcile::{Decision, Interval, Reconciler, Run};
use bake_codepoints::runs::detect_runs;

fn iv(start: u32, end: u32, owner: usize) -> Interval {
    Interval { start, end, owner }
}

fn run(start: u32, end: u32, owner: usize) -> Run {
    Run { start, end, owner }
}

#[test]
fn scenario_two_sources_tie() {
    // Source 0 declares {10,11,12,13}, source 1 declares {12,13,14,15}.
    // The runs are the same size, so the stored interval wins the
    // contested span and the newcomer is shrunk to [14,15].
    let mut rec = Reconciler::new();
    let runs0 = detect_runs(&vec![10, 11, 12, 13], 0);
    assert_eq!(runs0, vec![run(10, 13, 0)]);
    for r in runs0 {
        rec.insert(r);
    }
    let runs1 = detect_runs(&vec![12, 13, 14, 15], 1);
    assert_eq!(runs1, vec![run(12, 15, 1)]);
    for r in runs1 {
        rec.insert(r);
    }
    assert_eq!(rec.intervals, vec![iv(10, 13, 0), iv(14, 15, 1)]);
}

#[test]
fn scenario_larger_run_absorbs_point() {
    // Source 0 declares {5}; source 1 declares {1,...,7}. The larger
    // run absorbs the stored single point entirely.
    let mut rec = Reconciler::new();
    let d0 = rec.insert(run(5, 5, 0));
    assert_eq!(d0, Decision::Inserted);
    let d1 = rec.insert(run(1, 7, 1));
    assert_eq!(d1, Decision::Inserted);
    assert_eq!(rec.intervals, vec![iv(1, 7, 1)]);
}

#[test]
fn scenario_same_owner_compaction() {
    // Source 0 declares {1,2} and later {3,4}: two stored intervals,
    // merged by the compactor into [1,4].
    let mut rec = Reconciler::new();
    rec.insert(run(1, 2, 0));
    rec.insert(run(3, 4, 0));
    assert_eq!(rec.intervals, vec![iv(1, 2, 0), iv(3, 4, 0)]);
    let c = compact(&rec.intervals);
    assert_eq!(c, vec![iv(1, 4, 0)]);
}

#[test]
fn tie_never_shrinks_existing() {
    // Equal sizes favour the stored interval: it keeps its full span.
    let mut rec = Reconciler::new();
    rec.insert(run(10, 13, 0));
    rec.insert(run(12, 15, 1));
    assert!(rec.intervals.contains(&iv(10, 13, 0)));
    // and the larger stored interval also survives a smaller newcomer
    let mut rec2 = Reconciler::new();
    rec2.insert(run(0, 9, 0));
    let d = rec2.insert(run(8, 12, 1));
    assert_eq!(d, Decision::Inserted);
    assert_eq!(rec2.intervals, vec![iv(0, 9, 0), iv(10, 12, 1)]);
}

#[test]
fn absorption_removes_contained() {
    // A run strictly containing a stored interval removes it and covers
    // its whole span.
    let mut rec = Reconciler::new();
    rec.insert(run(6, 7, 0));
    let d = rec.insert(run(5, 10, 1));
    assert_eq!(d, Decision::Inserted);
    assert_eq!(rec.intervals, vec![iv(5, 10, 1)]);
}

#[test]
fn containment_rejects_and_keeps_all() {
    // A run strictly inside a stored interval is rejected outright and
    // nothing changes.
    let mut rec = Reconciler::new();
    rec.insert(run(5, 10, 0));
    rec.insert(run(20, 22, 0));
    let before = rec.intervals.clone();
    let d = rec.insert(run(6, 7, 1));
    assert_eq!(d, Decision::Rejected);
    assert_eq!(rec.intervals, before);
}

#[test]
fn identical_span_replaces_owner() {
    // A run whose span equals a stored interval's absorbs it: the new
    // owner takes the span.
    let mut rec = Reconciler::new();
    rec.insert(run(5, 8, 0));
    let d = rec.insert(run(5, 8, 1));
    assert_eq!(d, Decision::Inserted);
    assert_eq!(rec.intervals, vec![iv(5, 8, 1)]);
}

#[test]
fn shrunk_to_point_still_committed() {
    // The window shrinks against larger stored intervals down to a
    // single point; with no collision left it is still committed.
    let mut rec = Reconciler::new();
    rec.insert(run(0, 5, 0));
    rec.insert(run(7, 20, 0));
    // [5,7]: loses [5] to [0,5] (larger), becomes [6,7], loses [7] to
    // [7,20] (larger), becomes [6,6]; a single point with no collision
    // left is still committed.
    let d = rec.insert(run(5, 7, 1));
    assert_eq!(d, Decision::Inserted);
    assert_eq!(rec.intervals, vec![iv(0, 5, 0), iv(6, 6, 1), iv(7, 20, 0)]);
}

#[test]
fn window_consumed_mid_scan_is_rejected() {
    // Here the collapse happens before the scan meets another overlap,
    // so the run is dropped: [4,8] shrinks to [6,8] against [0,5], then
    // lies inside [6,20] and is rejected.
    let mut rec = Reconciler::new();
    rec.insert(run(0, 5, 0));
    rec.insert(run(6, 20, 0));
    let d = rec.insert(run(4, 8, 1));
    assert_eq!(d, Decision::Rejected);
    assert_eq!(rec.intervals, vec![iv(0, 5, 0), iv(6, 20, 0)]);
}

#[test]
fn larger_newcomer_steals_edge() {
    // The newcomer is larger: the stored interval's boundary is pushed
    // inward past the newcomer's boundary.
    let mut rec = Reconciler::new();
    rec.insert(run(10, 12, 0));
    let d = rec.insert(run(11, 20, 1));
    assert_eq!(d, Decision::Inserted);
    assert_eq!(rec.intervals, vec![iv(10, 10, 0), iv(11, 20, 1)]);

    let mut rec2 = Reconciler::new();
    rec2.insert(run(18, 20, 0));
    let d2 = rec2.insert(run(11, 19, 1));
    assert_eq!(d2, Decision::Inserted);
    assert_eq!(rec2.intervals, vec![iv(11, 19, 1), iv(20, 20, 0)]);
}

#[test]
fn contained_point_lost_to_collapse_survives() {
    // The window of [9,10] shrinks to [10,10] against the larger [5,9]
    // before it reaches the contained stored point [10,10]; the
    // collapsed window is given up and the point keeps its owner. This
    // is why absorption is only promised for committed runs.
    let mut rec = Reconciler::new();
    rec.insert(run(5, 9, 0));
    rec.insert(run(10, 10, 1));
    let d = rec.insert(run(9, 10, 2));
    assert_eq!(d, Decision::Rejected);
    assert_eq!(rec.intervals, vec![iv(5, 9, 0), iv(10, 10, 1)]);
}

#[test]
fn intervals_stay_sorted_and_disjoint() {
    // Mixed insertions in arbitrary order: the stored collection is
    // always sorted by start with strictly disjoint spans.
    let mut rec = Reconciler::new();
    let runs = vec![
        run(100, 120, 0),
        run(10, 15, 1),
        run(50, 50, 2),
        run(110, 140, 3),
        run(12, 60, 4),
        run(0, 3, 5),
    ];
    for r in runs {
        rec.insert(r);
        for w in rec.intervals.windows(2) {
            assert!(w[0].start <= w[0].end);
            assert!(w[0].end < w[1].start);
            assert!(w[1].start <= w[1].end);
        }
    }
}

#[test]
fn single_point_runs() {
    let mut rec = Reconciler::new();
    assert_eq!(rec.insert(run(7, 7, 0)), Decision::Inserted);
    // a second single point away from the first is committed too
    assert_eq!(rec.insert(run(9, 9, 1)), Decision::Inserted);
    assert_eq!(rec.intervals, vec![iv(7, 7, 0), iv(9, 9, 1)]);
    // a single point colliding with a stored single point is given up
    assert_eq!(rec.insert(run(7, 7, 2)), Decision::Rejected);
    assert_eq!(rec.intervals, vec![iv(7, 7, 0), iv(9, 9, 1)]);
}

#[test]
fn compaction_merges_only_adjacent_same_owner() {
    let v = vec![
        iv(1, 2, 0),
        iv(3, 4, 0),  // adjacent, same owner: merged
        iv(6, 7, 0),  // gap: not merged
        iv(8, 9, 1),  // adjacent, other owner: not merged
        iv(10, 11, 1),// adjacent, same owner: merged
    ];
    let c = compact(&v);
    assert_eq!(c, vec![iv(1, 4, 0), iv(6, 7, 0), iv(8, 11, 1)]);
}

#[test]
fn compaction_is_idempotent() {
    let v = vec![
        iv(1, 2, 0),
        iv(3, 4, 0),
        iv(6, 7, 1),
        iv(8, 9, 1),
        iv(20, 30, 0),
    ];
    let once = compact(&v);
    let twice = compact(&once);
    assert_eq!(twice, once);
}

#[test]
fn compaction_small_inputs() {
    let empty: Vec<Interval> = Vec::new();
    assert_eq!(compact(&empty), Vec::new());
    let one = vec![iv(4, 9, 2)];
    assert_eq!(compact(&one), one);
}

#[test]
fn run_detection_gaps_and_singles() {
    assert_eq!(detect_runs(&Vec::new(), 0), Vec::new());
    assert_eq!(detect_runs(&vec![5], 0), vec![run(5, 5, 0)]);
    assert_eq!(
        detect_runs(&vec![1, 2, 3, 7, 8, 12], 3),
        vec![run(1, 3, 3), run(7, 8, 3), run(12, 12, 3)]
    );
}

#[test]
fn run_detection_non_ascending_starts_new_runs() {
    // duplicates and drops simply start a new run; no reordering
    assert_eq!(
        detect_runs(&vec![4, 4, 5, 2], 1),
        vec![run(4, 4, 1), run(4, 5, 1), run(2, 2, 1)]
    );
}

#[test]
fn run_detection_at_numeric_limit() {
    assert_eq!(
        detect_runs(&vec![u32::MAX - 1, u32::MAX], 0),
        vec![run(u32::MAX - 1, u32::MAX, 0)]
    );
    assert_eq!(
        detect_runs(&vec![u32::MAX, 0], 0),
        vec![run(u32::MAX, u32::MAX, 0), run(0, 0, 0)]
    );
}
