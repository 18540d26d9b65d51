use bake_codepoints::ownership::{index_sources, OwnershipMap};
use bake_codepoints::reconcile::{Reconciler, Run};
use bake_codepoints::report::report;
use bake_codepoints::runs::detect_runs;

#[test]
fn first_claim_wins() {
    let sources = vec![vec![10, 11, 12, 13], vec![12, 13, 14, 15]];
    let map = index_sources(&sources);
    assert_eq!(map.lookup(12), Some(0));
    assert_eq!(map.lookup(13), Some(0));
    assert_eq!(map.lookup(14), Some(1));
    assert_eq!(map.lookup(9), None);
    assert_eq!(map.len(), 6);
}

#[test]
fn ownership_independent_of_intervals() {
    // Source 1's larger run wins the interval dispute over {5}, yet the
    // ownership map still maps 5 to source 0, the first to declare it.
    let sources = vec![vec![5], vec![1, 2, 3, 4, 5, 6, 7]];
    let map = index_sources(&sources);
    assert_eq!(map.lookup(5), Some(0));

    let mut rec = Reconciler::new();
    for (i, src) in sources.iter().enumerate() {
        for r in detect_runs(src, i) {
            rec.insert(r);
        }
    }
    assert_eq!(rec.intervals.len(), 1);
    assert_eq!(rec.intervals[0].owner, 1);
    assert_eq!(rec.intervals[0].start, 1);
    assert_eq!(rec.intervals[0].end, 7);
    // codepoint 5 lies in source 1's interval, but is rendered by source 0
    assert_eq!(map.lookup(5), Some(0));
}

#[test]
fn claims_are_never_overwritten() {
    let mut map = OwnershipMap::new();
    map.claim(100, 3);
    map.claim(100, 1);
    map.claim(100, 0);
    assert_eq!(map.lookup(100), Some(3));
    assert_eq!(map.len(), 1);
}

#[test]
fn codepoint_listing_is_unique() {
    let sources = vec![vec![2, 3], vec![3, 4], vec![2, 9]];
    let map = index_sources(&sources);
    let mut cps = map.codepoints();
    cps.sort();
    assert_eq!(cps, vec![2, 3, 4, 9]);
}

#[test]
fn empty_sources_give_empty_artifacts() {
    let sources: Vec<Vec<u32>> = vec![Vec::new(), Vec::new()];
    let map = index_sources(&sources);
    assert_eq!(map.len(), 0);
    assert_eq!(map.lookup(0), None);
    assert_eq!(map.codepoints(), Vec::<u32>::new());
}

#[test]
fn report_counts() {
    let sources = vec![vec![10, 11, 12, 13], vec![12, 13, 14, 15]];
    let map = index_sources(&sources);
    let mut rec = Reconciler::new();
    for (i, src) in sources.iter().enumerate() {
        for r in detect_runs(src, i) {
            rec.insert(r);
        }
    }
    let rep = report(&map, &rec);
    assert_eq!(rep.codepoint_count, 6);
    assert_eq!(rep.interval_count, 2);

    let empty_map = OwnershipMap::new();
    let empty_rec = Reconciler::new();
    let rep2 = report(&empty_map, &empty_rec);
    assert_eq!(rep2.codepoint_count, 0);
    assert_eq!(rep2.interval_count, 0);
}

#[test]
fn whole_pipeline_small() {
    // two sources, disjoint spans with one contested stretch
    let sources = vec![vec![0x41, 0x42, 0x43], vec![0x42, 0x43, 0x44, 0x45]];
    let map = index_sources(&sources);
    let mut rec = Reconciler::new();
    for (i, src) in sources.iter().enumerate() {
        for r in detect_runs(src, i) {
            rec.insert(r);
        }
    }
    // size 2 stored vs size 3 newcomer: the newcomer steals the overlap
    assert_eq!(rec.intervals.len(), 2);
    assert_eq!((rec.intervals[0].start, rec.intervals[0].end, rec.intervals[0].owner), (0x41, 0x41, 0));
    assert_eq!((rec.intervals[1].start, rec.intervals[1].end, rec.intervals[1].owner), (0x42, 0x45, 1));
    // ownership still favours the first declarer
    assert_eq!(map.lookup(0x42), Some(0));
    assert_eq!(map.lookup(0x44), Some(1));
}
