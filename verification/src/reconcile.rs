//! The interval reconciler: a sorted, non-overlapping collection of owned
//! codepoint intervals, grown one run at a time.

use vstd::prelude::*;

verus! {

/// A contiguous span of codepoints detected in one source, not yet
/// reconciled against the spans of other sources. `owner` is the index of
/// the source (its priority rank: lower means scanned earlier).
#[derive(Copy, Clone, PartialEq, Eq, Structural, Debug)]
pub struct Run {
    pub start: u32,
    pub end: u32,
    pub owner: usize,
}

/// A reconciled, stored span of codepoints with a single owning source.
#[derive(Copy, Clone, PartialEq, Eq, Structural, Debug)]
pub struct Interval {
    pub start: u32,
    pub end: u32,
    pub owner: usize,
}

/// Outcome of inserting one run into the stored collection. A third,
/// fatal outcome — geometry during the scan that matches no overlap
/// case — cannot occur: for a well-formed collection the case analysis
/// is proved exhaustive, so no variant stands for it.
#[derive(Copy, Clone, PartialEq, Eq, Structural, Debug)]
pub enum Decision {
    Inserted,
    Rejected,
}

/// Every interval is a valid closed span: `start <= end`.
pub open spec fn all_valid(s: Seq<Interval>) -> bool {
    forall|i: int| 0 <= i < s.len() ==> #[trigger] s[i].start <= s[i].end
}

/// Intervals are sorted ascending by `start` and pairwise disjoint: each
/// one ends strictly before the next begins.
pub open spec fn sorted_disjoint(s: Seq<Interval>) -> bool {
    forall|i: int, j: int| 0 <= i < j < s.len() ==> #[trigger] s[i].end < #[trigger] s[j].start
}

/// Well-formedness of the stored collection: valid spans, sorted, disjoint.
pub open spec fn ivs_wf(s: Seq<Interval>) -> bool {
    all_valid(s) && sorted_disjoint(s)
}

/// No-overlap invariant: in a well-formed collection, the spans of any
/// two distinct stored intervals are disjoint.
pub proof fn lemma_no_overlap(s: Seq<Interval>, i: int, j: int)
    requires
        ivs_wf(s),
        0 <= i < s.len(),
        0 <= j < s.len(),
        i != j,
    ensures
        s[i].end < s[j].start || s[j].end < s[i].start,
{
}

/// Sorted invariant: a well-formed collection is sorted strictly
/// ascending by `start`.
pub proof fn lemma_sorted(s: Seq<Interval>, i: int, j: int)
    requires
        ivs_wf(s),
        0 <= i < j < s.len(),
    ensures
        s[i].start < s[j].start,
{
    assert(s[i].start <= s[i].end);
}

/// Result of scanning the stored collection with a candidate window:
/// the surviving (possibly shrunk) intervals, the final window bounds,
/// and whether the insertion was rejected.
pub ghost struct ScanResult {
    pub kept: Seq<Interval>,
    pub start: u32,
    pub end: u32,
    pub rejected: bool,
}

/// One pass of the reconciliation scan over the remaining stored
/// intervals, carrying the candidate window `[start, end]`.
///
/// For each stored interval, in ascending order: an interval disjoint
/// from the window is kept unchanged; a window that has collapsed to a
/// single point before an overlap is resolved is rejected as fully
/// consumed; an interval lying inside the window is absorbed (dropped);
/// a window lying inside an interval is rejected; a partial edge overlap
/// is resolved by size, the larger span keeping the contested region and
/// the other being shrunk past its boundary, with ties favouring the
/// stored interval. A rejection keeps all remaining intervals as they
/// stand (earlier absorptions and shrinks persist).
pub open spec fn scan(rest: Seq<Interval>, start: u32, end: u32) -> ScanResult
    decreases rest.len(),
{
    if rest.len() == 0 {
        ScanResult { kept: Seq::empty(), start, end, rejected: false }
    } else {
        let j = rest[0];
        let tail = rest.drop_first();
        if start > j.end || end < j.start {
            // no overlap: keep searching
            let r = scan(tail, start, end);
            ScanResult { kept: seq![j] + r.kept, start: r.start, end: r.end, rejected: r.rejected }
        } else if end == start {
            // the window has been consumed down to a single point that
            // still collides: give it up
            ScanResult { kept: rest, start, end, rejected: true }
        } else if j.start >= start && j.end <= end {
            // stored interval contained in the window: absorb it
            scan(tail, start, end)
        } else if start >= j.start && end <= j.end {
            // window contained in the stored interval: the existing owner wins
            ScanResult { kept: rest, start, end, rejected: true }
        } else if j.start <= end <= j.end {
            // partial overlap on the window's right edge
            if j.end - j.start >= end - start {
                let r = scan(tail, start, (j.start - 1) as u32);
                ScanResult { kept: seq![j] + r.kept, start: r.start, end: r.end, rejected: r.rejected }
            } else {
                let j2 = Interval { start: (end + 1) as u32, end: j.end, owner: j.owner };
                let r = scan(tail, start, end);
                ScanResult { kept: seq![j2] + r.kept, start: r.start, end: r.end, rejected: r.rejected }
            }
        } else {
            // partial overlap on the window's left edge
            if j.end - j.start >= end - start {
                let r = scan(tail, (j.end + 1) as u32, end);
                ScanResult { kept: seq![j] + r.kept, start: r.start, end: r.end, rejected: r.rejected }
            } else {
                let j2 = Interval { start: j.start, end: (start - 1) as u32, owner: j.owner };
                let r = scan(tail, start, end);
                ScanResult { kept: seq![j2] + r.kept, start: r.start, end: r.end, rejected: r.rejected }
            }
        }
    }
}

/// Place a new interval, already disjoint from every element, at its
/// sorted position: before the first element that starts after it ends.
pub open spec fn place_sorted(s: Seq<Interval>, iv: Interval) -> Seq<Interval>
    decreases s.len(),
{
    if s.len() == 0 {
        seq![iv]
    } else if iv.end < s[0].start {
        seq![iv] + s
    } else {
        seq![s[0]] + place_sorted(s.drop_first(), iv)
    }
}

/// The whole effect of inserting one run: scan and resolve, then, if the
/// run was not rejected, commit the remaining window at its sorted place.
/// Absorptions and shrinks performed before a rejection persist.
pub open spec fn reconcile_spec(ivs: Seq<Interval>, run: Run) -> (Seq<Interval>, Decision) {
    let r = scan(ivs, run.start, run.end);
    if r.rejected {
        (r.kept, Decision::Rejected)
    } else {
        (
            place_sorted(r.kept, Interval { start: r.start, end: r.end, owner: run.owner }),
            Decision::Inserted,
        )
    }
}

/// The scan preserves well-formedness of the survivors, never widens the
/// window, and leaves the window disjoint from every survivor.
pub proof fn lemma_scan_wf(rest: Seq<Interval>, start: u32, end: u32)
    requires
        ivs_wf(rest),
        start <= end,
    ensures
        ({
            let r = scan(rest, start, end);
            &&& ivs_wf(r.kept)
            &&& rest.len() > 0 ==> forall|k: int|
                0 <= k < r.kept.len() ==> #[trigger] r.kept[k].start >= rest[0].start
            &&& !r.rejected ==> start <= r.start <= r.end <= end
            &&& !r.rejected ==> forall|k: int|
                0 <= k < r.kept.len() ==> #[trigger] r.kept[k].end < r.start
                    || r.kept[k].start > r.end
        }),
    decreases rest.len(),
{
    if rest.len() == 0 {
    } else {
        let j = rest[0];
        let tail = rest.drop_first();
        assert(ivs_wf(tail)) by {
            assert forall|i: int, k: int| 0 <= i < k < tail.len() implies #[trigger] tail[i].end
                < #[trigger] tail[k].start by {
                assert(rest[i + 1].end < rest[k + 1].start);
            }
            assert forall|i: int| 0 <= i < tail.len() implies #[trigger] tail[i].start
                <= tail[i].end by {
                assert(rest[i + 1].start <= rest[i + 1].end);
            }
        }
        assert(forall|k: int| 0 <= k < tail.len() ==> #[trigger] tail[k].start >= rest[0].start)
            by {
            assert forall|k: int| 0 <= k < tail.len() implies #[trigger] tail[k].start
                >= rest[0].start by {
                assert(rest[0].end < rest[k + 1].start);
            }
        }
        let r = scan(rest, start, end);
        if start > j.end || end < j.start {
            let rr = scan(tail, start, end);
            lemma_scan_wf(tail, start, end);
            assert(r.kept == seq![j] + rr.kept);
            assert(tail.len() > 0 ==> tail[0].start > j.end);
            assert forall|i: int, k: int| 0 <= i < k < r.kept.len() implies
                #[trigger] r.kept[i].end < #[trigger] r.kept[k].start by {
                if i == 0 {
                    assert(rr.kept[k - 1].start >= tail[0].start);
                } else {
                    assert(rr.kept[i - 1].end < rr.kept[k - 1].start);
                }
            }
        } else if end == start {
        } else if j.start >= start && j.end <= end {
            lemma_scan_wf(tail, start, end);
        } else if start >= j.start && end <= j.end {
        } else if j.start <= end <= j.end {
            // right-edge overlap: start < j.start <= end < j.end
            assert(start < j.start);
            assert(end < j.end);
            if j.end - j.start >= end - start {
                let e2 = (j.start - 1) as u32;
                let rr = scan(tail, start, e2);
                lemma_scan_wf(tail, start, e2);
                assert(r.kept == seq![j] + rr.kept);
                assert forall|i: int, k: int| 0 <= i < k < r.kept.len() implies
                    #[trigger] r.kept[i].end < #[trigger] r.kept[k].start by {
                    if i == 0 {
                        assert(rr.kept[k - 1].start >= tail[0].start);
                    } else {
                        assert(rr.kept[i - 1].end < rr.kept[k - 1].start);
                    }
                }
            } else {
                let j2 = Interval { start: (end + 1) as u32, end: j.end, owner: j.owner };
                let rr = scan(tail, start, end);
                lemma_scan_wf(tail, start, end);
                assert(r.kept == seq![j2] + rr.kept);
                assert forall|i: int, k: int| 0 <= i < k < r.kept.len() implies
                    #[trigger] r.kept[i].end < #[trigger] r.kept[k].start by {
                    if i == 0 {
                        assert(rr.kept[k - 1].start >= tail[0].start);
                    } else {
                        assert(rr.kept[i - 1].end < rr.kept[k - 1].start);
                    }
                }
            }
        } else {
            // left-edge overlap: j.start < start <= j.end < end
            assert(j.start < start);
            assert(j.end < end);
            if j.end - j.start >= end - start {
                let s2 = (j.end + 1) as u32;
                let rr = scan(tail, s2, end);
                lemma_scan_wf(tail, s2, end);
                assert(r.kept == seq![j] + rr.kept);
                assert forall|i: int, k: int| 0 <= i < k < r.kept.len() implies
                    #[trigger] r.kept[i].end < #[trigger] r.kept[k].start by {
                    if i == 0 {
                        assert(rr.kept[k - 1].start >= tail[0].start);
                    } else {
                        assert(rr.kept[i - 1].end < rr.kept[k - 1].start);
                    }
                }
            } else {
                let j2 = Interval { start: j.start, end: (start - 1) as u32, owner: j.owner };
                let rr = scan(tail, start, end);
                lemma_scan_wf(tail, start, end);
                assert(r.kept == seq![j2] + rr.kept);
                assert forall|i: int, k: int| 0 <= i < k < r.kept.len() implies
                    #[trigger] r.kept[i].end < #[trigger] r.kept[k].start by {
                    if i == 0 {
                        assert(rr.kept[k - 1].start >= tail[0].start);
                    } else {
                        assert(rr.kept[i - 1].end < rr.kept[k - 1].start);
                    }
                }
            }
        }
    }
}

/// Placing a disjoint interval at its sorted position preserves
/// well-formedness; the result holds exactly the old elements plus the
/// new one.
pub proof fn lemma_place_sorted(s: Seq<Interval>, iv: Interval)
    requires
        ivs_wf(s),
        iv.start <= iv.end,
        forall|k: int| 0 <= k < s.len() ==> #[trigger] s[k].end < iv.start || s[k].start > iv.end,
    ensures
        ({
            let p = place_sorted(s, iv);
            &&& ivs_wf(p)
            &&& p.len() == s.len() + 1
            &&& forall|x: Interval| #[trigger] p.contains(x) <==> s.contains(x) || x == iv
        }),
    decreases s.len(),
{
    let p = place_sorted(s, iv);
    if s.len() == 0 {
        assert forall|x: Interval| #[trigger] p.contains(x) implies s.contains(x) || x == iv by {}
        assert(p.contains(iv)) by {
            assert(p[0] == iv);
        }
    } else if iv.end < s[0].start {
        assert(p == seq![iv] + s);
        assert forall|i: int, k: int| 0 <= i < k < p.len() implies #[trigger] p[i].end
            < #[trigger] p[k].start by {
            if i == 0 {
                if k > 1 {
                    assert(s[0].end < s[k - 1].start);
                    assert(s[0].start <= s[0].end);
                }
            } else {
                assert(s[i - 1].end < s[k - 1].start);
            }
        }
        assert forall|x: Interval| s.contains(x) || x == iv implies #[trigger] p.contains(x) by {
            if x == iv {
                assert(p[0] == iv);
            } else {
                let w = choose|w: int| 0 <= w < s.len() && s[w] == x;
                assert(p[w + 1] == x);
            }
        }
        assert forall|x: Interval| #[trigger] p.contains(x) implies s.contains(x) || x == iv by {
            let w = choose|w: int| 0 <= w < p.len() && p[w] == x;
            if w > 0 {
                assert(s[w - 1] == x);
            }
        }
    } else {
        let tail = s.drop_first();
        assert(ivs_wf(tail)) by {
            assert forall|i: int, k: int| 0 <= i < k < tail.len() implies #[trigger] tail[i].end
                < #[trigger] tail[k].start by {
                assert(s[i + 1].end < s[k + 1].start);
            }
            assert forall|i: int| 0 <= i < tail.len() implies #[trigger] tail[i].start
                <= tail[i].end by {
                assert(s[i + 1].start <= s[i + 1].end);
            }
        }
        lemma_place_sorted(tail, iv);
        let pt = place_sorted(tail, iv);
        assert(p == seq![s[0]] + pt);
        // the head ends before the new interval and before every tail element
        assert(s[0].end < iv.start);
        assert forall|i: int, k: int| 0 <= i < k < p.len() implies #[trigger] p[i].end
            < #[trigger] p[k].start by {
            if i == 0 {
                assert(pt.contains(pt[k - 1]));
                if pt[k - 1] == iv {
                } else {
                    let w = choose|w: int| 0 <= w < tail.len() && tail[w] == pt[k - 1];
                    assert(s[0].end < s[w + 1].start);
                }
            } else {
                assert(pt[i - 1].end < pt[k - 1].start);
            }
        }
        assert forall|x: Interval| s.contains(x) || x == iv implies #[trigger] p.contains(x) by {
            if x == s[0] {
                assert(p[0] == x);
            } else if x == iv {
                assert(pt.contains(iv));
                let w = choose|w: int| 0 <= w < pt.len() && pt[w] == iv;
                assert(p[w + 1] == iv);
            } else {
                let w = choose|w: int| 0 <= w < s.len() && s[w] == x;
                assert(tail[w - 1] == x);
                assert(pt.contains(x));
                let w2 = choose|w2: int| 0 <= w2 < pt.len() && pt[w2] == x;
                assert(p[w2 + 1] == x);
            }
        }
        assert forall|x: Interval| #[trigger] p.contains(x) implies s.contains(x) || x == iv by {
            let w = choose|w: int| 0 <= w < p.len() && p[w] == x;
            if w == 0 {
                assert(s[0] == x);
            } else {
                assert(pt.contains(p[w]));
                if !(x == iv) {
                    let w2 = choose|w2: int| 0 <= w2 < tail.len() && tail[w2] == x;
                    assert(s[w2 + 1] == x);
                }
            }
        }
    }
}

proof fn lemma_scan_strict_container(rest: Seq<Interval>, start: u32, end: u32, f: int)
    requires
        ivs_wf(rest),
        start <= end,
        0 <= f < rest.len(),
        rest[f].start <= start,
        end <= rest[f].end,
        rest[f].start < start || end < rest[f].end,
    ensures
        scan(rest, start, end).rejected,
        scan(rest, start, end).kept == rest,
    decreases rest.len(),
{
    let j = rest[0];
    let tail = rest.drop_first();
    if f == 0 {
        // the window collides with its strict container at once
        assert(!(start > j.end || end < j.start));
        if end == start {
        } else {
            assert(!(j.start >= start && j.end <= end));
            assert(start >= j.start && end <= j.end);
        }
    } else {
        // every earlier interval ends before the container begins
        assert(j.end < rest[f].start);
        assert(start > j.end);
        assert(tail[f - 1] == rest[f]);
        assert(ivs_wf(tail)) by {
            assert forall|i: int, k: int| 0 <= i < k < tail.len() implies #[trigger] tail[i].end
                < #[trigger] tail[k].start by {
                assert(rest[i + 1].end < rest[k + 1].start);
            }
            assert forall|i: int| 0 <= i < tail.len() implies #[trigger] tail[i].start
                <= tail[i].end by {
                assert(rest[i + 1].start <= rest[i + 1].end);
            }
        }
        lemma_scan_strict_container(tail, start, end, f - 1);
        assert(seq![j] + tail =~= rest);
    }
}

/// Containment rejection: a run whose span is strictly contained in an
/// existing stored interval is rejected outright and the stored
/// collection is left unchanged.
pub proof fn lemma_containment_rejection(ivs: Seq<Interval>, run: Run, f: int)
    requires
        ivs_wf(ivs),
        run.start <= run.end,
        0 <= f < ivs.len(),
        ivs[f].start <= run.start,
        run.end <= ivs[f].end,
        ivs[f].start < run.start || run.end < ivs[f].end,
    ensures
        reconcile_spec(ivs, run).1 == Decision::Rejected,
        reconcile_spec(ivs, run).0 == ivs,
{
    lemma_scan_strict_container(ivs, run.start, run.end, f);
}

proof fn lemma_scan_big_survivor(rest: Seq<Interval>, start: u32, end: u32, m: int)
    requires
        ivs_wf(rest),
        start <= end,
        0 <= m < rest.len(),
        rest[m].end - rest[m].start >= end - start,
        !(rest[m].start == start && rest[m].end == end),
    ensures
        scan(rest, start, end).kept.contains(rest[m]),
    decreases rest.len(),
{
    let j = rest[0];
    let tail = rest.drop_first();
    let r = scan(rest, start, end);
    assert(ivs_wf(tail)) by {
        assert forall|i: int, k: int| 0 <= i < k < tail.len() implies #[trigger] tail[i].end
            < #[trigger] tail[k].start by {
            assert(rest[i + 1].end < rest[k + 1].start);
        }
        assert forall|i: int| 0 <= i < tail.len() implies #[trigger] tail[i].start
            <= tail[i].end by {
            assert(rest[i + 1].start <= rest[i + 1].end);
        }
    }
    if m == 0 {
        if start > j.end || end < j.start {
            assert(r.kept[0] == j);
        } else if end == start {
            assert(r.kept == rest);
        } else if j.start >= start && j.end <= end {
            // an interval at least as large as the window can only be
            // contained in it when the spans coincide, which is excluded
            assert(false);
        } else if start >= j.start && end <= j.end {
            assert(r.kept == rest);
        } else if j.start <= end <= j.end {
            assert(j.end - j.start >= end - start);
            assert(r.kept[0] == j);
        } else {
            assert(j.end - j.start >= end - start);
            assert(r.kept[0] == j);
        }
    } else {
        assert(tail[m - 1] == rest[m]);
        if start > j.end || end < j.start {
            lemma_scan_big_survivor(tail, start, end, m - 1);
            let rr = scan(tail, start, end);
            let w = choose|w: int| 0 <= w < rr.kept.len() && rr.kept[w] == rest[m];
            assert(r.kept[w + 1] == rest[m]);
        } else if end == start {
            assert(r.kept == rest);
        } else if j.start >= start && j.end <= end {
            lemma_scan_big_survivor(tail, start, end, m - 1);
        } else if start >= j.start && end <= j.end {
            assert(r.kept == rest);
        } else if j.start <= end <= j.end {
            if j.end - j.start >= end - start {
                let e2 = (j.start - 1) as u32;
                // the window shrank strictly, so the excluded span cannot
                // reappear as the new window
                assert(e2 < end);
                lemma_scan_big_survivor(tail, start, e2, m - 1);
                let rr = scan(tail, start, e2);
                let w = choose|w: int| 0 <= w < rr.kept.len() && rr.kept[w] == rest[m];
                assert(r.kept[w + 1] == rest[m]);
            } else {
                lemma_scan_big_survivor(tail, start, end, m - 1);
                let rr = scan(tail, start, end);
                let w = choose|w: int| 0 <= w < rr.kept.len() && rr.kept[w] == rest[m];
                assert(r.kept[w + 1] == rest[m]);
            }
        } else {
            if j.end - j.start >= end - start {
                let s2 = (j.end + 1) as u32;
                assert(s2 > start);
                lemma_scan_big_survivor(tail, s2, end, m - 1);
                let rr = scan(tail, s2, end);
                let w = choose|w: int| 0 <= w < rr.kept.len() && rr.kept[w] == rest[m];
                assert(r.kept[w + 1] == rest[m]);
            } else {
                lemma_scan_big_survivor(tail, start, end, m - 1);
                let rr = scan(tail, start, end);
                let w = choose|w: int| 0 <= w < rr.kept.len() && rr.kept[w] == rest[m];
                assert(r.kept[w + 1] == rest[m]);
            }
        }
    }
}

/// Size tie-break: a stored interval at least as large as the inserted
/// run (ties included) is never shrunk or displaced by it — unless the
/// two spans coincide exactly, it survives the insertion unchanged.
pub proof fn lemma_size_tie_break(ivs: Seq<Interval>, run: Run, m: int)
    requires
        ivs_wf(ivs),
        run.start <= run.end,
        0 <= m < ivs.len(),
        ivs[m].end - ivs[m].start >= run.end - run.start,
        !(ivs[m].start == run.start && ivs[m].end == run.end),
    ensures
        reconcile_spec(ivs, run).0.contains(ivs[m]),
{
    lemma_scan_big_survivor(ivs, run.start, run.end, m);
    let r = scan(ivs, run.start, run.end);
    if !r.rejected {
        lemma_scan_wf(ivs, run.start, run.end);
        lemma_place_sorted(r.kept, Interval { start: r.start, end: r.end, owner: run.owner });
    }
}

proof fn lemma_scan_window_keeps(rest: Seq<Interval>, start: u32, end: u32, a: u32, b: u32)
    requires
        ivs_wf(rest),
        start <= end,
        start <= a <= b <= end,
        forall|k: int| 0 <= k < rest.len() ==> #[trigger] rest[k].end < a || rest[k].start > b,
    ensures
        !scan(rest, start, end).rejected ==> scan(rest, start, end).start <= a && b <= scan(
            rest,
            start,
            end,
        ).end,
    decreases rest.len(),
{
    if rest.len() == 0 {
    } else {
        let j = rest[0];
        let tail = rest.drop_first();
        assert(ivs_wf(tail)) by {
            assert forall|i: int, k: int| 0 <= i < k < tail.len() implies #[trigger] tail[i].end
                < #[trigger] tail[k].start by {
                assert(rest[i + 1].end < rest[k + 1].start);
            }
            assert forall|i: int| 0 <= i < tail.len() implies #[trigger] tail[i].start
                <= tail[i].end by {
                assert(rest[i + 1].start <= rest[i + 1].end);
            }
        }
        assert(forall|k: int| 0 <= k < tail.len() ==> #[trigger] tail[k].end < a
            || tail[k].start > b) by {
            assert forall|k: int| 0 <= k < tail.len() implies #[trigger] tail[k].end < a
                || tail[k].start > b by {
                assert(rest[k + 1].end < a || rest[k + 1].start > b);
            }
        }
        assert(j.end < a || j.start > b);
        if start > j.end || end < j.start {
            lemma_scan_window_keeps(tail, start, end, a, b);
        } else if end == start {
        } else if j.start >= start && j.end <= end {
            lemma_scan_window_keeps(tail, start, end, a, b);
        } else if start >= j.start && end <= j.end {
        } else if j.start <= end <= j.end {
            if j.end - j.start >= end - start {
                // the shrunk right edge stays beyond [a, b], which lies
                // left of the overlapping interval
                assert(j.start > b);
                lemma_scan_window_keeps(tail, start, (j.start - 1) as u32, a, b);
            } else {
                lemma_scan_window_keeps(tail, start, end, a, b);
            }
        } else {
            if j.end - j.start >= end - start {
                assert(j.end < a);
                lemma_scan_window_keeps(tail, (j.end + 1) as u32, end, a, b);
            } else {
                lemma_scan_window_keeps(tail, start, end, a, b);
            }
        }
    }
}

proof fn lemma_scan_contained(rest: Seq<Interval>, start: u32, end: u32, m: int)
    requires
        ivs_wf(rest),
        start <= end,
        0 <= m < rest.len(),
        start <= rest[m].start,
        rest[m].end <= end,
    ensures
        !scan(rest, start, end).rejected ==> scan(rest, start, end).start <= rest[m].start
            && rest[m].end <= scan(rest, start, end).end,
    decreases rest.len(),
{
    let j = rest[0];
    let tail = rest.drop_first();
    assert(ivs_wf(tail)) by {
        assert forall|i: int, k: int| 0 <= i < k < tail.len() implies #[trigger] tail[i].end
            < #[trigger] tail[k].start by {
            assert(rest[i + 1].end < rest[k + 1].start);
        }
        assert forall|i: int| 0 <= i < tail.len() implies #[trigger] tail[i].start
            <= tail[i].end by {
            assert(rest[i + 1].start <= rest[i + 1].end);
        }
    }
    if m == 0 {
        // the contained interval is absorbed and the window, which only
        // ever shrinks past intervals disjoint from it, keeps its span
        assert(!(start > j.end || end < j.start));
        if end == start {
        } else {
            assert(j.start >= start && j.end <= end);
            assert(forall|k: int| 0 <= k < tail.len() ==> #[trigger] tail[k].end < j.start
                || tail[k].start > j.end) by {
                assert forall|k: int| 0 <= k < tail.len() implies #[trigger] tail[k].end < j.start
                    || tail[k].start > j.end by {
                    assert(rest[0].end < rest[k + 1].start);
                }
            }
            lemma_scan_window_keeps(tail, start, end, j.start, j.end);
        }
    } else {
        assert(tail[m - 1] == rest[m]);
        assert(j.end < rest[m].start);
        if start > j.end || end < j.start {
            lemma_scan_contained(tail, start, end, m - 1);
        } else if end == start {
        } else if j.start >= start && j.end <= end {
            lemma_scan_contained(tail, start, end, m - 1);
        } else if start >= j.start && end <= j.end {
        } else if j.start <= end <= j.end {
            // a right-edge overlap would put the overlapping interval
            // beyond the window's end, yet it precedes the contained one
            assert(false);
        } else {
            if j.end - j.start >= end - start {
                lemma_scan_contained(tail, (j.end + 1) as u32, end, m - 1);
            } else {
                lemma_scan_contained(tail, start, end, m - 1);
            }
        }
    }
}

/// Absorption: when a run whose span contains an existing stored interval
/// is committed (not rejected), the committed interval covers the full
/// span of the absorbed one, which is gone from the collection (it can
/// only reappear as the committed interval itself, under the same owner).
pub proof fn lemma_absorption(ivs: Seq<Interval>, run: Run, m: int)
    requires
        ivs_wf(ivs),
        run.start <= run.end,
        0 <= m < ivs.len(),
        run.start <= ivs[m].start,
        ivs[m].end <= run.end,
        run.start < ivs[m].start || ivs[m].end < run.end,
    ensures
        ({
            let (ivs2, d) = reconcile_spec(ivs, run);
            d == Decision::Inserted ==> {
                &&& exists|q: int|
                    0 <= q < ivs2.len() && #[trigger] ivs2[q].owner == run.owner
                        && ivs2[q].start <= ivs[m].start && ivs[m].end <= ivs2[q].end
                &&& ivs[m].owner != run.owner ==> !ivs2.contains(ivs[m])
            }
        }),
{
    lemma_scan_contained(ivs, run.start, run.end, m);
    let r = scan(ivs, run.start, run.end);
    if !r.rejected {
        lemma_scan_wf(ivs, run.start, run.end);
        let iv = Interval { start: r.start, end: r.end, owner: run.owner };
        lemma_place_sorted(r.kept, iv);
        let ivs2 = reconcile_spec(ivs, run).0;
        assert(ivs2.contains(iv));
        let q = choose|q: int| 0 <= q < ivs2.len() && ivs2[q] == iv;
        assert(ivs2[q].owner == run.owner && ivs2[q].start <= ivs[m].start && ivs[m].end
            <= ivs2[q].end);
        if ivs[m].owner != run.owner {
            // the absorbed interval is disjoint from no part of the final
            // window, so it cannot be among the survivors, and it differs
            // from the committed interval by owner
            assert(ivs[m].start <= ivs[m].end);
            if ivs2.contains(ivs[m]) {
                assert(!r.kept.contains(ivs[m]));
                assert(false);
            }
        }
    }
}

/// The globally maintained interval collection.
pub struct Reconciler {
    pub intervals: Vec<Interval>,
}

impl Reconciler {
    /// The stored-collection invariant: sorted ascending by `start`, no
    /// two stored intervals overlap, every span valid.
    pub open spec fn wf(self) -> bool {
        ivs_wf(self.intervals@)
    }

    pub fn new() -> (r: Reconciler)
        ensures
            r.wf(),
            r.intervals@ =~= Seq::<Interval>::empty(),
    {
        Reconciler { intervals: Vec::new() }
    }

    /// Insert one detected run, resolving every collision with the stored
    /// intervals before committing, exactly as `reconcile_spec` states:
    /// contained stored intervals are absorbed, a containing stored
    /// interval rejects the run, and partial edge overlaps go to the
    /// larger span, ties favouring the stored interval. The collection
    /// stays sorted and non-overlapping.
    pub fn insert(&mut self, run: Run) -> (d: Decision)
        requires
            old(self).wf(),
            run.start <= run.end,
        ensures
            final(self).wf(),
            ({
                let (ivs, dd) = reconcile_spec(old(self).intervals@, run);
                final(self).intervals@ == ivs && d == dd
            }),
    {
        let ghost orig = self.intervals@;
        let ghost full = scan(orig, run.start, run.end);
        proof {
            lemma_scan_wf(orig, run.start, run.end);
        }
        let n = self.intervals.len();
        let mut out: Vec<Interval> = Vec::new();
        let mut start = run.start;
        let mut end = run.end;
        let mut i: usize = 0;
        let mut rejected = false;
        proof {
            assert(orig.subrange(0, n as int) =~= orig);
            assert(out@ + full.kept =~= full.kept);
        }
        while !rejected && i < n
            invariant
                self.intervals@ == orig,
                ivs_wf(orig),
                n == orig.len(),
                0 <= i <= n,
                run.start <= start <= end <= run.end,
                !rejected ==> ({
                    let rr = scan(orig.subrange(i as int, n as int), start, end);
                    &&& full.kept == out@ + rr.kept
                    &&& full.start == rr.start
                    &&& full.end == rr.end
                    &&& full.rejected == rr.rejected
                }),
                rejected ==> full.rejected && full.kept == out@ + orig.subrange(
                    i as int,
                    n as int,
                ),
            decreases n - i + (if rejected { 0int } else { 1int }),
        {
            let ghost rem = orig.subrange(i as int, n as int);
            proof {
                assert(rem[0] == orig[i as int]);
                assert(rem.drop_first() =~= orig.subrange(i as int + 1, n as int));
                assert(orig[i as int].start <= orig[i as int].end);
            }
            let j = self.intervals[i];
            if start > j.end || end < j.start {
                // no overlap: keep searching
                out.push(j);
                i = i + 1;
                proof {
                    let rr = scan(orig.subrange(i as int, n as int), start, end);
                    assert(full.kept == out@ + rr.kept) by {
                        assert(scan(rem, start, end).kept =~= seq![j] + rr.kept);
                        assert(out@ + rr.kept =~= full.kept);
                    }
                }
            } else if end == start {
                // the window has collapsed to a single contested point
                rejected = true;
                proof {
                    assert(scan(rem, start, end).kept == rem);
                }
            } else if j.start >= start && j.end <= end {
                // existing interval contained in ours: absorb it
                i = i + 1;
            } else if start >= j.start && end <= j.end {
                // fully contained: the existing interval wins
                rejected = true;
                proof {
                    assert(scan(rem, start, end).kept == rem);
                }
            } else if end >= j.start && end <= j.end {
                // partial overlap on our right edge
                assert(start < j.start && end < j.end);
                if j.end - j.start >= end - start {
                    // the existing interval is as large or larger: it
                    // keeps the contested region and our window shrinks
                    end = j.start - 1;
                    out.push(j);
                } else {
                    // we are larger and steal the contested region
                    out.push(Interval { start: end + 1, end: j.end, owner: j.owner });
                }
                i = i + 1;
                proof {
                    let rr = scan(orig.subrange(i as int, n as int), start, end);
                    assert(full.kept == out@ + rr.kept) by {
                        assert(out@ + rr.kept =~= full.kept);
                    }
                }
            } else {
                // partial overlap on our left edge
                assert(j.start < start && start <= j.end && j.end < end);
                if j.end - j.start >= end - start {
                    start = j.end + 1;
                    out.push(j);
                } else {
                    out.push(Interval { start: j.start, end: start - 1, owner: j.owner });
                }
                i = i + 1;
                proof {
                    let rr = scan(orig.subrange(i as int, n as int), start, end);
                    assert(full.kept == out@ + rr.kept) by {
                        assert(out@ + rr.kept =~= full.kept);
                    }
                }
            }
        }
        if rejected {
            // a rejection keeps every remaining interval; absorptions and
            // shrinks already performed persist
            while i < n
                invariant
                    self.intervals@ == orig,
                    n == orig.len(),
                    0 <= i <= n,
                    full.rejected,
                    full.kept == out@ + orig.subrange(i as int, n as int),
                decreases n - i,
            {
                let j = self.intervals[i];
                out.push(j);
                i = i + 1;
                proof {
                    assert(full.kept =~= out@ + orig.subrange(i as int, n as int));
                }
            }
            proof {
                assert(full.kept =~= out@);
            }
            self.intervals = out;
            Decision::Rejected
        } else {
            proof {
                assert(orig.subrange(i as int, n as int) =~= Seq::<Interval>::empty());
                assert(full.kept =~= out@);
            }
            let iv = Interval { start, end, owner: run.owner };
            proof {
                lemma_place_sorted(out@, iv);
            }
            // commit the remaining window at its sorted position
            let mut p: usize = 0;
            proof {
                assert(out@.subrange(0, out@.len() as int) =~= out@);
                assert(out@.subrange(0, 0) + place_sorted(out@, iv) =~= place_sorted(out@, iv));
            }
            while p < out.len() && out[p].start <= end
                invariant
                    0 <= p <= out@.len(),
                    iv.start == start && iv.end == end && iv.owner == run.owner,
                    place_sorted(out@, iv) == out@.subrange(0, p as int) + place_sorted(
                        out@.subrange(p as int, out@.len() as int),
                        iv,
                    ),
                decreases out@.len() - p,
            {
                proof {
                    let s = out@.subrange(p as int, out@.len() as int);
                    assert(s[0] == out@[p as int]);
                    assert(s.drop_first() =~= out@.subrange(p as int + 1, out@.len() as int));
                    assert(place_sorted(s, iv) == seq![s[0]] + place_sorted(s.drop_first(), iv));
                    assert(out@.subrange(0, p as int) + place_sorted(s, iv) =~= out@.subrange(
                        0,
                        p as int + 1,
                    ) + place_sorted(s.drop_first(), iv));
                }
                p = p + 1;
            }
            proof {
                let s = out@.subrange(p as int, out@.len() as int);
                if p < out@.len() {
                    assert(s[0] == out@[p as int]);
                    assert(place_sorted(s, iv) == seq![iv] + s);
                } else {
                    assert(s =~= Seq::<Interval>::empty());
                }
                assert(place_sorted(out@, iv) =~= out@.insert(p as int, iv));
            }
            out.insert(p, iv);
            self.intervals = out;
            Decision::Inserted
        }
    }
}

} // verus!
