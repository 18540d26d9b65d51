//! The range compactor: merges adjacent stored intervals that share an
//! owner into single wider intervals. A read-side transform only.

use vstd::prelude::*;
use crate::reconcile::Interval;
use crate::reconcile::ivs_wf;

verus! {

/// Two intervals in sequence can be merged when they share an owner and
/// the second starts exactly one past the end of the first.
pub open spec fn mergeable(a: Interval, b: Interval) -> bool {
    a.owner == b.owner && a.end + 1 == b.start
}

/// Compaction: any run of consecutive intervals sharing an owner, each
/// ending exactly one before the next begins, becomes one interval
/// spanning from the first start to the last end.
pub open spec fn compact_spec(s: Seq<Interval>) -> Seq<Interval>
    decreases s.len(),
{
    if s.len() <= 1 {
        s
    } else if mergeable(s[0], s[1]) {
        compact_spec(
            seq![Interval { start: s[0].start, end: s[1].end, owner: s[0].owner }] + s.subrange(
                2,
                s.len() as int,
            ),
        )
    } else {
        seq![s[0]] + compact_spec(s.drop_first())
    }
}

/// Compaction keeps the head's start and owner and never empties a
/// non-empty sequence.
proof fn lemma_compact_head(s: Seq<Interval>)
    requires
        s.len() > 0,
    ensures
        compact_spec(s).len() > 0,
        compact_spec(s)[0].start == s[0].start,
        compact_spec(s)[0].owner == s[0].owner,
    decreases s.len(),
{
    if s.len() <= 1 {
    } else if mergeable(s[0], s[1]) {
        let m = Interval { start: s[0].start, end: s[1].end, owner: s[0].owner };
        lemma_compact_head(seq![m] + s.subrange(2, s.len() as int));
    } else {
        lemma_compact_head(s.drop_first());
    }
}

/// No two consecutive intervals of a compacted sequence are mergeable.
proof fn lemma_compact_no_merge(s: Seq<Interval>)
    ensures
        forall|i: int|
            0 <= i < compact_spec(s).len() - 1 ==> !mergeable(
                #[trigger] compact_spec(s)[i],
                compact_spec(s)[i + 1],
            ),
    decreases s.len(),
{
    if s.len() <= 1 {
    } else if mergeable(s[0], s[1]) {
        let m = Interval { start: s[0].start, end: s[1].end, owner: s[0].owner };
        let s2 = seq![m] + s.subrange(2, s.len() as int);
        lemma_compact_no_merge(s2);
        assert(compact_spec(s) == compact_spec(s2));
        assert forall|i: int| 0 <= i < compact_spec(s).len() - 1 implies !mergeable(
            #[trigger] compact_spec(s)[i],
            compact_spec(s)[i + 1],
        ) by {
            assert(!mergeable(compact_spec(s2)[i], compact_spec(s2)[i + 1]));
        }
    } else {
        let tail = s.drop_first();
        lemma_compact_no_merge(tail);
        lemma_compact_head(tail);
        let c = compact_spec(s);
        let ct = compact_spec(tail);
        assert(c == seq![s[0]] + ct);
        assert forall|i: int| 0 <= i < c.len() - 1 implies !mergeable(
            #[trigger] c[i],
            c[i + 1],
        ) by {
            if i == 0 {
                // the compacted tail starts where the tail started, so
                // the head pair stays unmergeable
                assert(ct[0].start == tail[0].start && ct[0].owner == tail[0].owner);
                assert(!mergeable(s[0], s[1]));
            } else {
                assert(!mergeable(ct[i - 1], ct[i]));
            }
        }
    }
}

/// A sequence without mergeable neighbours is already compact.
proof fn lemma_compact_fixed(s: Seq<Interval>)
    requires
        forall|i: int| 0 <= i < s.len() - 1 ==> !mergeable(#[trigger] s[i], s[i + 1]),
    ensures
        compact_spec(s) == s,
    decreases s.len(),
{
    if s.len() <= 1 {
    } else {
        assert(!mergeable(s[0], s[1]));
        let tail = s.drop_first();
        assert(forall|i: int| 0 <= i < tail.len() - 1 ==> !mergeable(
            #[trigger] tail[i],
            tail[i + 1],
        )) by {
            assert forall|i: int| 0 <= i < tail.len() - 1 implies !mergeable(
                #[trigger] tail[i],
                tail[i + 1],
            ) by {
                assert(!mergeable(s[i + 1], s[i + 2]));
            }
        }
        lemma_compact_fixed(tail);
        assert(seq![s[0]] + tail =~= s);
    }
}

/// Compaction idempotence: running the compactor twice in a row gives
/// the same result as running it once, on any input.
pub proof fn lemma_compact_idempotent(s: Seq<Interval>)
    ensures
        compact_spec(compact_spec(s)) == compact_spec(s),
{
    lemma_compact_no_merge(s);
    lemma_compact_fixed(compact_spec(s));
}

/// Compaction of a well-formed collection is well-formed: merged spans
/// stay valid, sorted and disjoint.
pub proof fn lemma_compact_wf(s: Seq<Interval>)
    requires
        ivs_wf(s),
    ensures
        ivs_wf(compact_spec(s)),
    decreases s.len(),
{
    if s.len() <= 1 {
    } else if mergeable(s[0], s[1]) {
        let m = Interval { start: s[0].start, end: s[1].end, owner: s[0].owner };
        let s2 = seq![m] + s.subrange(2, s.len() as int);
        assert(ivs_wf(s2)) by {
            assert forall|i: int, k: int| 0 <= i < k < s2.len() implies #[trigger] s2[i].end
                < #[trigger] s2[k].start by {
                if i == 0 {
                    assert(s[1].end < s[k + 1].start);
                } else {
                    assert(s[i + 1].end < s[k + 1].start);
                }
            }
            assert forall|i: int| 0 <= i < s2.len() implies #[trigger] s2[i].start
                <= s2[i].end by {
                if i == 0 {
                    assert(s[0].start <= s[0].end);
                    assert(s[1].start <= s[1].end);
                } else {
                    assert(s[i + 1].start <= s[i + 1].end);
                }
            }
        }
        lemma_compact_wf(s2);
    } else {
        let tail = s.drop_first();
        assert(ivs_wf(tail)) by {
            assert forall|i: int, k: int| 0 <= i < k < tail.len() implies #[trigger] tail[i].end
                < #[trigger] tail[k].start by {
                assert(s[i + 1].end < s[k + 1].start);
            }
            assert forall|i: int| 0 <= i < tail.len() implies #[trigger] tail[i].start
                <= tail[i].end by {
                assert(s[i + 1].start <= s[i + 1].end);
            }
        }
        lemma_compact_wf(tail);
        lemma_compact_head(tail);
        let c = compact_spec(s);
        let ct = compact_spec(tail);
        assert(c == seq![s[0]] + ct);
        // the head ends before the compacted tail's first start, which
        // is the tail's first start; sortedness carries the rest
        assert forall|i: int, k: int| 0 <= i < k < c.len() implies #[trigger] c[i].end
            < #[trigger] c[k].start by {
            if i == 0 {
                if k == 1 {
                    assert(ct[0].start == tail[0].start);
                } else {
                    assert(ct[0].end < ct[k - 1].start);
                    assert(ct[0].start <= ct[0].end);
                    assert(ct[0].start == tail[0].start);
                }
            } else {
                assert(ct[i - 1].end < ct[k - 1].start);
            }
        }
        assert forall|i: int| 0 <= i < c.len() implies #[trigger] c[i].start <= c[i].end by {
            if i > 0 {
                assert(ct[i - 1].start <= ct[i - 1].end);
            }
        }
    }
}

/// Produce the compacted form of a sorted interval collection. Purely a
/// read-side transform; the input is not mutated.
pub fn compact(intervals: &Vec<Interval>) -> (r: Vec<Interval>)
    ensures
        r@ == compact_spec(intervals@),
{
    let n = intervals.len();
    let mut r: Vec<Interval> = Vec::new();
    if n == 0 {
        return r;
    }
    let mut cur = intervals[0];
    let mut i: usize = 1;
    proof {
        assert(seq![cur] + intervals@.subrange(1, n as int) =~= intervals@);
    }
    while i < n
        invariant
            1 <= i <= n,
            n == intervals@.len(),
            compact_spec(intervals@) == r@ + compact_spec(
                seq![cur] + intervals@.subrange(i as int, n as int),
            ),
        decreases n - i,
    {
        let ghost rem = seq![cur] + intervals@.subrange(i as int, n as int);
        proof {
            assert(rem[0] == cur);
            assert(rem[1] == intervals@[i as int]);
        }
        let x = intervals[i];
        if cur.owner == x.owner && cur.end < u32::MAX && cur.end + 1 == x.start {
            let merged = Interval { start: cur.start, end: x.end, owner: cur.owner };
            proof {
                assert(rem.subrange(2, rem.len() as int) =~= intervals@.subrange(
                    i as int + 1,
                    n as int,
                ));
                assert(seq![merged] + rem.subrange(2, rem.len() as int) =~= seq![merged]
                    + intervals@.subrange(i as int + 1, n as int));
            }
            cur = merged;
        } else {
            proof {
                assert(!mergeable(rem[0], rem[1]));
                assert(rem.drop_first() =~= seq![x] + intervals@.subrange(
                    i as int + 1,
                    n as int,
                ));
                assert(r@ + (seq![cur] + compact_spec(rem.drop_first())) =~= (r@ + seq![cur])
                    + compact_spec(rem.drop_first()));
            }
            r.push(cur);
            cur = x;
        }
        i = i + 1;
    }
    proof {
        assert(intervals@.subrange(n as int, n as int) =~= Seq::<Interval>::empty());
        assert(compact_spec(seq![cur]) == seq![cur]);
        assert(r@ + seq![cur] =~= compact_spec(intervals@));
    }
    r.push(cur);
    r
}

} // verus!
