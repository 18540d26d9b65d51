//! The run detector: groups one source's codepoint sequence into
//! contiguous runs (closed integer intervals).

use vstd::prelude::*;
use crate::reconcile::Run;

verus! {

/// The runs of the sequence `s` continuing an open run `[start, prev]`:
/// a codepoint exactly one above the immediately preceding codepoint
/// extends the open run; any other codepoint (a gap, a duplicate, or a
/// drop back) closes it as `[start, prev]` and opens a new run of its
/// own. The final open run is emitted when the sequence ends.
pub open spec fn runs_from(s: Seq<u32>, start: u32, prev: u32, owner: usize) -> Seq<Run>
    decreases s.len(),
{
    if s.len() == 0 {
        seq![Run { start, end: prev, owner }]
    } else if s[0] == prev + 1 {
        runs_from(s.drop_first(), start, s[0], owner)
    } else {
        seq![Run { start, end: prev, owner }] + runs_from(s.drop_first(), s[0], s[0], owner)
    }
}

/// The contiguous runs of a whole codepoint sequence, each owned by the
/// source with index `owner`. A run of length one is valid.
pub open spec fn runs_spec(s: Seq<u32>, owner: usize) -> Seq<Run> {
    if s.len() == 0 {
        Seq::empty()
    } else {
        runs_from(s.drop_first(), s[0], s[0], owner)
    }
}

/// Detect the contiguous runs of one source's codepoint sequence. The
/// gap test is against the immediately preceding codepoint, never the
/// run's start; a non-ascending codepoint simply starts a new run.
/// Every returned run is a valid span tagged with `owner`.
pub fn detect_runs(codepoints: &Vec<u32>, owner: usize) -> (r: Vec<Run>)
    ensures
        r@ == runs_spec(codepoints@, owner),
        forall|k: int|
            0 <= k < r@.len() ==> #[trigger] r@[k].start <= r@[k].end && r@[k].owner == owner,
{
    let n = codepoints.len();
    let mut r: Vec<Run> = Vec::new();
    if n == 0 {
        return r;
    }
    let mut from = codepoints[0];
    let mut last = codepoints[0];
    let mut i: usize = 1;
    proof {
        assert(codepoints@.subrange(1, n as int) =~= codepoints@.drop_first());
    }
    while i < n
        invariant
            1 <= i <= n,
            n == codepoints@.len(),
            from <= last,
            runs_spec(codepoints@, owner) == r@ + runs_from(
                codepoints@.subrange(i as int, n as int),
                from,
                last,
                owner,
            ),
            forall|k: int|
                0 <= k < r@.len() ==> #[trigger] r@[k].start <= r@[k].end && r@[k].owner == owner,
        decreases n - i,
    {
        let ghost rem = codepoints@.subrange(i as int, n as int);
        proof {
            assert(rem[0] == codepoints@[i as int]);
            assert(rem.drop_first() =~= codepoints@.subrange(i as int + 1, n as int));
        }
        let cp = codepoints[i];
        if last < u32::MAX && cp == last + 1 {
            last = cp;
        } else {
            r.push(Run { start: from, end: last, owner });
            from = cp;
            last = cp;
            proof {
                let rr = runs_from(codepoints@.subrange(i as int + 1, n as int), cp, cp, owner);
                assert(r@ + rr =~= runs_spec(codepoints@, owner));
            }
        }
        i = i + 1;
    }
    proof {
        assert(codepoints@.subrange(n as int, n as int) =~= Seq::<u32>::empty());
        assert(r@ + seq![Run { start: from, end: last, owner }] =~= runs_spec(
            codepoints@,
            owner,
        ));
    }
    r.push(Run { start: from, end: last, owner });
    r
}

} // verus!
