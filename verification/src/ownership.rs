//! The ownership map and the coverage indexer: the authoritative
//! first-claim record of which source owns each declared codepoint.

use vstd::prelude::*;

verus! {

/// One claimed codepoint with the index of the source that owns it.
#[derive(Copy, Clone, PartialEq, Eq, Structural, Debug)]
pub struct Claim {
    pub codepoint: u32,
    pub owner: usize,
}

/// The mathematical content of a claim list: its codepoint-to-owner map.
pub open spec fn map_of(s: Seq<Claim>) -> Map<u32, usize>
    decreases s.len(),
{
    if s.len() == 0 {
        Map::empty()
    } else {
        map_of(s.drop_last()).insert(s.last().codepoint, s.last().owner)
    }
}

/// Claims are unique per codepoint: each codepoint is claimed once.
pub open spec fn claims_unique(s: Seq<Claim>) -> bool {
    forall|i: int, j: int|
        0 <= i < j < s.len() ==> #[trigger] s[i].codepoint != #[trigger] s[j].codepoint
}

/// With unique claims, the map holds exactly the listed claims, and its
/// domain has one key per claim.
proof fn lemma_map_of(s: Seq<Claim>)
    requires
        claims_unique(s),
    ensures
        forall|k: u32|
            #[trigger] map_of(s).contains_key(k) <==> exists|i: int|
                0 <= i < s.len() && #[trigger] s[i].codepoint == k,
        forall|i: int|
            0 <= i < s.len() ==> map_of(s).contains_key(#[trigger] s[i].codepoint) && map_of(
                s,
            )[s[i].codepoint] == s[i].owner,
        map_of(s).dom().finite(),
        map_of(s).dom().len() == s.len(),
    decreases s.len(),
{
    broadcast use vstd::set::group_set_axioms;
    broadcast use vstd::map::group_map_axioms;

    if s.len() == 0 {
    } else {
        let s0 = s.drop_last();
        let e = s.last();
        assert(claims_unique(s0)) by {
            assert forall|i: int, j: int| 0 <= i < j < s0.len() implies #[trigger] s0[i].codepoint
                != #[trigger] s0[j].codepoint by {
                assert(s[i].codepoint != s[j].codepoint);
            }
        }
        lemma_map_of(s0);
        assert(!map_of(s0).contains_key(e.codepoint)) by {
            if map_of(s0).contains_key(e.codepoint) {
                let i = choose|i: int| 0 <= i < s0.len() && #[trigger] s0[i].codepoint
                    == e.codepoint;
                assert(s[i].codepoint != s[s.len() - 1].codepoint);
            }
        }
        assert forall|k: u32| #[trigger] map_of(s).contains_key(k) implies exists|i: int|
            0 <= i < s.len() && #[trigger] s[i].codepoint == k by {
            if k == e.codepoint {
                assert(s[s.len() - 1].codepoint == k);
            } else {
                let i = choose|i: int| 0 <= i < s0.len() && #[trigger] s0[i].codepoint == k;
                assert(s[i].codepoint == k);
            }
        }
        assert forall|k: u32|
            exists|i: int| 0 <= i < s.len() && #[trigger] s[i].codepoint == k implies #[trigger]
        map_of(s).contains_key(k) by {
            let i = choose|i: int| 0 <= i < s.len() && #[trigger] s[i].codepoint == k;
            if i < s.len() - 1 {
                assert(s0[i].codepoint == k);
            }
        }
        assert forall|i: int| 0 <= i < s.len() implies map_of(s).contains_key(
            #[trigger] s[i].codepoint,
        ) && map_of(s)[s[i].codepoint] == s[i].owner by {
            if i < s.len() - 1 {
                assert(s0[i].codepoint == s[i].codepoint && s0[i].owner == s[i].owner);
                assert(s[i].codepoint != e.codepoint);
            }
        }
    }
}

/// The first-claim ownership map: each declared codepoint is owned by
/// the first source (in priority order) that declared it.
pub struct OwnershipMap {
    pub claims: Vec<Claim>,
}

impl View for OwnershipMap {
    type V = Map<u32, usize>;

    open spec fn view(&self) -> Map<u32, usize> {
        map_of(self.claims@)
    }
}

impl OwnershipMap {
    /// Internal invariant: one claim per codepoint.
    pub open spec fn wf(self) -> bool {
        claims_unique(self.claims@)
    }

    pub fn new() -> (r: OwnershipMap)
        ensures
            r.wf(),
            r@ =~= Map::<u32, usize>::empty(),
    {
        OwnershipMap { claims: Vec::new() }
    }

    /// The owner of a codepoint, or `None` for one never declared.
    pub fn lookup(&self, codepoint: u32) -> (r: Option<usize>)
        requires
            self.wf(),
        ensures
            r == if self@.contains_key(codepoint) {
                Some(self@[codepoint])
            } else {
                None::<usize>
            },
    {
        proof {
            lemma_map_of(self.claims@);
        }
        let n = self.claims.len();
        let mut i: usize = 0;
        while i < n
            invariant
                0 <= i <= n,
                n == self.claims@.len(),
                self.wf(),
                forall|t: int| 0 <= t < i ==> #[trigger] self.claims@[t].codepoint != codepoint,
            decreases n - i,
        {
            let c = self.claims[i];
            if c.codepoint == codepoint {
                proof {
                    lemma_map_of(self.claims@);
                }
                return Some(c.owner);
            }
            i = i + 1;
        }
        proof {
            lemma_map_of(self.claims@);
            if self@.contains_key(codepoint) {
                let t = choose|t: int|
                    0 <= t < self.claims@.len() && #[trigger] self.claims@[t].codepoint
                        == codepoint;
                assert(false);
            }
        }
        None
    }

    /// Record a claim: if the codepoint is not yet present, insert it
    /// with the given owner; an existing claim is never overwritten
    /// (first writer wins).
    pub fn claim(&mut self, codepoint: u32, owner: usize)
        requires
            old(self).wf(),
        ensures
            final(self).wf(),
            final(self)@ == if old(self)@.contains_key(codepoint) {
                old(self)@
            } else {
                old(self)@.insert(codepoint, owner)
            },
    {
        proof {
            lemma_map_of(self.claims@);
        }
        let n = self.claims.len();
        let mut i: usize = 0;
        while i < n
            invariant
                0 <= i <= n,
                n == self.claims@.len(),
                self.wf(),
                self@ == old(self)@,
                self.claims@ == old(self).claims@,
                forall|t: int| 0 <= t < i ==> #[trigger] self.claims@[t].codepoint != codepoint,
            decreases n - i,
        {
            let c = self.claims[i];
            if c.codepoint == codepoint {
                proof {
                    lemma_map_of(self.claims@);
                }
                return ;
            }
            i = i + 1;
        }
        proof {
            lemma_map_of(self.claims@);
            if self@.contains_key(codepoint) {
                let t = choose|t: int|
                    0 <= t < self.claims@.len() && #[trigger] self.claims@[t].codepoint
                        == codepoint;
                assert(false);
            }
        }
        let ghost before = self.claims@;
        self.claims.push(Claim { codepoint, owner });
        proof {
            assert(self.claims@.drop_last() =~= before);
            assert forall|i2: int, j2: int| 0 <= i2 < j2 < self.claims@.len() implies
                #[trigger] self.claims@[i2].codepoint != #[trigger] self.claims@[j2].codepoint by {
                if j2 < self.claims@.len() - 1 {
                    assert(before[i2].codepoint != before[j2].codepoint);
                }
            }
        }
    }

    /// How many distinct codepoints have been claimed.
    pub fn len(&self) -> (r: usize)
        requires
            self.wf(),
        ensures
            r == self@.dom().len(),
    {
        proof {
            lemma_map_of(self.claims@);
        }
        self.claims.len()
    }

    /// The claimed codepoints, one entry each, in claim order.
    pub fn codepoints(&self) -> (r: Vec<u32>)
        requires
            self.wf(),
        ensures
            r@.len() == self.claims@.len(),
            forall|t: int| 0 <= t < r@.len() ==> #[trigger] r@[t] == self.claims@[t].codepoint,
            r@.no_duplicates(),
            forall|k: u32| #[trigger] r@.contains(k) <==> self@.contains_key(k),
    {
        proof {
            lemma_map_of(self.claims@);
        }
        let n = self.claims.len();
        let mut r: Vec<u32> = Vec::new();
        let mut i: usize = 0;
        while i < n
            invariant
                0 <= i <= n,
                n == self.claims@.len(),
                self.wf(),
                r@.len() == i,
                forall|t: int| 0 <= t < i ==> #[trigger] r@[t] == self.claims@[t].codepoint,
            decreases n - i,
        {
            r.push(self.claims[i].codepoint);
            i = i + 1;
        }
        proof {
            lemma_map_of(self.claims@);
            assert forall|i2: int, j2: int| 0 <= i2 < j2 < r@.len() implies r@[i2] != r@[j2] by {
                assert(self.claims@[i2].codepoint != self.claims@[j2].codepoint);
            }
            assert forall|k: u32| #[trigger] r@.contains(k) implies self@.contains_key(k) by {
                let t = choose|t: int| 0 <= t < r@.len() && r@[t] == k;
                assert(self.claims@[t].codepoint == k);
            }
            assert forall|k: u32| self@.contains_key(k) implies #[trigger] r@.contains(k) by {
                let t = choose|t: int|
                    0 <= t < self.claims@.len() && #[trigger] self.claims@[t].codepoint == k;
                assert(r@[t] == k);
            }
        }
        r
    }
}

/// Does any source with index below `i` declare this codepoint?
pub open spec fn declared_before(sources: Seq<Seq<u32>>, cp: u32, i: int) -> bool {
    exists|j: int| 0 <= j < i && #[trigger] sources[j].contains(cp)
}

/// The coverage indexer: scan the sources in ascending priority order
/// and give every declared codepoint to the first source that declares
/// it. Ownership is independent of interval reconciliation: for a
/// codepoint declared by several sources, the map always holds the
/// lowest source index, whatever the interval set says.
pub fn index_sources(sources: &Vec<Vec<u32>>) -> (r: OwnershipMap)
    ensures
        r.wf(),
        forall|cp: u32|
            #[trigger] r@.contains_key(cp) <==> declared_before(
                sources.deep_view(),
                cp,
                sources.deep_view().len() as int,
            ),
        forall|cp: u32|
            #[trigger] r@.contains_key(cp) ==> r@[cp] < sources.deep_view().len()
                && sources.deep_view()[r@[cp] as int].contains(cp) && !declared_before(
                sources.deep_view(),
                cp,
                r@[cp] as int,
            ),
{
    let ghost dv = sources.deep_view();
    let mut r = OwnershipMap::new();
    let ns = sources.len();
    let mut i: usize = 0;
    proof {
        assert(dv.len() == sources@.len());
    }
    while i < ns
        invariant
            0 <= i <= ns,
            ns == dv.len(),
            dv == sources.deep_view(),
            r.wf(),
            forall|cp: u32| #[trigger] r@.contains_key(cp) <==> declared_before(dv, cp, i as int),
            forall|cp: u32|
                #[trigger] r@.contains_key(cp) ==> r@[cp] < i && dv[r@[cp] as int].contains(cp)
                    && !declared_before(dv, cp, r@[cp] as int),
        decreases ns - i,
    {
        let src = &sources[i];
        let nc = src.len();
        proof {
            assert(dv[i as int] == src@);
        }
        let mut k: usize = 0;
        while k < nc
            invariant
                0 <= k <= nc,
                0 <= i < ns,
                ns == dv.len(),
                dv == sources.deep_view(),
                nc == dv[i as int].len(),
                src@ == dv[i as int],
                sources@[i as int]@ == dv[i as int],
                r.wf(),
                forall|cp: u32|
                    #[trigger] r@.contains_key(cp) <==> declared_before(dv, cp, i as int)
                        || dv[i as int].take(k as int).contains(cp),
                forall|cp: u32|
                    #[trigger] r@.contains_key(cp) ==> r@[cp] <= i && dv[r@[cp] as int].contains(
                        cp,
                    ) && !declared_before(dv, cp, r@[cp] as int),
            decreases nc - k,
        {
            let cp = sources[i][k];
            proof {
                assert(dv[i as int][k as int] == cp);
            }
            let ghost rold = r@;
            r.claim(cp, i);
            proof {
                assert(dv[i as int].take(k as int + 1).drop_last() =~= dv[i as int].take(
                    k as int,
                ));
                assert(dv[i as int].take(k as int + 1).last() == cp);
                assert forall|c2: u32| #[trigger] r@.contains_key(c2) implies declared_before(
                    dv,
                    c2,
                    i as int,
                ) || dv[i as int].take(k as int + 1).contains(c2) by {
                    if c2 != cp {
                        assert(rold.contains_key(c2));
                        if dv[i as int].take(k as int).contains(c2) {
                            let t = choose|t: int|
                                0 <= t < k && dv[i as int].take(k as int)[t] == c2;
                            assert(dv[i as int].take(k as int + 1)[t] == c2);
                        }
                    } else {
                        assert(dv[i as int].take(k as int + 1).last() == cp);
                    }
                }
                assert forall|c2: u32|
                    declared_before(dv, c2, i as int) || dv[i as int].take(k as int + 1).contains(
                        c2,
                    ) implies #[trigger] r@.contains_key(c2) by {
                    if declared_before(dv, c2, i as int) {
                        assert(rold.contains_key(c2));
                    } else {
                        let t = choose|t: int|
                            0 <= t < k + 1 && #[trigger] dv[i as int].take(k as int + 1)[t]
                                == c2;
                        if t < k {
                            assert(dv[i as int].take(k as int)[t] == c2);
                            assert(rold.contains_key(c2));
                        }
                    }
                }
                assert forall|c2: u32| #[trigger] r@.contains_key(c2) implies r@[c2] <= i
                    && dv[r@[c2] as int].contains(c2) && !declared_before(dv, c2, r@[c2] as int) by {
                    if rold.contains_key(c2) {
                        assert(r@[c2] == rold[c2]);
                    } else {
                        assert(c2 == cp);
                        assert(r@[c2] == i);
                        assert(dv[i as int][k as int] == cp);
                        assert(dv[i as int].contains(cp));
                        assert(!declared_before(dv, cp, i as int));
                    }
                }
            }
            k = k + 1;
        }
        proof {
            assert(dv[i as int].take(nc as int) =~= dv[i as int]);
            assert forall|cp: u32| #[trigger] r@.contains_key(cp) implies declared_before(
                dv,
                cp,
                i as int + 1,
            ) by {
                if declared_before(dv, cp, i as int) {
                    let j = choose|j: int| 0 <= j < i && #[trigger] dv[j].contains(cp);
                    assert(dv[j].contains(cp));
                } else {
                    assert(dv[i as int].contains(cp));
                }
            }
            assert forall|cp: u32| declared_before(dv, cp, i as int + 1) implies
                #[trigger] r@.contains_key(cp) by {
                let j = choose|j: int| 0 <= j < i + 1 && #[trigger] dv[j].contains(cp);
                if j < i {
                    assert(declared_before(dv, cp, i as int));
                } else {
                    assert(dv[i as int].contains(cp));
                }
            }
        }
        i = i + 1;
    }
    r
}

} // verus!
