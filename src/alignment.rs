use crate::genome::{genome_wf, has_innov, FeedForwardGenome, GenomeView};
use vstd::prelude::*;

verus! {

/// A gene present in both genomes, with its weight (bit pattern) in each.
#[derive(Clone, Copy, Debug, PartialEq, Eq, Structural)]
pub struct MatchedPair {
    pub innov: u32,
    pub lhs_weight: u32,
    pub rhs_weight: u32,
}

/// How the genes of two genomes line up by innovation: the counts of
/// disjoint and excess genes on each side, the matching genes in increasing
/// order of innovation, and the size of the larger genome.
#[derive(Debug)]
pub struct Alignment {
    pub lhs_excess: usize,
    pub rhs_excess: usize,
    pub lhs_disjoint: usize,
    pub rhs_disjoint: usize,
    pub matching: Vec<MatchedPair>,
    pub size: usize,
}

/// Why genomes could not be compared.
#[derive(Clone, Copy, Debug, PartialEq, Eq, Structural)]
pub enum CompareError {
    /// A genome's fitness has not been set.
    FitnessUnset,
}

/// Some gene of `b` has an innovation above `x`.
pub open spec fn has_later(b: GenomeView, x: u32) -> bool {
    exists|d: int| 0 <= d < b.conns.len() && #[trigger] b.conns[d].innov > x
}

/// The gene of `a` at index `c` is absent from `b`, and lies beyond every
/// gene of `b` (excess) or within their range (disjoint).
pub open spec fn unmatched_as(a: GenomeView, b: GenomeView, c: int, excess: bool) -> bool {
    &&& !has_innov(b, a.conns[c].innov)
    &&& has_later(b, a.conns[c].innov) != excess
}

/// How many of the first `n` genes of `a` are excess (or disjoint) with
/// respect to `b`.
pub open spec fn count_unmatched(a: GenomeView, b: GenomeView, n: int, excess: bool) -> nat
    decreases n,
{
    if n <= 0 {
        0
    } else {
        count_unmatched(a, b, n - 1, excess) + if unmatched_as(a, b, n - 1, excess) {
            1nat
        } else {
            0nat
        }
    }
}

/// `e` records a gene of `a` and a gene of `b` with the same innovation.
pub open spec fn is_match(a: GenomeView, b: GenomeView, e: MatchedPair) -> bool {
    &&& exists|c: int|
        0 <= c < a.conns.len() && #[trigger] a.conns[c].innov == e.innov && a.conns[c].weight
            == e.lhs_weight
    &&& exists|d: int|
        0 <= d < b.conns.len() && #[trigger] b.conns[d].innov == e.innov && b.conns[d].weight
            == e.rhs_weight
}

/// The entries of `s` have strictly increasing innovations.
pub open spec fn increasing(s: Seq<MatchedPair>) -> bool {
    forall|i: int, j: int| 0 <= i < j < s.len() ==> (#[trigger] s[i]).innov < (#[trigger] s[j]).innov
}

pub open spec fn swapped(e: MatchedPair) -> MatchedPair {
    MatchedPair { innov: e.innov, lhs_weight: e.rhs_weight, rhs_weight: e.lhs_weight }
}

/// `r` is the alignment of `a` against `b`.
pub open spec fn aligned(a: GenomeView, b: GenomeView, r: Alignment) -> bool {
    &&& r.lhs_excess == count_unmatched(a, b, a.conns.len() as int, true)
    &&& r.rhs_excess == count_unmatched(b, a, b.conns.len() as int, true)
    &&& r.lhs_disjoint == count_unmatched(a, b, a.conns.len() as int, false)
    &&& r.rhs_disjoint == count_unmatched(b, a, b.conns.len() as int, false)
    &&& r.size == if a.conns.len() >= b.conns.len() {
        a.conns.len()
    } else {
        b.conns.len()
    }
    &&& increasing(r.matching@)
    &&& forall|e: MatchedPair| r.matching@.contains(e) <==> is_match(a, b, e)
}

/// Two sequences with strictly increasing innovations and the same entries
/// are equal.
proof fn lemma_increasing_unique(s1: Seq<MatchedPair>, s2: Seq<MatchedPair>)
    requires
        increasing(s1),
        increasing(s2),
        forall|e: MatchedPair| s1.contains(e) <==> s2.contains(e),
    ensures
        s1 == s2,
    decreases s1.len(),
{
    if s1.len() == 0 {
        if s2.len() > 0 {
            assert(s2.contains(s2[0]));
        }
        assert(s1 =~= s2);
    } else {
        assert(s1.contains(s1[0]));
        let j = choose|j: int| 0 <= j < s2.len() && s2[j] == s1[0];
        assert(s2.contains(s2[0]));
        let i = choose|i: int| 0 <= i < s1.len() && s1[i] == s2[0];
        if j > 0 {
            assert(s2[0].innov < s2[j].innov);
            if i > 0 {
                assert(s1[0].innov < s1[i].innov);
            }
        }
        assert(s1[0] == s2[0]);
        let t1 = s1.subrange(1, s1.len() as int);
        let t2 = s2.subrange(1, s2.len() as int);
        assert forall|e: MatchedPair| t1.contains(e) <==> t2.contains(e) by {
            if t1.contains(e) {
                let k = choose|k: int| 0 <= k < t1.len() && t1[k] == e;
                assert(s1[k + 1] == e);
                assert(s1[0].innov < s1[k + 1].innov);
                assert(s1.contains(e));
                let m = choose|m: int| 0 <= m < s2.len() && s2[m] == e;
                assert(m != 0);
                assert(t2[m - 1] == e);
            }
            if t2.contains(e) {
                let k = choose|k: int| 0 <= k < t2.len() && t2[k] == e;
                assert(s2[k + 1] == e);
                assert(s2[0].innov < s2[k + 1].innov);
                assert(s2.contains(e));
                let m = choose|m: int| 0 <= m < s1.len() && s1[m] == e;
                assert(m != 0);
                assert(t1[m - 1] == e);
            }
        }
        lemma_increasing_unique(t1, t2);
        assert(s1 =~= seq![s1[0]] + t1);
        assert(s2 =~= seq![s2[0]] + t2);
    }
}

/// Alignment is symmetric: aligning `b` against `a` gives the same counts
/// with the sides exchanged, the same size, and the same matching genes in
/// the same order with their weights exchanged. So any distance computed
/// from it the same way on both sides is symmetric.
pub proof fn lemma_alignment_symmetric(
    a: GenomeView,
    b: GenomeView,
    r1: Alignment,
    r2: Alignment,
)
    requires
        aligned(a, b, r1),
        aligned(b, a, r2),
    ensures
        r2.lhs_excess == r1.rhs_excess,
        r2.rhs_excess == r1.lhs_excess,
        r2.lhs_disjoint == r1.rhs_disjoint,
        r2.rhs_disjoint == r1.lhs_disjoint,
        r2.size == r1.size,
        r2.matching@ == r1.matching@.map_values(|e: MatchedPair| swapped(e)),
{
    let s = r1.matching@.map_values(|e: MatchedPair| swapped(e));
    assert forall|e: MatchedPair| s.contains(e) <==> r2.matching@.contains(e) by {
        if s.contains(e) {
            let k = choose|k: int| 0 <= k < s.len() && s[k] == e;
            assert(r1.matching@.contains(r1.matching@[k]));
            assert(is_match(a, b, r1.matching@[k]));
            assert(is_match(b, a, e));
        }
        if r2.matching@.contains(e) {
            assert(is_match(b, a, e));
            assert(is_match(a, b, swapped(e)));
            assert(r1.matching@.contains(swapped(e)));
            let k = choose|k: int| 0 <= k < r1.matching@.len() && r1.matching@[k] == swapped(e);
            assert(s[k] == e);
        }
    }
    lemma_increasing_unique(s, r2.matching@);
}

/// `e` records a gene among the first `n` of `a` and a gene of `b` with the
/// same innovation.
pub open spec fn is_match_upto(a: GenomeView, b: GenomeView, e: MatchedPair, n: int) -> bool {
    &&& exists|c: int|
        0 <= c < n && #[trigger] a.conns[c].innov == e.innov && a.conns[c].weight == e.lhs_weight
    &&& exists|d: int|
        0 <= d < b.conns.len() && #[trigger] b.conns[d].innov == e.innov && b.conns[d].weight
            == e.rhs_weight
}

impl FeedForwardGenome {
    /// Lines up the genes of two evaluated genomes by innovation, as the
    /// compatibility distance needs them. A gene of one genome that the
    /// other lacks is excess when its innovation lies above every innovation
    /// of the other genome, disjoint otherwise. Fails when either fitness is
    /// unset.
    pub fn align(lhs: &Self, rhs: &Self) -> (r: Result<Alignment, CompareError>)
        requires
            lhs.wf(),
            rhs.wf(),
        ensures
            r is Err <==> lhs@.fitness.is_none() || rhs@.fitness.is_none(),
            r matches Ok(al) ==> aligned(lhs@, rhs@, al),
    {
        if lhs.fitness().is_none() || rhs.fitness().is_none() {
            return Err(CompareError::FitnessUnset);
        }
        let size = if lhs.conn_count() >= rhs.conn_count() {
            lhs.conn_count()
        } else {
            rhs.conn_count()
        };
        Ok(
            Alignment {
                lhs_excess: Self::count_unmatched(lhs, rhs, true),
                rhs_excess: Self::count_unmatched(rhs, lhs, true),
                lhs_disjoint: Self::count_unmatched(lhs, rhs, false),
                rhs_disjoint: Self::count_unmatched(rhs, lhs, false),
                matching: Self::matching(lhs, rhs),
                size,
            },
        )
    }

    /// Whether some gene carries an innovation above `x`.
    fn has_later(&self, x: u32) -> (r: bool)
        ensures
            r == has_later(self@, x),
    {
        let mut d: usize = 0;
        while d < self.conn_count()
            invariant
                d <= self@.conns.len(),
                forall|i: int| 0 <= i < d ==> #[trigger] self@.conns[i].innov <= x,
            decreases self@.conns.len() - d,
        {
            if self.conn(d).innov() > x {
                return true;
            }
            d = d + 1;
        }
        false
    }

    /// How many genes of `a` are excess (or disjoint) with respect to `b`.
    fn count_unmatched(a: &Self, b: &Self, excess: bool) -> (r: usize)
        ensures
            r == count_unmatched(a@, b@, a@.conns.len() as int, excess),
    {
        let mut n: usize = 0;
        let mut c: usize = 0;
        while c < a.conn_count()
            invariant
                c <= a@.conns.len(),
                n == count_unmatched(a@, b@, c as int, excess),
                n <= c,
            decreases a@.conns.len() - c,
        {
            let x = a.conn(c).innov();
            if b.find_innov(x).is_none() && b.has_later(x) != excess {
                n = n + 1;
            }
            c = c + 1;
        }
        n
    }

    /// The genes present in both genomes, in increasing order of innovation.
    fn matching(a: &Self, b: &Self) -> (r: Vec<MatchedPair>)
        requires
            a.wf(),
            b.wf(),
        ensures
            increasing(r@),
            forall|e: MatchedPair| r@.contains(e) <==> is_match(a@, b@, e),
    {
        let ghost ga = a@;
        let ghost gb = b@;
        let mut v: Vec<MatchedPair> = Vec::new();
        let mut c: usize = 0;
        while c < a.conn_count()
            invariant
                ga == a@,
                gb == b@,
                genome_wf(ga),
                genome_wf(gb),
                c <= ga.conns.len(),
                increasing(v@),
                forall|e: MatchedPair| v@.contains(e) <==> is_match_upto(ga, gb, e, c as int),
            decreases ga.conns.len() - c,
        {
            let x = a.conn(c).innov();
            match b.find_innov(x) {
                None => {
                    proof {
                        assert forall|e: MatchedPair|
                            is_match_upto(ga, gb, e, c as int) <==> is_match_upto(
                                ga,
                                gb,
                                e,
                                c + 1,
                            ) by {
                            if is_match_upto(ga, gb, e, c + 1) {
                                let c1 = choose|c1: int|
                                    0 <= c1 < c + 1 && #[trigger] ga.conns[c1].innov == e.innov
                                        && ga.conns[c1].weight == e.lhs_weight;
                                let d = choose|d: int|
                                    0 <= d < gb.conns.len() && #[trigger] gb.conns[d].innov
                                        == e.innov && gb.conns[d].weight == e.rhs_weight;
                                assert(c1 != c);
                            }
                        }
                    }
                },
                Some(d) => {
                    let e = MatchedPair {
                        innov: x,
                        lhs_weight: a.conn(c).weight(),
                        rhs_weight: b.conn(d).weight(),
                    };
                    proof {
                        assert forall|i: int| 0 <= i < v@.len() implies #[trigger] v@[i].innov != x by {
                            assert(v@.contains(v@[i]));
                            let c1 = choose|c1: int|
                                0 <= c1 < c && #[trigger] ga.conns[c1].innov == v@[i].innov
                                    && ga.conns[c1].weight == v@[i].lhs_weight;
                            assert(ga.conns[c1].innov != ga.conns[c as int].innov);
                        }
                    }
                    let mut p: usize = 0;
                    while p < v.len() && v[p].innov < x
                        invariant
                            p <= v@.len(),
                            forall|i: int| 0 <= i < p ==> (#[trigger] v@[i]).innov < x,
                        decreases v@.len() - p,
                    {
                        p = p + 1;
                    }
                    let ghost v0 = v@;
                    v.insert(p, e);
                    proof {
                        assert(v@ == v0.insert(p as int, e));
                        assert forall|i: int| p <= i < v0.len() implies x < (#[trigger] v0[i]).innov by {
                            assert(v0[p as int].innov >= x);
                            assert(v0[p as int].innov != x);
                            if i > p {
                                assert(v0[p as int].innov < v0[i].innov);
                            }
                        }
                        assert forall|i: int, j: int| 0 <= i < j < v@.len() implies (#[trigger] v@[i]).innov
                            < (#[trigger] v@[j]).innov by {
                            if j < p {
                                assert(v@[i] == v0[i] && v@[j] == v0[j]);
                            } else if j == p {
                                assert(v@[i] == v0[i]);
                            } else if i < p {
                                assert(v@[i] == v0[i] && v@[j] == v0[j - 1]);
                            } else if i == p {
                                assert(v@[j] == v0[j - 1]);
                            } else {
                                assert(v@[i] == v0[i - 1] && v@[j] == v0[j - 1]);
                            }
                        }
                        assert forall|f: MatchedPair| v@.contains(f) <==> is_match_upto(
                            ga,
                            gb,
                            f,
                            c + 1,
                        ) by {
                            if v@.contains(f) {
                                let k = choose|k: int| 0 <= k < v@.len() && v@[k] == f;
                                if k < p {
                                    assert(v0[k] == f);
                                    assert(v0.contains(f));
                                } else if k > p {
                                    assert(v0[k - 1] == f);
                                    assert(v0.contains(f));
                                } else {
                                    assert(ga.conns[c as int].innov == f.innov);
                                    assert(gb.conns[d as int].innov == f.innov);
                                }
                            }
                            if is_match_upto(ga, gb, f, c + 1) {
                                let c1 = choose|c1: int|
                                    0 <= c1 < c + 1 && #[trigger] ga.conns[c1].innov == f.innov
                                        && ga.conns[c1].weight == f.lhs_weight;
                                if c1 < c {
                                    assert(is_match_upto(ga, gb, f, c as int));
                                    assert(v0.contains(f));
                                    let k = choose|k: int| 0 <= k < v0.len() && v0[k] == f;
                                    if k < p {
                                        assert(v@[k] == f);
                                    } else {
                                        assert(v@[k + 1] == f);
                                    }
                                } else {
                                    let d1 = choose|d1: int|
                                        0 <= d1 < gb.conns.len() && #[trigger] gb.conns[d1].innov
                                            == f.innov && gb.conns[d1].weight == f.rhs_weight;
                                    assert(d1 == d);
                                    assert(f == e);
                                    assert(v@[p as int] == f);
                                }
                            }
                        }
                    }
                },
            }
            c = c + 1;
        }
        proof {
            assert forall|e: MatchedPair| is_match_upto(ga, gb, e, ga.conns.len() as int) <==> is_match(ga, gb, e) by {
                if is_match(ga, gb, e) {
                    let c1 = choose|c1: int|
                        0 <= c1 < ga.conns.len() && #[trigger] ga.conns[c1].innov == e.innov
                            && ga.conns[c1].weight == e.lhs_weight;
                }
            }
        }
        v
    }
}

} // verus!
