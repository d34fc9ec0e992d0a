use crate::genes::NodeKind;
use crate::genome::{
    conn_fits, genome_wf, has_innov, has_pair, FeedForwardGenome, GenomeView,
};
use crate::random::gen_ratio;
use rand::rngs::StdRng;
use vstd::prelude::*;

verus! {

/// Which parent is fitter, as the caller's comparison of their fitness
/// values found.
#[derive(Clone, Copy, Debug, PartialEq, Eq, Structural)]
pub enum Fitter {
    Lhs,
    Rhs,
    Equal,
}

/// Why two genomes could not be crossed.
#[derive(Clone, Copy, Debug, PartialEq, Eq, Structural)]
pub enum CrossoverError {
    /// A parent's fitness has not been set.
    FitnessUnset,
    /// The parents differ in input or output arity.
    ArityMismatch,
    /// The parents disagree on a historical marking: one innovation names
    /// two different node pairs, or one node pair carries two innovations.
    Inconsistent,
    /// The parents are too large for an offspring to be indexed.
    Full,
}

/// A connection gene named by the identities of its endpoints rather than
/// by their indices, so that genes of different genomes can be compared.
pub ghost struct GeneView {
    pub in_id: u32,
    pub out_id: u32,
    pub weight: u32,
    pub enabled: bool,
    pub innov: u32,
}

pub open spec fn gene_of(g: GenomeView, c: int) -> GeneView {
    GeneView {
        in_id: g.nodes[g.conns[c].in_node as int].id,
        out_id: g.nodes[g.conns[c].out_node as int].id,
        weight: g.conns[c].weight,
        enabled: g.conns[c].enabled,
        innov: g.conns[c].innov,
    }
}

pub open spec fn has_gene(g: GenomeView, x: GeneView) -> bool {
    exists|c: int| 0 <= c < g.conns.len() && #[trigger] gene_of(g, c) == x
}

/// Genes of `a` and `b` share an innovation exactly when they join the same
/// pair of node identities.
pub open spec fn consistent(a: GenomeView, b: GenomeView) -> bool {
    forall|c: int, d: int|
        0 <= c < a.conns.len() && 0 <= d < b.conns.len() ==> ((#[trigger] a.conns[c]).innov
            == (#[trigger] b.conns[d]).innov <==> (gene_of(a, c).in_id == gene_of(b, d).in_id
            && gene_of(a, c).out_id == gene_of(b, d).out_id))
}

/// The parents are too large for an offspring to be indexed.
pub open spec fn too_large(a: GenomeView, b: GenomeView) -> bool {
    a.conns.len() > usize::MAX / 8 || b.conns.len() > usize::MAX / 8 || a.input_len
        + a.output_len > usize::MAX / 4
}

/// `child` is an offspring of `a` and `b` with the given fitter parent:
/// it has the parents' arity and no fitness; each of its genes is a gene of
/// one parent; every gene that both parents hold is inherited (in one
/// parent's version); and the other genes come from the fitter parent only,
/// or, when neither is fitter, from either.
pub open spec fn offspring_of(a: GenomeView, b: GenomeView, fitter: Fitter, child: GenomeView) -> bool {
    &&& genome_wf(child)
    &&& child.input_len == a.input_len
    &&& child.output_len == a.output_len
    &&& child.fitness.is_none()
    &&& forall|k: int|
        0 <= k < child.conns.len() ==> has_gene(a, #[trigger] gene_of(child, k)) || has_gene(
            b,
            gene_of(child, k),
        )
    &&& forall|x: u32| #[trigger] has_innov(a, x) && has_innov(b, x) ==> has_innov(child, x)
    &&& fitter == Fitter::Lhs ==> forall|x: u32| #[trigger] has_innov(child, x) <==> has_innov(a, x)
    &&& fitter == Fitter::Rhs ==> forall|x: u32| #[trigger] has_innov(child, x) <==> has_innov(b, x)
}

/// Genes of one well-formed genome share an innovation exactly when they
/// are the same gene, and then they join the same node identities.
proof fn lemma_self_consistent(g: GenomeView)
    requires
        genome_wf(g),
    ensures
        consistent(g, g),
{
    assert forall|c: int, d: int|
        0 <= c < g.conns.len() && 0 <= d < g.conns.len() implies ((#[trigger] g.conns[c]).innov
        == (#[trigger] g.conns[d]).innov <==> (gene_of(g, c).in_id == gene_of(g, d).in_id
        && gene_of(g, c).out_id == gene_of(g, d).out_id)) by {
        if c != d {
            assert(conn_fits(g, g.conns[c]));
            assert(conn_fits(g, g.conns[d]));
            if g.conns[c].in_node != g.conns[d].in_node {
                assert(g.nodes[g.conns[c].in_node as int].id != g.nodes[g.conns[d].in_node as int].id);
            } else {
                assert(g.conns[c].out_node != g.conns[d].out_node);
                assert(g.nodes[g.conns[c].out_node as int].id != g.nodes[g.conns[d].out_node as int].id);
            }
        }
    }
}

/// Crossing a genome with itself gives back its genes: every gene is
/// matching, and a genome holds one gene per innovation.
pub proof fn lemma_self_crossover(a: GenomeView, fitter: Fitter, child: GenomeView)
    requires
        genome_wf(a),
        offspring_of(a, a, fitter, child),
    ensures
        forall|x: GeneView| #[trigger] has_gene(child, x) <==> has_gene(a, x),
{
    assert forall|x: GeneView| #[trigger] has_gene(child, x) <==> has_gene(a, x) by {
        if has_gene(child, x) {
            let k = choose|k: int| 0 <= k < child.conns.len() && #[trigger] gene_of(child, k) == x;
            assert(has_gene(a, gene_of(child, k)));
        }
        if has_gene(a, x) {
            let c = choose|c: int| 0 <= c < a.conns.len() && #[trigger] gene_of(a, c) == x;
            assert(has_innov(a, x.innov));
            assert(has_innov(child, x.innov));
            let k = choose|k: int| 0 <= k < child.conns.len() && #[trigger] child.conns[k].innov == x.innov;
            assert(has_gene(a, gene_of(child, k)));
            let c2 = choose|c2: int| 0 <= c2 < a.conns.len() && #[trigger] gene_of(a, c2) == gene_of(child, k);
            assert(a.conns[c2].innov == a.conns[c].innov);
            assert(c2 == c);
            assert(gene_of(child, k) == x);
        }
    }
}

/// A genome that grows by appending keeps its earlier genes.
pub open spec fn extends(old: GenomeView, new: GenomeView) -> bool {
    &&& old.conns.len() <= new.conns.len()
    &&& forall|k: int| 0 <= k < old.conns.len() ==> #[trigger] gene_of(new, k) == gene_of(old, k)
}

proof fn lemma_extends_innov(old: GenomeView, new: GenomeView)
    requires
        extends(old, new),
    ensures
        forall|y: u32| #[trigger] has_innov(old, y) ==> has_innov(new, y),
{
    assert forall|y: u32| #[trigger] has_innov(old, y) implies has_innov(new, y) by {
        let k = choose|k: int| 0 <= k < old.conns.len() && #[trigger] old.conns[k].innov == y;
        assert(gene_of(new, k) == gene_of(old, k));
    }
}

/// A gene of either parent whose innovation differs from every gene of
/// `child` also differs from each of them in its pair of node identities.
proof fn lemma_fresh_pair(a: GenomeView, b: GenomeView, child: GenomeView, t: GeneView)
    requires
        genome_wf(a),
        genome_wf(b),
        consistent(a, b),
        has_gene(a, t) || has_gene(b, t),
        forall|k: int|
            0 <= k < child.conns.len() ==> has_gene(a, #[trigger] gene_of(child, k)) || has_gene(
                b,
                gene_of(child, k),
            ),
        forall|k: int| 0 <= k < child.conns.len() ==> (#[trigger] gene_of(child, k)).innov != t.innov,
    ensures
        forall|k: int|
            0 <= k < child.conns.len() ==> ((#[trigger] gene_of(child, k)).in_id, gene_of(child, k).out_id)
                != (t.in_id, t.out_id),
{
    lemma_self_consistent(a);
    lemma_self_consistent(b);
    assert forall|k: int| 0 <= k < child.conns.len() implies ((#[trigger] gene_of(child, k)).in_id,
        gene_of(child, k).out_id) != (t.in_id, t.out_id) by {
        let u = gene_of(child, k);
        if has_gene(a, t) {
            let c = choose|c: int| 0 <= c < a.conns.len() && #[trigger] gene_of(a, c) == t;
            if has_gene(a, u) {
                let e = choose|e: int| 0 <= e < a.conns.len() && #[trigger] gene_of(a, e) == u;
                assert(a.conns[e].innov != a.conns[c].innov);
            } else {
                let e = choose|e: int| 0 <= e < b.conns.len() && #[trigger] gene_of(b, e) == u;
                assert(a.conns[c].innov != b.conns[e].innov);
            }
        } else {
            let c = choose|c: int| 0 <= c < b.conns.len() && #[trigger] gene_of(b, c) == t;
            if has_gene(a, u) {
                let e = choose|e: int| 0 <= e < a.conns.len() && #[trigger] gene_of(a, e) == u;
                assert(a.conns[e].innov != b.conns[c].innov);
            } else {
                let e = choose|e: int| 0 <= e < b.conns.len() && #[trigger] gene_of(b, e) == u;
                assert(b.conns[e].innov != b.conns[c].innov);
            }
        }
    }
}

impl FeedForwardGenome {
    /// Crosses two evaluated genomes into an offspring without fitness.
    ///
    /// Genes are aligned by innovation. A gene that both parents hold is
    /// inherited once, in the fitter parent's version with probability
    /// `prefer_num / prefer_den` (one half when neither is fitter). A gene
    /// that one parent alone holds is inherited when that parent is the
    /// fitter one, and with probability one half when neither is. Inherited
    /// genes keep their node identities; the offspring gets the hidden nodes
    /// they need.
    pub fn crossover(
        lhs: &Self,
        rhs: &Self,
        fitter: Fitter,
        prefer_num: u32,
        prefer_den: u32,
        rng: &mut StdRng,
    ) -> (r: Result<Self, CrossoverError>)
        requires
            lhs.wf(),
            rhs.wf(),
            0 < prefer_den,
            prefer_num <= prefer_den,
        ensures
            r == Err::<Self, CrossoverError>(CrossoverError::FitnessUnset) <==> lhs@.fitness.is_none()
                || rhs@.fitness.is_none(),
            r == Err::<Self, CrossoverError>(CrossoverError::ArityMismatch) <==> lhs@.fitness.is_some()
                && rhs@.fitness.is_some() && (lhs@.input_len != rhs@.input_len || lhs@.output_len
                != rhs@.output_len),
            r == Err::<Self, CrossoverError>(CrossoverError::Inconsistent) <==> lhs@.fitness.is_some()
                && rhs@.fitness.is_some() && lhs@.input_len == rhs@.input_len && lhs@.output_len
                == rhs@.output_len && !consistent(lhs@, rhs@),
            r == Err::<Self, CrossoverError>(CrossoverError::Full) <==> lhs@.fitness.is_some()
                && rhs@.fitness.is_some() && lhs@.input_len == rhs@.input_len && lhs@.output_len
                == rhs@.output_len && consistent(lhs@, rhs@) && too_large(lhs@, rhs@),
            r matches Ok(child) ==> child.wf() && offspring_of(lhs@, rhs@, fitter, child@),
    {
        let ghost a = lhs@;
        let ghost b = rhs@;
        if lhs.fitness().is_none() || rhs.fitness().is_none() {
            return Err(CrossoverError::FitnessUnset);
        }
        if lhs.input_len() != rhs.input_len() || lhs.output_len() != rhs.output_len() {
            return Err(CrossoverError::ArityMismatch);
        }
        if !Self::consistent_with(lhs, rhs) {
            return Err(CrossoverError::Inconsistent);
        }
        let il = lhs.input_len();
        let ol = lhs.output_len();
        if lhs.conn_count() > usize::MAX / 8 || rhs.conn_count() > usize::MAX / 8 || il + ol
            > usize::MAX / 4 {
            return Err(CrossoverError::Full);
        }
        let mut child = Self::minimal(il, ol);
        let mut c: usize = 0;
        while c < lhs.conn_count()
            invariant
                a == lhs@,
                b == rhs@,
                genome_wf(a),
                genome_wf(b),
                consistent(a, b),
                !too_large(a, b),
                a.input_len == b.input_len,
                a.output_len == b.output_len,
                0 < prefer_den,
                prefer_num <= prefer_den,
                child.wf(),
                child@.input_len == a.input_len,
                child@.output_len == a.output_len,
                child@.fitness.is_none(),
                c <= a.conns.len(),
                child@.conns.len() <= c,
                child@.nodes.len() <= a.input_len + a.output_len + 2 * child@.conns.len(),
                forall|k: int|
                    0 <= k < child@.conns.len() ==> has_gene(a, #[trigger] gene_of(child@, k))
                        || has_gene(b, gene_of(child@, k)),
                forall|k: int|
                    0 <= k < child@.conns.len() ==> exists|c1: int|
                        0 <= c1 < c && #[trigger] a.conns[c1].innov == (#[trigger] child@.conns[k]).innov,
                forall|c1: int|
                    0 <= c1 < c && has_innov(b, #[trigger] a.conns[c1].innov) ==> has_innov(
                        child@,
                        a.conns[c1].innov,
                    ),
                fitter == Fitter::Lhs ==> forall|c1: int|
                    0 <= c1 < c ==> has_innov(child@, #[trigger] a.conns[c1].innov),
                fitter == Fitter::Rhs ==> forall|k: int|
                    0 <= k < child@.conns.len() ==> has_innov(b, #[trigger] child@.conns[k].innov),
            decreases a.conns.len() - c,
        {
            let x = lhs.conn(c).innov();
            let ghost before = child@;
            let found = rhs.find_innov(x);
            let (take, from_lhs, d) = match found {
                Some(d) => {
                    let pick_lhs = match fitter {
                        Fitter::Lhs => gen_ratio(rng, prefer_num, prefer_den),
                        Fitter::Rhs => !gen_ratio(rng, prefer_num, prefer_den),
                        Fitter::Equal => gen_ratio(rng, 1, 2),
                    };
                    (true, pick_lhs, d)
                },
                None => {
                    let keep = match fitter {
                        Fitter::Lhs => true,
                        Fitter::Rhs => false,
                        Fitter::Equal => gen_ratio(rng, 1, 2),
                    };
                    (keep, true, 0)
                },
            };
            if take {
                let ghost t = if from_lhs { gene_of(a, c as int) } else { gene_of(b, d as int) };
                proof {
                    assert(has_gene(a, gene_of(a, c as int)));
                    if !from_lhs {
                        assert(has_gene(b, gene_of(b, d as int)));
                        assert(b.conns[d as int].innov == x);
                    }
                    assert forall|k: int| 0 <= k < before.conns.len() implies (#[trigger] gene_of(before, k)).innov
                        != t.innov by {
                        let c1 = choose|c1: int|
                            0 <= c1 < c && #[trigger] a.conns[c1].innov == before.conns[k].innov;
                        assert(a.conns[c1].innov != a.conns[c as int].innov);
                    }
                    lemma_fresh_pair(a, b, before, t);
                }
                if from_lhs {
                    child.inherit(lhs, c);
                } else {
                    child.inherit(rhs, d);
                }
                proof {
                    let after = child@;
                    lemma_extends_innov(before, after);
                    let n = before.conns.len() as int;
                    assert(after.conns[n].innov == x);
                    assert(has_innov(after, x));
                    assert(has_gene(a, gene_of(after, n)) || has_gene(b, gene_of(after, n)));
                    assert forall|k: int| 0 <= k < after.conns.len() implies has_gene(a, #[trigger] gene_of(after, k))
                        || has_gene(b, gene_of(after, k)) by {
                        if k < n {
                            assert(gene_of(after, k) == gene_of(before, k));
                        }
                    }
                    assert forall|k: int| 0 <= k < after.conns.len() implies exists|c1: int|
                        0 <= c1 < c + 1 && #[trigger] a.conns[c1].innov == (#[trigger] after.conns[k]).innov by {
                        if k < n {
                            assert(gene_of(after, k) == gene_of(before, k));
                            let c1 = choose|c1: int|
                                0 <= c1 < c && #[trigger] a.conns[c1].innov == before.conns[k].innov;
                            assert(a.conns[c1].innov == after.conns[k].innov);
                        } else {
                            assert(a.conns[c as int].innov == after.conns[k].innov);
                        }
                    }
                    if fitter == Fitter::Rhs {
                        assert(found.is_some());
                        assert forall|k: int| 0 <= k < after.conns.len() implies has_innov(b, #[trigger] after.conns[k].innov) by {
                            if k < n {
                                assert(gene_of(after, k) == gene_of(before, k));
                                assert(has_innov(b, before.conns[k].innov));
                            } else {
                                assert(b.conns[d as int].innov == x);
                            }
                        }
                    }
                }
            } else {
                proof {
                    assert(found.is_none());
                    assert(!has_innov(b, x));
                }
            }
            c = c + 1;
        }
        proof {
            assert forall|k: int| 0 <= k < child@.conns.len() implies has_innov(a, #[trigger] child@.conns[k].innov) by {
                let c1 = choose|c1: int|
                    0 <= c1 < c && #[trigger] a.conns[c1].innov == child@.conns[k].innov;
            }
        }
        let mut d: usize = 0;
        while d < rhs.conn_count()
            invariant
                a == lhs@,
                b == rhs@,
                genome_wf(a),
                genome_wf(b),
                consistent(a, b),
                !too_large(a, b),
                a.input_len == b.input_len,
                a.output_len == b.output_len,
                child.wf(),
                child@.input_len == a.input_len,
                child@.output_len == a.output_len,
                child@.fitness.is_none(),
                d <= b.conns.len(),
                child@.conns.len() <= a.conns.len() + d,
                child@.nodes.len() <= a.input_len + a.output_len + 2 * child@.conns.len(),
                forall|k: int|
                    0 <= k < child@.conns.len() ==> has_gene(a, #[trigger] gene_of(child@, k))
                        || has_gene(b, gene_of(child@, k)),
                forall|k: int|
                    0 <= k < child@.conns.len() ==> has_innov(a, (#[trigger] child@.conns[k]).innov)
                        || exists|d1: int|
                        0 <= d1 < d && #[trigger] b.conns[d1].innov == child@.conns[k].innov,
                forall|c1: int|
                    0 <= c1 < a.conns.len() && has_innov(b, #[trigger] a.conns[c1].innov) ==> has_innov(
                        child@,
                        a.conns[c1].innov,
                    ),
                fitter == Fitter::Lhs ==> forall|c1: int|
                    0 <= c1 < a.conns.len() ==> has_innov(child@, #[trigger] a.conns[c1].innov),
                fitter == Fitter::Lhs ==> forall|k: int|
                    0 <= k < child@.conns.len() ==> has_innov(a, #[trigger] child@.conns[k].innov),
                fitter == Fitter::Rhs ==> forall|k: int|
                    0 <= k < child@.conns.len() ==> has_innov(b, #[trigger] child@.conns[k].innov),
                fitter == Fitter::Rhs ==> forall|d1: int|
                    0 <= d1 < d ==> has_innov(child@, #[trigger] b.conns[d1].innov),
            decreases b.conns.len() - d,
        {
            let x = rhs.conn(d).innov();
            let ghost before = child@;
            let take = match lhs.find_innov(x) {
                Some(c1) => {
                    proof {
                        assert(a.conns[c1 as int].innov == x);
                        assert(has_innov(b, x));
                    }
                    false
                },
                None => {
                    match fitter {
                        Fitter::Lhs => false,
                        Fitter::Rhs => true,
                        Fitter::Equal => gen_ratio(rng, 1, 2),
                    }
                },
            };
            if take {
                proof {
                    let t = gene_of(b, d as int);
                    assert(has_gene(b, t));
                    assert(!has_innov(a, x));
                    assert forall|k: int| 0 <= k < before.conns.len() implies (#[trigger] gene_of(before, k)).innov
                        != t.innov by {
                        if !has_innov(a, before.conns[k].innov) {
                            let d1 = choose|d1: int|
                                0 <= d1 < d && #[trigger] b.conns[d1].innov == before.conns[k].innov;
                            assert(b.conns[d1].innov != b.conns[d as int].innov);
                        }
                    }
                    lemma_fresh_pair(a, b, before, t);
                }
                child.inherit(rhs, d);
                proof {
                    let after = child@;
                    lemma_extends_innov(before, after);
                    let n = before.conns.len() as int;
                    assert(after.conns[n].innov == x);
                    assert(has_innov(after, x));
                    assert(has_gene(b, gene_of(after, n)));
                    assert forall|k: int| 0 <= k < after.conns.len() implies has_gene(a, #[trigger] gene_of(after, k))
                        || has_gene(b, gene_of(after, k)) by {
                        if k < n {
                            assert(gene_of(after, k) == gene_of(before, k));
                        }
                    }
                    assert forall|k: int| 0 <= k < after.conns.len() implies has_innov(a, (#[trigger] after.conns[k]).innov)
                        || exists|d1: int|
                        0 <= d1 < d + 1 && #[trigger] b.conns[d1].innov == after.conns[k].innov by {
                        if k < n {
                            assert(gene_of(after, k) == gene_of(before, k));
                            if !has_innov(a, before.conns[k].innov) {
                                let d1 = choose|d1: int|
                                    0 <= d1 < d && #[trigger] b.conns[d1].innov == before.conns[k].innov;
                                assert(b.conns[d1].innov == after.conns[k].innov);
                            }
                        } else {
                            assert(b.conns[d as int].innov == after.conns[k].innov);
                        }
                    }
                    if fitter == Fitter::Rhs {
                        assert forall|k: int| 0 <= k < after.conns.len() implies has_innov(b, #[trigger] after.conns[k].innov) by {
                            if k < n {
                                assert(gene_of(after, k) == gene_of(before, k));
                                assert(has_innov(b, before.conns[k].innov));
                            } else {
                                assert(b.conns[d as int].innov == x);
                            }
                        }
                    }
                }
            }
            proof {
                if fitter == Fitter::Rhs {
                    assert(has_innov(child@, x)) by {
                        if !take {
                            let c1 = choose|c1: int| 0 <= c1 < a.conns.len() && #[trigger] a.conns[c1].innov == x;
                            assert(has_innov(b, a.conns[c1].innov));
                        }
                    }
                }
            }
            d = d + 1;
        }
        proof {
            assert forall|y: u32| #[trigger] has_innov(a, y) && has_innov(b, y) implies has_innov(child@, y) by {
                let c1 = choose|c1: int| 0 <= c1 < a.conns.len() && #[trigger] a.conns[c1].innov == y;
            }
            if fitter == Fitter::Lhs {
                assert forall|y: u32| #[trigger] has_innov(child@, y) <==> has_innov(a, y) by {
                    if has_innov(child@, y) {
                        let k = choose|k: int| 0 <= k < child@.conns.len() && #[trigger] child@.conns[k].innov == y;
                    }
                    if has_innov(a, y) {
                        let c1 = choose|c1: int| 0 <= c1 < a.conns.len() && #[trigger] a.conns[c1].innov == y;
                    }
                }
            }
            if fitter == Fitter::Rhs {
                assert forall|y: u32| #[trigger] has_innov(child@, y) <==> has_innov(b, y) by {
                    if has_innov(child@, y) {
                        let k = choose|k: int| 0 <= k < child@.conns.len() && #[trigger] child@.conns[k].innov == y;
                    }
                    if has_innov(b, y) {
                        let d1 = choose|d1: int| 0 <= d1 < b.conns.len() && #[trigger] b.conns[d1].innov == y;
                    }
                }
            }
        }
        Ok(child)
    }

    /// Index of the node with identity `id`, adding it as a hidden node when
    /// it is neither an input or output nor present yet.
    fn node_index(&mut self, id: u32) -> (r: usize)
        requires
            old(self).wf(),
            old(self)@.nodes.len() < usize::MAX,
        ensures
            final(self).wf(),
            final(self)@.conns == old(self)@.conns,
            final(self)@.input_len == old(self)@.input_len,
            final(self)@.output_len == old(self)@.output_len,
            final(self)@.fitness == old(self)@.fitness,
            old(self)@.nodes.len() <= final(self)@.nodes.len() <= old(self)@.nodes.len() + 1,
            forall|k: int|
                0 <= k < old(self)@.nodes.len() ==> #[trigger] final(self)@.nodes[k] == old(
                    self,
                )@.nodes[k],
            r < final(self)@.nodes.len(),
            final(self)@.nodes[r as int].id == id,
            id < old(self)@.input_len + old(self)@.output_len ==> r == id,
            id >= old(self)@.input_len + old(self)@.output_len ==> r >= old(self)@.input_len
                + old(self)@.output_len,
    {
        let ghost g = self@;
        let io = self.input_len() + self.output_len();
        if (id as usize) < io {
            return id as usize;
        }
        match self.find_node(id) {
            Some(k) => {
                proof {
                    if k < io {
                        assert(g.nodes[k as int].id == k);
                    }
                }
                k
            },
            None => {
                let k = self.push_hidden(id);
                proof {
                    assert forall|j: int| 0 <= j < g.nodes.len() implies #[trigger] self@.nodes[j]
                        == g.nodes[j] by {
                        assert(self@.nodes[j] == g.nodes.push(self@.nodes[k as int])[j]);
                    }
                }
                k
            },
        }
    }

    /// Appends gene `c` of `parent` to this genome, under the same node
    /// identities, adding hidden nodes as needed.
    fn inherit(&mut self, parent: &Self, c: usize)
        requires
            old(self).wf(),
            parent.wf(),
            old(self)@.input_len == parent@.input_len,
            old(self)@.output_len == parent@.output_len,
            c < parent@.conns.len(),
            old(self)@.nodes.len() + 2 <= usize::MAX,
            old(self)@.conns.len() < usize::MAX,
            forall|k: int|
                0 <= k < old(self)@.conns.len() ==> (#[trigger] gene_of(old(self)@, k)).innov
                    != gene_of(parent@, c as int).innov && (gene_of(old(self)@, k).in_id,
                gene_of(old(self)@, k).out_id) != (gene_of(parent@, c as int).in_id, gene_of(
                    parent@,
                    c as int,
                ).out_id),
        ensures
            final(self).wf(),
            final(self)@.input_len == old(self)@.input_len,
            final(self)@.output_len == old(self)@.output_len,
            final(self)@.fitness == old(self)@.fitness,
            final(self)@.conns.len() == old(self)@.conns.len() + 1,
            final(self)@.nodes.len() <= old(self)@.nodes.len() + 2,
            extends(old(self)@, final(self)@),
            gene_of(final(self)@, old(self)@.conns.len() as int) == gene_of(parent@, c as int),
    {
        let ghost g0 = self@;
        let ghost p = parent@;
        let io = self.input_len() + self.output_len();
        let conn = parent.conn(c);
        let pin = conn.in_node();
        let pout = conn.out_node();
        proof {
            assert(conn_fits(p, p.conns[c as int]));
        }
        let in_id = parent.node(pin).id();
        let out_id = parent.node(pout).id();
        let i = self.node_index(in_id);
        let ghost g1 = self@;
        let o = self.node_index(out_id);
        let ghost g2 = self@;
        proof {
            assert(g2.nodes[i as int] == g1.nodes[i as int]);
            assert(in_id != out_id);
            if pin < io {
                assert(p.nodes[pin as int].id == pin);
            }
            if pout < io {
                assert(p.nodes[pout as int].id == pout);
            }
            if (in_id as usize) >= io {
                assert(g2.nodes[i as int].kind == NodeKind::Hidden);
            }
            if (out_id as usize) >= io {
                assert(g2.nodes[o as int].kind == NodeKind::Hidden);
            }
            assert(!has_pair(g2, i, o)) by {
                if has_pair(g2, i, o) {
                    let k = choose|k: int|
                        0 <= k < g2.conns.len() && #[trigger] g2.conns[k].in_node == i
                            && g2.conns[k].out_node == o;
                    assert(conn_fits(g0, g0.conns[k]));
                    assert(g2.nodes[g0.conns[k].in_node as int] == g0.nodes[g0.conns[k].in_node as int]);
                    assert(g2.nodes[g0.conns[k].out_node as int] == g0.nodes[g0.conns[k].out_node as int]);
                    assert(gene_of(g0, k).in_id == in_id);
                    assert(gene_of(g0, k).out_id == out_id);
                }
            }
            assert(!has_innov(g2, conn@.innov)) by {
                if has_innov(g2, conn@.innov) {
                    let k = choose|k: int| 0 <= k < g2.conns.len() && #[trigger] g2.conns[k].innov == conn@.innov;
                    assert(gene_of(g0, k).innov == conn@.innov);
                }
            }
        }
        self.push_conn(i, o, conn.weight(), conn.enabled(), conn.innov());
        proof {
            let g3 = self@;
            assert forall|k: int| 0 <= k < g0.conns.len() implies #[trigger] gene_of(g3, k) == gene_of(g0, k) by {
                assert(conn_fits(g0, g0.conns[k]));
                assert(g3.conns[k] == g0.conns[k]);
                assert(g2.nodes[g0.conns[k].in_node as int] == g0.nodes[g0.conns[k].in_node as int]);
                assert(g2.nodes[g0.conns[k].out_node as int] == g0.nodes[g0.conns[k].out_node as int]);
            }
        }
    }

    /// Whether the two genomes agree on every historical marking.
    fn consistent_with(a: &Self, b: &Self) -> (r: bool)
        requires
            a.wf(),
            b.wf(),
        ensures
            r == consistent(a@, b@),
    {
        let ghost ga = a@;
        let ghost gb = b@;
        let mut c: usize = 0;
        while c < a.conn_count()
            invariant
                ga == a@,
                gb == b@,
                genome_wf(ga),
                genome_wf(gb),
                c <= ga.conns.len(),
                forall|c1: int, d: int|
                    0 <= c1 < c && 0 <= d < gb.conns.len() ==> ((#[trigger] ga.conns[c1]).innov
                        == (#[trigger] gb.conns[d]).innov <==> (gene_of(ga, c1).in_id == gene_of(
                        gb,
                        d,
                    ).in_id && gene_of(ga, c1).out_id == gene_of(gb, d).out_id)),
            decreases ga.conns.len() - c,
        {
            let x = a.conn(c);
            proof {
                assert(conn_fits(ga, ga.conns[c as int]));
            }
            let xi = a.node(x.in_node()).id();
            let xo = a.node(x.out_node()).id();
            let mut d: usize = 0;
            while d < b.conn_count()
                invariant
                    ga == a@,
                    gb == b@,
                    genome_wf(gb),
                    c < ga.conns.len(),
                    x@ == ga.conns[c as int],
                    xi == gene_of(ga, c as int).in_id,
                    xo == gene_of(ga, c as int).out_id,
                    d <= gb.conns.len(),
                    forall|d1: int|
                        0 <= d1 < d ==> (ga.conns[c as int].innov == (#[trigger] gb.conns[d1]).innov
                            <==> (gene_of(ga, c as int).in_id == gene_of(gb, d1).in_id && gene_of(
                            ga,
                            c as int,
                        ).out_id == gene_of(gb, d1).out_id)),
                decreases gb.conns.len() - d,
            {
                let y = b.conn(d);
                proof {
                    assert(conn_fits(gb, gb.conns[d as int]));
                }
                let yi = b.node(y.in_node()).id();
                let yo = b.node(y.out_node()).id();
                if (x.innov() == y.innov()) != (xi == yi && xo == yo) {
                    return false;
                }
                d = d + 1;
            }
            c = c + 1;
        }
        true
    }
}

} // verus!
