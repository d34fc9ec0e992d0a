use crate::genes::{ConnGene, ConnView, NodeGene, NodeKind, NodeView};
use vstd::prelude::*;

verus! {

/// Bit pattern of the single-precision weight 1.0.
pub const UNIT_WEIGHT: u32 = 0x3f80_0000;

/// Why a connection could not be added.
#[derive(Clone, Copy, Debug, PartialEq, Eq, Structural)]
pub enum GraphError {
    /// An endpoint is not a node of the genome, both endpoints are the same
    /// node, the connection would leave an output or enter an input.
    InvalidEndpoints,
    /// A connection already joins the same ordered pair.
    DuplicatePair,
    /// A connection already carries the same innovation.
    DuplicateInnovation,
    /// The connection list is full.
    Full,
}

/// Abstract state of a [`FeedForwardGenome`].
pub ghost struct GenomeView {
    pub input_len: nat,
    pub output_len: nat,
    /// Inputs first, then outputs, then hidden nodes in order of creation.
    pub nodes: Seq<NodeView>,
    /// Connections in order of insertion.
    pub conns: Seq<ConnView>,
    /// Bit pattern of the fitness, once set.
    pub fitness: Option<u32>,
}

/// The endpoint of `c` on the given side: its input node when `leaving`,
/// else its output node.
pub open spec fn endpoint(c: ConnView, leaving: bool) -> usize {
    if leaving {
        c.in_node
    } else {
        c.out_node
    }
}

/// Indices, increasing, of the connections in `conns` that leave node `n`
/// (when `leaving`) or enter it.
pub open spec fn conns_at(conns: Seq<ConnView>, n: usize, leaving: bool) -> Seq<usize>
    decreases conns.len(),
{
    if conns.len() == 0 {
        Seq::empty()
    } else {
        let prev = conns_at(conns.drop_last(), n, leaving);
        if endpoint(conns.last(), leaving) == n {
            prev.push((conns.len() - 1) as usize)
        } else {
            prev
        }
    }
}

/// The kind that the layout of `g` gives node index `k`.
pub open spec fn layout_kind(g: GenomeView, k: int) -> NodeKind {
    if k < g.input_len {
        NodeKind::Input
    } else if k < g.input_len + g.output_len {
        NodeKind::Output
    } else {
        NodeKind::Hidden
    }
}

/// `c` joins two distinct nodes of `g`, leaving a node that is not an output
/// and entering one that is not an input.
pub open spec fn conn_fits(g: GenomeView, c: ConnView) -> bool {
    &&& c.in_node < g.nodes.len()
    &&& c.out_node < g.nodes.len()
    &&& c.in_node != c.out_node
    &&& g.nodes[c.in_node as int].kind != NodeKind::Output
    &&& g.nodes[c.out_node as int].kind != NodeKind::Input
}

/// Some connection of `g` runs from node `a` to node `b`.
pub open spec fn has_pair(g: GenomeView, a: usize, b: usize) -> bool {
    exists|c: int| 0 <= c < g.conns.len() && #[trigger] g.conns[c].in_node == a && g.conns[c].out_node == b
}

/// Some connection of `g` carries the innovation `innov`.
pub open spec fn has_innov(g: GenomeView, innov: u32) -> bool {
    exists|c: int| 0 <= c < g.conns.len() && #[trigger] g.conns[c].innov == innov
}

/// Some node of `g` has the identity `id`.
pub open spec fn has_id(g: GenomeView, id: u32) -> bool {
    exists|k: int| 0 <= k < g.nodes.len() && #[trigger] g.nodes[k].id == id
}

/// `g1` and `g2` have the same arity and fitness and the same nodes, apart
/// from their edge lists.
pub open spec fn same_nodes(g1: GenomeView, g2: GenomeView) -> bool {
    &&& g1.input_len == g2.input_len
    &&& g1.output_len == g2.output_len
    &&& g1.fitness == g2.fitness
    &&& g1.nodes.len() == g2.nodes.len()
    &&& forall|k: int|
        0 <= k < g1.nodes.len() ==> (#[trigger] g1.nodes[k]).id == g2.nodes[k].id
            && g1.nodes[k].kind == g2.nodes[k].kind
}

/// The connections after splitting connection `c` with the new node at index
/// `h`: `c` is disabled, and `in -> h` (weight 1.0, innovation `a`) and
/// `h -> out` (the old weight, innovation `b`) are appended.
pub open spec fn split_conns(conns: Seq<ConnView>, c: int, h: usize, a: u32, b: u32) -> Seq<
    ConnView,
> {
    let old_conn = conns[c];
    conns.update(c, ConnView { enabled: false, ..old_conn }).push(
        ConnView {
            in_node: old_conn.in_node,
            out_node: h,
            weight: UNIT_WEIGHT,
            enabled: true,
            innov: a,
        },
    ).push(
        ConnView {
            in_node: h,
            out_node: old_conn.out_node,
            weight: old_conn.weight,
            enabled: true,
            innov: b,
        },
    )
}

pub open spec fn hidden_count(g: GenomeView) -> nat {
    (g.nodes.len() - g.input_len - g.output_len) as nat
}

/// Well-formedness of a genome.
///
/// The nodes are laid out as inputs, outputs, hidden; input and output nodes
/// carry the identities `0 .. input_len + output_len` in that order, hidden
/// nodes larger ones, and no two nodes share one. Every connection fits the
/// graph; no two connections join the same ordered pair or share an
/// innovation. Each node's edge lists hold exactly the connections that
/// leave and enter it.
pub open spec fn genome_wf(g: GenomeView) -> bool {
    &&& g.input_len > 0
    &&& g.output_len > 0
    &&& g.input_len + g.output_len <= g.nodes.len()
    &&& g.input_len + g.output_len <= u32::MAX
    &&& g.nodes.len() <= usize::MAX
    &&& g.conns.len() <= usize::MAX
    &&& forall|k: int| 0 <= k < g.nodes.len() ==> #[trigger] g.nodes[k].kind == layout_kind(g, k)
    &&& forall|k: int|
        0 <= k < g.input_len + g.output_len ==> #[trigger] g.nodes[k].id == k
    &&& forall|k: int|
        g.input_len + g.output_len <= k < g.nodes.len() ==> #[trigger] g.nodes[k].id
            >= g.input_len + g.output_len
    &&& forall|j: int, k: int|
        0 <= j < g.nodes.len() && 0 <= k < g.nodes.len() && j != k ==> #[trigger] g.nodes[j].id
            != #[trigger] g.nodes[k].id
    &&& forall|c: int| 0 <= c < g.conns.len() ==> conn_fits(g, #[trigger] g.conns[c])
    &&& forall|c1: int, c2: int|
        0 <= c1 < g.conns.len() && 0 <= c2 < g.conns.len() && c1 != c2 ==> {
            &&& (#[trigger] g.conns[c1]).innov != (#[trigger] g.conns[c2]).innov
            &&& (g.conns[c1].in_node, g.conns[c1].out_node) != (
            g.conns[c2].in_node,
            g.conns[c2].out_node,
            )
        }
    &&& forall|k: int|
        0 <= k < g.nodes.len() ==> (#[trigger] g.nodes[k]).forward == conns_at(
            g.conns,
            k as usize,
            true,
        ) && g.nodes[k].backward == conns_at(g.conns, k as usize, false)
}

/// What `conns_at` holds: the matching connections, each once, increasing.
pub proof fn lemma_conns_at(conns: Seq<ConnView>, n: usize, leaving: bool)
    requires
        conns.len() <= usize::MAX,
    ensures
        forall|i: int|
            0 <= i < conns_at(conns, n, leaving).len() ==> {
                &&& #[trigger] conns_at(conns, n, leaving)[i] < conns.len()
                &&& endpoint(conns[conns_at(conns, n, leaving)[i] as int], leaving) == n
            },
        forall|c: int|
            0 <= c < conns.len() && endpoint(#[trigger] conns[c], leaving) == n ==> conns_at(
                conns,
                n,
                leaving,
            ).contains(c as usize),
        forall|i: int, j: int|
            0 <= i < j < conns_at(conns, n, leaving).len() ==> #[trigger] conns_at(
                conns,
                n,
                leaving,
            )[i] < #[trigger] conns_at(conns, n, leaving)[j],
    decreases conns.len(),
{
    if conns.len() > 0 {
        let prefix = conns.drop_last();
        lemma_conns_at(prefix, n, leaving);
        let prev = conns_at(prefix, n, leaving);
        let s = conns_at(conns, n, leaving);
        let last = (conns.len() - 1) as usize;
        assert forall|i: int| 0 <= i < s.len() implies {
            &&& #[trigger] s[i] < conns.len()
            &&& endpoint(conns[s[i] as int], leaving) == n
        } by {
            if i < prev.len() {
                assert(s[i] == prev[i]);
                assert(conns[prev[i] as int] == prefix[prev[i] as int]);
            }
        }
        assert forall|c: int|
            0 <= c < conns.len() && endpoint(#[trigger] conns[c], leaving) == n implies s.contains(
            c as usize,
        ) by {
            if c < conns.len() - 1 {
                assert(prefix[c] == conns[c]);
                assert(prev.contains(c as usize));
                let i = choose|i: int| 0 <= i < prev.len() && prev[i] == c as usize;
                assert(s[i] == c as usize);
            } else {
                assert(s[s.len() - 1] == c as usize);
            }
        }
        assert forall|i: int, j: int| 0 <= i < j < s.len() implies #[trigger] s[i] < #[trigger] s[j] by {
            if j < prev.len() {
                assert(s[i] == prev[i] && s[j] == prev[j]);
            } else {
                assert(s[i] == prev[i]);
                assert(s[j] == last);
            }
        }
    }
}

/// Appending a connection extends the lists of its two endpoints only.
pub proof fn lemma_conns_at_push(conns: Seq<ConnView>, c: ConnView, n: usize, leaving: bool)
    ensures
        conns_at(conns.push(c), n, leaving) == (if endpoint(c, leaving) == n {
            conns_at(conns, n, leaving).push(conns.len() as usize)
        } else {
            conns_at(conns, n, leaving)
        }),
{
    assert(conns.push(c).drop_last() =~= conns);
}

/// Replacing a connection by one with the same endpoints keeps every list.
pub proof fn lemma_conns_at_update(
    conns: Seq<ConnView>,
    i: int,
    c: ConnView,
    n: usize,
    leaving: bool,
)
    requires
        0 <= i < conns.len(),
        c.in_node == conns[i].in_node,
        c.out_node == conns[i].out_node,
    ensures
        conns_at(conns.update(i, c), n, leaving) == conns_at(conns, n, leaving),
    decreases conns.len(),
{
    let u = conns.update(i, c);
    if i < conns.len() - 1 {
        assert(u.drop_last() =~= conns.drop_last().update(i, c));
        lemma_conns_at_update(conns.drop_last(), i, c, n, leaving);
    } else {
        assert(u.drop_last() =~= conns.drop_last());
    }
}

/// The gene graph of one individual.
#[derive(Debug)]
pub struct FeedForwardGenome {
    nodes: Vec<NodeGene>,
    conns: Vec<ConnGene>,
    input_len: usize,
    output_len: usize,
    fitness: Option<u32>,
}

impl View for FeedForwardGenome {
    type V = GenomeView;

    closed spec fn view(&self) -> GenomeView {
        GenomeView {
            input_len: self.input_len as nat,
            output_len: self.output_len as nat,
            nodes: self.nodes@.map_values(|n: NodeGene| n@),
            conns: self.conns@.map_values(|c: ConnGene| c@),
            fitness: self.fitness,
        }
    }
}

impl FeedForwardGenome {
    pub open spec fn wf(&self) -> bool {
        genome_wf(self@)
    }

    /// A genome with `input_len` inputs, `output_len` outputs, no hidden node
    /// and no connection.
    pub fn minimal(input_len: usize, output_len: usize) -> (r: FeedForwardGenome)
        requires
            input_len > 0,
            output_len > 0,
            input_len + output_len <= u32::MAX,
        ensures
            r.wf(),
            r@.input_len == input_len,
            r@.output_len == output_len,
            r@.nodes.len() == input_len + output_len,
            hidden_count(r@) == 0,
            r@.conns.len() == 0,
            r@.fitness.is_none(),
            crate::mutation::acyclic(r@),
    {
        let mut nodes: Vec<NodeGene> = Vec::new();
        let mut k: usize = 0;
        while k < input_len + output_len
            invariant
                k <= input_len + output_len <= u32::MAX,
                nodes@.len() == k,
                forall|j: int|
                    0 <= j < k ==> (#[trigger] nodes@[j])@ == (NodeView {
                        id: j as u32,
                        kind: if j < input_len {
                            NodeKind::Input
                        } else {
                            NodeKind::Output
                        },
                        forward: Seq::empty(),
                        backward: Seq::empty(),
                    }),
            decreases input_len + output_len - k,
        {
            if k < input_len {
                nodes.push(NodeGene::new_input(k as u32));
            } else {
                nodes.push(NodeGene::new_output(k as u32));
            }
            k = k + 1;
        }
        let r = FeedForwardGenome {
            nodes,
            conns: Vec::new(),
            input_len,
            output_len,
            fitness: None,
        };
        assert(r@.conns =~= Seq::<ConnView>::empty());
        r
    }

    pub fn input_len(&self) -> (r: usize)
        ensures
            r == self@.input_len,
    {
        self.input_len
    }

    pub fn output_len(&self) -> (r: usize)
        ensures
            r == self@.output_len,
    {
        self.output_len
    }

    /// Number of hidden nodes.
    pub fn hidden_len(&self) -> (r: usize)
        requires
            self.wf(),
        ensures
            r == hidden_count(self@),
    {
        self.nodes.len() - self.input_len - self.output_len
    }

    pub fn node_count(&self) -> (r: usize)
        ensures
            r == self@.nodes.len(),
    {
        self.nodes.len()
    }

    pub fn conn_count(&self) -> (r: usize)
        ensures
            r == self@.conns.len(),
    {
        self.conns.len()
    }

    pub fn node(&self, k: usize) -> (r: &NodeGene)
        requires
            k < self@.nodes.len(),
        ensures
            r@ == self@.nodes[k as int],
    {
        &self.nodes[k]
    }

    pub fn conn(&self, c: usize) -> (r: &ConnGene)
        requires
            c < self@.conns.len(),
        ensures
            r@ == self@.conns[c as int],
    {
        &self.conns[c]
    }

    /// Appends the connection `in_node -> out_node` and records it in the
    /// edge lists of both endpoints; returns its index.
    pub(crate) fn push_conn(
        &mut self,
        in_node: usize,
        out_node: usize,
        weight: u32,
        enabled: bool,
        innov: u32,
    ) -> (r: usize)
        requires
            old(self).wf(),
            conn_fits(old(self)@, ConnView { in_node, out_node, weight, enabled, innov }),
            !has_pair(old(self)@, in_node, out_node),
            !has_innov(old(self)@, innov),
            old(self)@.conns.len() < usize::MAX,
        ensures
            final(self).wf(),
            r == old(self)@.conns.len(),
            same_nodes(final(self)@, old(self)@),
            final(self)@.conns == old(self)@.conns.push(
                ConnView { in_node, out_node, weight, enabled, innov },
            ),
    {
        let ghost g0 = self@;
        let c = self.conns.len();
        proof {
            lemma_conns_at(g0.conns, in_node, true);
            lemma_conns_at(g0.conns, out_node, false);
            assert(self.nodes@[in_node as int]@ == g0.nodes[in_node as int]);
            assert(self.nodes@[out_node as int]@ == g0.nodes[out_node as int]);
        }
        self.nodes[in_node].insert_forward_conn(c);
        let ghost mid = self.nodes@;
        self.nodes[out_node].insert_backward_conn(c);
        let mut gene = ConnGene::new(in_node, out_node, weight, innov);
        gene.set_enabled(enabled);
        self.conns.push(gene);
        proof {
            let cv = ConnView { in_node, out_node, weight, enabled, innov };
            let g = self@;
            assert(g.conns =~= g0.conns.push(cv));
            assert forall|k: int| 0 <= k < g.nodes.len() implies (#[trigger] g.nodes[k]).forward
                == conns_at(g.conns, k as usize, true) && g.nodes[k].backward == conns_at(
                g.conns,
                k as usize,
                false,
            ) by {
                lemma_conns_at_push(g0.conns, cv, k as usize, true);
                lemma_conns_at_push(g0.conns, cv, k as usize, false);
                assert(g.nodes[k] == self.nodes@[k]@);
                assert(g0.nodes[k].forward == conns_at(g0.conns, k as usize, true));
                if k == out_node {
                    assert(mid[k]@ == g0.nodes[k]);
                } else if k == in_node {
                    assert(mid[k]@.forward == g0.nodes[k].forward.push(c));
                } else {
                    assert(mid[k]@ == g0.nodes[k]);
                }
            }
            assert forall|c1: int, c2: int|
                0 <= c1 < g.conns.len() && 0 <= c2 < g.conns.len() && c1 != c2 implies {
                &&& (#[trigger] g.conns[c1]).innov != (#[trigger] g.conns[c2]).innov
                &&& (g.conns[c1].in_node, g.conns[c1].out_node) != (
                g.conns[c2].in_node,
                g.conns[c2].out_node,
                )
            } by {
                if c1 == c && c2 < c {
                    assert(g.conns[c2] == g0.conns[c2]);
                } else if c2 == c && c1 < c {
                    assert(g.conns[c1] == g0.conns[c1]);
                } else {
                    assert(g.conns[c1] == g0.conns[c1]);
                    assert(g.conns[c2] == g0.conns[c2]);
                }
            }
            assert forall|k: int| 0 <= k < g.nodes.len() implies (#[trigger] g.nodes[k]).id
                == g0.nodes[k].id && g.nodes[k].kind == g0.nodes[k].kind by {
                assert(g.nodes[k] == self.nodes@[k]@);
                assert(mid[k]@.id == g0.nodes[k].id && mid[k]@.kind == g0.nodes[k].kind);
            }
            assert forall|c1: int| 0 <= c1 < g.conns.len() implies conn_fits(
                g,
                #[trigger] g.conns[c1],
            ) by {
                if c1 < c {
                    assert(g.conns[c1] == g0.conns[c1]);
                }
            }
            assert(g.conns.len() <= usize::MAX);
            assert(forall|k: int| 0 <= k < g.nodes.len() ==> #[trigger] g.nodes[k].kind == layout_kind(g, k));
            assert(forall|j: int, k: int|
                0 <= j < g.nodes.len() && 0 <= k < g.nodes.len() && j != k ==> #[trigger] g.nodes[j].id
                    != #[trigger] g.nodes[k].id);
        }
        c
    }

    /// Adds the connection `in_node -> out_node`, enabled, with the given
    /// weight and innovation, and records it at both endpoints; returns its
    /// index. Refuses a connection that does not fit the graph or repeats a
    /// pair or an innovation, and leaves the genome unchanged then.
    pub fn add_conn(&mut self, in_node: usize, out_node: usize, weight: u32, innov: u32) -> (r:
        Result<usize, GraphError>)
        requires
            old(self).wf(),
        ensures
            final(self).wf(),
            ({
                let cv = ConnView { in_node, out_node, weight, enabled: true, innov };
                match r {
                    Err(GraphError::InvalidEndpoints) => !conn_fits(old(self)@, cv),
                    Err(GraphError::DuplicatePair) => conn_fits(old(self)@, cv) && has_pair(
                        old(self)@,
                        in_node,
                        out_node,
                    ),
                    Err(GraphError::DuplicateInnovation) => conn_fits(old(self)@, cv) && !has_pair(
                        old(self)@,
                        in_node,
                        out_node,
                    ) && has_innov(old(self)@, innov),
                    Err(GraphError::Full) => conn_fits(old(self)@, cv) && !has_pair(
                        old(self)@,
                        in_node,
                        out_node,
                    ) && !has_innov(old(self)@, innov) && old(self)@.conns.len() == usize::MAX,
                    Ok(c) => conn_fits(old(self)@, cv) && !has_pair(old(self)@, in_node, out_node)
                        && !has_innov(old(self)@, innov) && c == old(self)@.conns.len() && same_nodes(
                        final(self)@,
                        old(self)@,
                    ) && final(self)@.conns == old(self)@.conns.push(cv),
                }
            }),
            r is Err ==> final(self)@ == old(self)@,
    {
        if in_node >= self.nodes.len() || out_node >= self.nodes.len() || in_node == out_node
            || self.nodes[in_node].kind() == NodeKind::Output || self.nodes[out_node].kind()
            == NodeKind::Input {
            return Err(GraphError::InvalidEndpoints);
        }
        if self.find_conn(in_node, out_node).is_some() {
            return Err(GraphError::DuplicatePair);
        }
        if self.find_innov(innov).is_some() {
            return Err(GraphError::DuplicateInnovation);
        }
        if self.conns.len() == usize::MAX {
            return Err(GraphError::Full);
        }
        Ok(self.push_conn(in_node, out_node, weight, true, innov))
    }

    /// Disables connection `c`; everything else stays.
    pub fn disable_conn(&mut self, c: usize)
        requires
            old(self).wf(),
            c < old(self)@.conns.len(),
        ensures
            final(self).wf(),
            same_nodes(final(self)@, old(self)@),
            final(self)@.nodes == old(self)@.nodes,
            final(self)@.conns == old(self)@.conns.update(
                c as int,
                ConnView { enabled: false, ..old(self)@.conns[c as int] },
            ),
    {
        self.set_conn(c, false, self.conns[c].weight());
    }

    /// Gives connection `c` the weight `weight`; everything else stays.
    pub fn set_conn_weight(&mut self, c: usize, weight: u32)
        requires
            old(self).wf(),
            c < old(self)@.conns.len(),
        ensures
            final(self).wf(),
            same_nodes(final(self)@, old(self)@),
            final(self)@.conns == old(self)@.conns.update(
                c as int,
                ConnView { weight, ..old(self)@.conns[c as int] },
            ),
    {
        self.set_conn(c, self.conns[c].enabled(), weight);
    }

    fn set_conn(&mut self, c: usize, enabled: bool, weight: u32)
        requires
            old(self).wf(),
            c < old(self)@.conns.len(),
        ensures
            final(self).wf(),
            same_nodes(final(self)@, old(self)@),
            final(self)@.nodes == old(self)@.nodes,
            final(self)@.conns == old(self)@.conns.update(
                c as int,
                ConnView { enabled, weight, ..old(self)@.conns[c as int] },
            ),
    {
        let ghost g0 = self@;
        self.conns[c].set_enabled(enabled);
        self.conns[c].set_weight(weight);
        proof {
            let g = self@;
            let cv = ConnView { enabled, weight, ..g0.conns[c as int] };
            assert(g.conns =~= g0.conns.update(c as int, cv));
            assert(g.nodes =~= g0.nodes);
            assert forall|k: int| 0 <= k < g.nodes.len() implies (#[trigger] g.nodes[k]).forward
                == conns_at(g.conns, k as usize, true) && g.nodes[k].backward == conns_at(
                g.conns,
                k as usize,
                false,
            ) by {
                lemma_conns_at_update(g0.conns, c as int, cv, k as usize, true);
                lemma_conns_at_update(g0.conns, c as int, cv, k as usize, false);
            }
            assert forall|c1: int, c2: int|
                0 <= c1 < g.conns.len() && 0 <= c2 < g.conns.len() && c1 != c2 implies {
                &&& (#[trigger] g.conns[c1]).innov != (#[trigger] g.conns[c2]).innov
                &&& (g.conns[c1].in_node, g.conns[c1].out_node) != (
                g.conns[c2].in_node,
                g.conns[c2].out_node,
                )
            } by {
                assert(g0.conns[c1].innov != g0.conns[c2].innov);
            }
            assert forall|c1: int| 0 <= c1 < g.conns.len() implies conn_fits(
                g,
                #[trigger] g.conns[c1],
            ) by {
                assert(conn_fits(g0, g0.conns[c1]));
            }
        }
    }

    /// Splits connection `c` with a new hidden node of identity `id`: `c` is
    /// disabled but kept, and the new node is joined to `c`'s endpoints by
    /// two enabled connections with innovations `a` and `b` (see
    /// `split_conns`). Returns the new node's index.
    pub(crate) fn add_node(&mut self, c: usize, id: u32, a: u32, b: u32) -> (r: usize)
        requires
            old(self).wf(),
            c < old(self)@.conns.len(),
            id >= old(self)@.input_len + old(self)@.output_len,
            !has_id(old(self)@, id),
            a != b,
            !has_innov(old(self)@, a),
            !has_innov(old(self)@, b),
            old(self)@.nodes.len() < usize::MAX,
            old(self)@.conns.len() < usize::MAX - 1,
        ensures
            final(self).wf(),
            r == old(self)@.nodes.len(),
            final(self)@.input_len == old(self)@.input_len,
            final(self)@.output_len == old(self)@.output_len,
            final(self)@.fitness == old(self)@.fitness,
            final(self)@.nodes.len() == old(self)@.nodes.len() + 1,
            forall|k: int|
                0 <= k < old(self)@.nodes.len() ==> (#[trigger] final(self)@.nodes[k]).id == old(
                    self,
                )@.nodes[k].id,
            final(self)@.nodes[r as int].id == id,
            final(self)@.nodes[r as int].kind == NodeKind::Hidden,
            final(self)@.conns == split_conns(old(self)@.conns, c as int, r, a, b),
    {
        let ghost g0 = self@;
        let in_node = self.conns[c].in_node();
        let out_node = self.conns[c].out_node();
        let weight = self.conns[c].weight();
        proof {
            assert(conn_fits(g0, g0.conns[c as int]));
        }
        self.disable_conn(c);
        let ghost g1 = self@;
        let h = self.push_hidden(id);
        let ghost g2 = self@;
        proof {
            assert(g2.nodes[in_node as int] == g1.nodes[in_node as int]);
            assert(g2.nodes[out_node as int] == g1.nodes[out_node as int]);
            assert(!has_pair(g2, in_node, h)) by {
                if has_pair(g2, in_node, h) {
                    let d = choose|d: int| 0 <= d < g2.conns.len() && #[trigger] g2.conns[d].in_node == in_node && g2.conns[d].out_node == h;
                    assert(conn_fits(g2, g2.conns[d]));
                }
            }
            assert(!has_innov(g2, a)) by {
                if has_innov(g2, a) {
                    let d = choose|d: int| 0 <= d < g2.conns.len() && #[trigger] g2.conns[d].innov == a;
                    assert(g0.conns[d].innov == a);
                }
            }
        }
        self.push_conn(in_node, h, UNIT_WEIGHT, true, a);
        let ghost g3 = self@;
        proof {
            assert(!has_pair(g3, h, out_node)) by {
                if has_pair(g3, h, out_node) {
                    let d = choose|d: int| 0 <= d < g3.conns.len() && #[trigger] g3.conns[d].in_node == h && g3.conns[d].out_node == out_node;
                    if d < g2.conns.len() {
                        assert(conn_fits(g2, g2.conns[d]));
                    }
                }
            }
            assert(!has_innov(g3, b)) by {
                if has_innov(g3, b) {
                    let d = choose|d: int| 0 <= d < g3.conns.len() && #[trigger] g3.conns[d].innov == b;
                    if d < g2.conns.len() {
                        assert(g0.conns[d].innov == b);
                    }
                }
            }
        }
        self.push_conn(h, out_node, weight, true, b);
        h
    }

    /// Adds a hidden node with identity `id`; returns its index.
    pub(crate) fn push_hidden(&mut self, id: u32) -> (r: usize)
        requires
            old(self).wf(),
            id >= old(self)@.input_len + old(self)@.output_len,
            old(self)@.nodes.len() < usize::MAX,
            !has_id(old(self)@, id),
        ensures
            final(self).wf(),
            r == old(self)@.nodes.len(),
            final(self)@.conns == old(self)@.conns,
            final(self)@.input_len == old(self)@.input_len,
            final(self)@.output_len == old(self)@.output_len,
            final(self)@.fitness == old(self)@.fitness,
            final(self)@.nodes == old(self)@.nodes.push(
                NodeView {
                    id,
                    kind: NodeKind::Hidden,
                    forward: Seq::empty(),
                    backward: Seq::empty(),
                },
            ),
    {
        let ghost g0 = self@;
        let k = self.nodes.len();
        proof {
            lemma_conns_at(g0.conns, k, true);
            lemma_conns_at(g0.conns, k, false);
            assert(conns_at(g0.conns, k, true) =~= Seq::empty()) by {
                if conns_at(g0.conns, k, true).len() > 0 {
                    let c0 = conns_at(g0.conns, k, true)[0];
                    assert(conn_fits(g0, g0.conns[c0 as int]));
                }
            }
            assert(conns_at(g0.conns, k, false) =~= Seq::empty()) by {
                if conns_at(g0.conns, k, false).len() > 0 {
                    let c0 = conns_at(g0.conns, k, false)[0];
                    assert(conn_fits(g0, g0.conns[c0 as int]));
                }
            }
        }
        self.nodes.push(NodeGene::new_hidden(id));
        proof {
            let g = self@;
            assert(g.nodes =~= g0.nodes.push(
                NodeView {
                    id,
                    kind: NodeKind::Hidden,
                    forward: Seq::empty(),
                    backward: Seq::empty(),
                },
            ));
            assert(g.conns =~= g0.conns);
            assert forall|j: int, l: int|
                0 <= j < g.nodes.len() && 0 <= l < g.nodes.len() && j != l implies #[trigger] g.nodes[j].id
                != #[trigger] g.nodes[l].id by {
                if j == k {
                    assert(g.nodes[l] == g0.nodes[l]);
                } else if l == k {
                    assert(g.nodes[j] == g0.nodes[j]);
                }
            }
            assert forall|c1: int| 0 <= c1 < g.conns.len() implies conn_fits(
                g,
                #[trigger] g.conns[c1],
            ) by {
                assert(conn_fits(g0, g0.conns[c1]));
            }
        }
        k
    }

    /// Index of the connection `in_node -> out_node`, if there is one.
    pub fn find_conn(&self, in_node: usize, out_node: usize) -> (r: Option<usize>)
        ensures
            r.is_none() <==> !has_pair(self@, in_node, out_node),
            r matches Some(c) ==> c < self@.conns.len() && self@.conns[c as int].in_node == in_node
                && self@.conns[c as int].out_node == out_node,
    {
        let mut c: usize = 0;
        while c < self.conns.len()
            invariant
                c <= self@.conns.len(),
                forall|d: int|
                    0 <= d < c ==> !(#[trigger] self@.conns[d].in_node == in_node
                        && self@.conns[d].out_node == out_node),
            decreases self@.conns.len() - c,
        {
            if self.conns[c].in_node() == in_node && self.conns[c].out_node() == out_node {
                assert(self@.conns[c as int] == self.conns@[c as int]@);
                return Some(c);
            }
            c = c + 1;
        }
        None
    }

    /// Index of the connection that carries `innov`, if there is one.
    pub fn find_innov(&self, innov: u32) -> (r: Option<usize>)
        ensures
            r.is_none() <==> !has_innov(self@, innov),
            r matches Some(c) ==> c < self@.conns.len() && self@.conns[c as int].innov == innov,
    {
        let mut c: usize = 0;
        while c < self.conns.len()
            invariant
                c <= self@.conns.len(),
                forall|d: int| 0 <= d < c ==> #[trigger] self@.conns[d].innov != innov,
            decreases self@.conns.len() - c,
        {
            if self.conns[c].innov() == innov {
                assert(self@.conns[c as int] == self.conns@[c as int]@);
                return Some(c);
            }
            c = c + 1;
        }
        None
    }

    /// Index of the node with identity `id`, if there is one.
    pub fn find_node(&self, id: u32) -> (r: Option<usize>)
        ensures
            r.is_none() <==> !has_id(self@, id),
            r matches Some(k) ==> k < self@.nodes.len() && self@.nodes[k as int].id == id,
    {
        let mut k: usize = 0;
        while k < self.nodes.len()
            invariant
                k <= self@.nodes.len(),
                forall|j: int| 0 <= j < k ==> #[trigger] self@.nodes[j].id != id,
            decreases self@.nodes.len() - k,
        {
            if self.nodes[k].id() == id {
                assert(self@.nodes[k as int] == self.nodes@[k as int]@);
                return Some(k);
            }
            k = k + 1;
        }
        None
    }

    /// The indices of all connections, in increasing order of innovation.
    /// Connections are stored in order of insertion, so that the indices that
    /// the edge lists hold stay valid; this is the genome's connection set in
    /// the order of its historical markings.
    pub fn innovation_order(&self) -> (r: Vec<usize>)
        requires
            self.wf(),
        ensures
            r@.len() == self@.conns.len(),
            forall|c: usize| r@.contains(c) <==> c < self@.conns.len(),
            forall|i: int, j: int|
                0 <= i < j < r@.len() ==> self@.conns[r@[i] as int].innov < self@.conns[r@[j] as int].innov,
    {
        let ghost g = self@;
        let mut r: Vec<usize> = Vec::new();
        let mut c: usize = 0;
        while c < self.conns.len()
            invariant
                g == self@,
                genome_wf(g),
                c <= g.conns.len(),
                r@.len() == c,
                forall|d: usize| r@.contains(d) <==> d < c,
                forall|i: int| 0 <= i < r@.len() ==> #[trigger] r@[i] < c,
                forall|i: int, j: int|
                    0 <= i < j < r@.len() ==> g.conns[r@[i] as int].innov < g.conns[r@[j] as int].innov,
            decreases g.conns.len() - c,
        {
            let x = self.conns[c].innov();
            let mut p: usize = 0;
            while p < r.len() && self.conns[r[p]].innov() < x
                invariant
                    g == self@,
                    r@.len() == c,
                    c < g.conns.len(),
                    forall|d: usize| r@.contains(d) <==> d < c,
                    forall|i: int| 0 <= i < r@.len() ==> #[trigger] r@[i] < c,
                    forall|i: int, j: int|
                        0 <= i < j < r@.len() ==> g.conns[r@[i] as int].innov < g.conns[r@[j] as int].innov,
                    x == g.conns[c as int].innov,
                    p <= r@.len(),
                    forall|i: int| 0 <= i < p ==> g.conns[(#[trigger] r@[i]) as int].innov < x,
                decreases r@.len() - p,
            {
                proof {
                    assert(r@.contains(r@[p as int]));
                }
                p = p + 1;
            }
            let ghost s = r@;
            proof {
                if p < s.len() {
                    assert(s.contains(s[p as int]));
                    assert(g.conns[s[p as int] as int].innov != x);
                }
                assert(g.conns[c as int] == self.conns@[c as int]@);
            }
            r.insert(p, c);
            proof {
                assert(r@ == s.insert(p as int, c));
                assert forall|d: usize| r@.contains(d) <==> d < c + 1 by {
                    if r@.contains(d) {
                        let k = choose|k: int| 0 <= k < r@.len() && r@[k] == d;
                        if k < p {
                            assert(s[k] == d);
                            assert(s.contains(d));
                        } else if k > p {
                            assert(s[k - 1] == d);
                            assert(s.contains(d));
                        }
                    }
                    if d < c {
                        assert(s.contains(d));
                        let k = choose|k: int| 0 <= k < s.len() && s[k] == d;
                        if k < p {
                            assert(r@[k] == d);
                        } else {
                            assert(r@[k + 1] == d);
                        }
                    }
                    if d == c {
                        assert(r@[p as int] == d);
                    }
                }
                assert forall|i: int| 0 <= i < r@.len() implies #[trigger] r@[i] < c + 1 by {
                    if i < p {
                        assert(r@[i] == s[i]);
                    } else if i > p {
                        assert(r@[i] == s[i - 1]);
                    }
                }
                assert forall|i: int, j: int| 0 <= i < j < r@.len() implies g.conns[r@[i] as int].innov
                    < g.conns[r@[j] as int].innov by {
                    if j < p {
                        assert(r@[i] == s[i] && r@[j] == s[j]);
                    } else if j == p {
                        assert(r@[i] == s[i]);
                    } else if i < p {
                        assert(r@[i] == s[i] && r@[j] == s[j - 1]);
                        assert(g.conns[s[p as int] as int].innov > x);
                        if j - 1 > p {
                            assert(g.conns[s[p as int] as int].innov < g.conns[s[j - 1] as int].innov);
                        }
                    } else if i == p {
                        assert(r@[j] == s[j - 1]);
                        assert(g.conns[s[p as int] as int].innov > x);
                        if j - 1 > p {
                            assert(g.conns[s[p as int] as int].innov < g.conns[s[j - 1] as int].innov);
                        }
                    } else {
                        assert(r@[i] == s[i - 1] && r@[j] == s[j - 1]);
                    }
                }
            }
            c = c + 1;
        }
        r
    }

    /// Bit pattern of the fitness, once set.
    pub fn fitness(&self) -> (r: Option<u32>)
        ensures
            r == self@.fitness,
    {
        self.fitness
    }

    /// Records the fitness (by its bit pattern).
    pub fn set_fitness(&mut self, fitness: u32)
        ensures
            final(self)@ == (GenomeView { fitness: Some(fitness), ..old(self)@ }),
    {
        self.fitness = Some(fitness);
        assert(self@.nodes =~= old(self)@.nodes);
        assert(self@.conns =~= old(self)@.conns);
    }
}

} // verus!
