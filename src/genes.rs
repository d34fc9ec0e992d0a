use vstd::prelude::*;

verus! {

/// The role of a node; fixed when the node is created.
#[derive(Clone, Copy, Debug, PartialEq, Eq, Structural)]
pub enum NodeKind {
    Input,
    Hidden,
    Output,
}

/// Abstract state of a [`NodeGene`].
pub ghost struct NodeView {
    pub id: u32,
    pub kind: NodeKind,
    /// Indices of the connections that leave this node, increasing.
    pub forward: Seq<usize>,
    /// Indices of the connections that enter this node, increasing.
    pub backward: Seq<usize>,
}

/// One neuron: its identity, its kind, and the connections on either side of
/// it, as indices into the owning genome's connection list. An input node
/// never gains entering connections and an output node never gains leaving
/// ones.
#[derive(Debug)]
pub struct NodeGene {
    id: u32,
    kind: NodeKind,
    forward: Vec<usize>,
    backward: Vec<usize>,
}

impl View for NodeGene {
    type V = NodeView;

    closed spec fn view(&self) -> NodeView {
        NodeView { id: self.id, kind: self.kind, forward: self.forward@, backward: self.backward@ }
    }
}

impl NodeGene {
    fn new(id: u32, kind: NodeKind) -> (r: NodeGene)
        ensures
            r@ == (NodeView { id, kind, forward: Seq::empty(), backward: Seq::empty() }),
    {
        NodeGene { id, kind, forward: Vec::new(), backward: Vec::new() }
    }

    /// An input node with identity `id` and no connections.
    pub fn new_input(id: u32) -> (r: NodeGene)
        ensures
            r@ == (NodeView {
                id,
                kind: NodeKind::Input,
                forward: Seq::empty(),
                backward: Seq::empty(),
            }),
    {
        NodeGene::new(id, NodeKind::Input)
    }

    /// A hidden node with identity `id` and no connections.
    pub fn new_hidden(id: u32) -> (r: NodeGene)
        ensures
            r@ == (NodeView {
                id,
                kind: NodeKind::Hidden,
                forward: Seq::empty(),
                backward: Seq::empty(),
            }),
    {
        NodeGene::new(id, NodeKind::Hidden)
    }

    /// An output node with identity `id` and no connections.
    pub fn new_output(id: u32) -> (r: NodeGene)
        ensures
            r@ == (NodeView {
                id,
                kind: NodeKind::Output,
                forward: Seq::empty(),
                backward: Seq::empty(),
            }),
    {
        NodeGene::new(id, NodeKind::Output)
    }

    pub fn id(&self) -> (r: u32)
        ensures
            r == self@.id,
    {
        self.id
    }

    pub fn kind(&self) -> (r: NodeKind)
        ensures
            r == self@.kind,
    {
        self.kind
    }

    /// Number of connections leaving this node.
    pub fn forward_conns(&self) -> (r: usize)
        ensures
            r == self@.forward.len(),
    {
        self.forward.len()
    }

    /// Number of connections entering this node.
    pub fn backward_conns(&self) -> (r: usize)
        ensures
            r == self@.backward.len(),
    {
        self.backward.len()
    }

    /// The connections leaving this node, by increasing index (the owning
    /// genome's order of insertion).
    pub fn iter_forward_conns(&self) -> (r: &Vec<usize>)
        ensures
            r@ == self@.forward,
    {
        &self.forward
    }

    /// The connections entering this node, by increasing index (the owning
    /// genome's order of insertion).
    pub fn iter_backward_conns(&self) -> (r: &Vec<usize>)
        ensures
            r@ == self@.backward,
    {
        &self.backward
    }

    /// Adds `conn` to the leaving connections, as a set: nothing changes when
    /// it is recorded already; an output node records none.
    pub fn insert_forward_conn(&mut self, conn: usize)
        ensures
            final(self)@.id == old(self)@.id,
            final(self)@.kind == old(self)@.kind,
            final(self)@.backward == old(self)@.backward,
            old(self)@.kind == NodeKind::Output ==> final(self)@ == old(self)@,
            old(self)@.kind != NodeKind::Output ==> set_inserted(
                old(self)@.forward,
                final(self)@.forward,
                conn,
            ),
    {
        if self.kind != NodeKind::Output {
            insert_into(&mut self.forward, conn);
        }
    }

    /// Adds `conn` to the entering connections, as a set: nothing changes
    /// when it is recorded already; an input node records none.
    pub fn insert_backward_conn(&mut self, conn: usize)
        ensures
            final(self)@.id == old(self)@.id,
            final(self)@.kind == old(self)@.kind,
            final(self)@.forward == old(self)@.forward,
            old(self)@.kind == NodeKind::Input ==> final(self)@ == old(self)@,
            old(self)@.kind != NodeKind::Input ==> set_inserted(
                old(self)@.backward,
                final(self)@.backward,
                conn,
            ),
    {
        if self.kind != NodeKind::Input {
            insert_into(&mut self.backward, conn);
        }
    }
}

/// The entries of `s` increase strictly.
pub open spec fn increasing_indices(s: Seq<usize>) -> bool {
    forall|i: int, j: int| 0 <= i < j < s.len() ==> #[trigger] s[i] < #[trigger] s[j]
}

/// `t` is `s` with `x` added as a set element: `s` itself when `x` is in it,
/// else `s` with `x` inserted before its first larger entry.
pub open spec fn set_inserted(s: Seq<usize>, t: Seq<usize>, x: usize) -> bool {
    if s.contains(x) {
        t == s
    } else {
        exists|p: int|
            0 <= p <= s.len() && t == s.insert(p, x) && (forall|i: int|
                0 <= i < p ==> #[trigger] s[i] < x) && (p < s.len() ==> s[p] > x)
    }
}

/// What a set insertion gives: the old entries and `x`, each once and in
/// increasing order when they were so before, and `x` at the end when it
/// exceeds every entry.
pub proof fn lemma_set_inserted(s: Seq<usize>, t: Seq<usize>, x: usize)
    requires
        set_inserted(s, t, x),
    ensures
        forall|y: usize| t.contains(y) <==> s.contains(y) || y == x,
        increasing_indices(s) ==> increasing_indices(t),
        (forall|i: int| 0 <= i < s.len() ==> #[trigger] s[i] < x) ==> t == s.push(x),
{
    if !s.contains(x) {
        let p = choose|p: int|
            0 <= p <= s.len() && t == s.insert(p, x) && (forall|i: int|
                0 <= i < p ==> #[trigger] s[i] < x) && (p < s.len() ==> s[p] > x);
        assert forall|y: usize| t.contains(y) <==> s.contains(y) || y == x by {
            if t.contains(y) {
                let k = choose|k: int| 0 <= k < t.len() && t[k] == y;
                if k < p {
                    assert(s[k] == y);
                } else if k > p {
                    assert(s[k - 1] == y);
                }
            }
            if s.contains(y) {
                let k = choose|k: int| 0 <= k < s.len() && s[k] == y;
                if k < p {
                    assert(t[k] == y);
                } else {
                    assert(t[k + 1] == y);
                }
            }
            if y == x {
                assert(t[p] == x);
            }
        }
        if increasing_indices(s) {
            assert forall|i: int, j: int| 0 <= i < j < t.len() implies #[trigger] t[i] < #[trigger] t[j] by {
                if j < p {
                    assert(t[i] == s[i] && t[j] == s[j]);
                } else if j == p {
                    assert(t[i] == s[i]);
                } else if i < p {
                    assert(t[i] == s[i] && t[j] == s[j - 1]);
                    assert(s[p] > x);
                    assert(s[i] < x);
                } else if i == p {
                    assert(t[j] == s[j - 1]);
                    assert(s[p] > x);
                    if j - 1 > p {
                        assert(s[p] < s[j - 1]);
                    }
                } else {
                    assert(t[i] == s[i - 1] && t[j] == s[j - 1]);
                }
            }
        }
        if forall|i: int| 0 <= i < s.len() ==> #[trigger] s[i] < x {
            if p < s.len() {
                assert(s[p] < x);
            }
            assert(t =~= s.push(x));
        }
    } else {
        if forall|i: int| 0 <= i < s.len() ==> #[trigger] s[i] < x {
            let k = choose|k: int| 0 <= k < s.len() && s[k] == x;
            assert(s[k] < x);
        }
    }
}

/// Adds `x` to `v` as a set element (see `set_inserted`).
fn insert_into(v: &mut Vec<usize>, x: usize)
    ensures
        set_inserted(old(v)@, final(v)@, x),
{
    let mut k: usize = 0;
    while k < v.len()
        invariant
            k <= v@.len(),
            forall|i: int| 0 <= i < k ==> #[trigger] v@[i] != x,
        decreases v@.len() - k,
    {
        if v[k] == x {
            proof {
                assert(v@.contains(x));
            }
            return;
        }
        k = k + 1;
    }
    let mut p: usize = 0;
    while p < v.len() && v[p] < x
        invariant
            p <= v@.len(),
            forall|i: int| 0 <= i < p ==> #[trigger] v@[i] < x,
        decreases v@.len() - p,
    {
        p = p + 1;
    }
    let ghost s = v@;
    v.insert(p, x);
    proof {
        assert(!s.contains(x));
        assert(p < s.len() ==> s[p as int] != x);
        assert(v@ == s.insert(p as int, x));
    }
}

/// Abstract state of a [`ConnGene`].
pub ghost struct ConnView {
    pub in_node: usize,
    pub out_node: usize,
    /// Bit pattern of the single-precision weight.
    pub weight: u32,
    pub enabled: bool,
    pub innov: u32,
}

/// One weighted edge between two nodes of a genome, named by their indices,
/// with its historical marking.
#[derive(Clone, Copy, Debug, PartialEq, Eq, Structural)]
pub struct ConnGene {
    in_node: usize,
    out_node: usize,
    weight: u32,
    enabled: bool,
    innov: u32,
}

impl View for ConnGene {
    type V = ConnView;

    closed spec fn view(&self) -> ConnView {
        ConnView {
            in_node: self.in_node,
            out_node: self.out_node,
            weight: self.weight,
            enabled: self.enabled,
            innov: self.innov,
        }
    }
}

impl ConnGene {
    /// An enabled connection.
    pub fn new(in_node: usize, out_node: usize, weight: u32, innov: u32) -> (r: ConnGene)
        ensures
            r@ == (ConnView { in_node, out_node, weight, enabled: true, innov }),
    {
        ConnGene { in_node, out_node, weight, enabled: true, innov }
    }

    pub fn in_node(&self) -> (r: usize)
        ensures
            r == self@.in_node,
    {
        self.in_node
    }

    pub fn out_node(&self) -> (r: usize)
        ensures
            r == self@.out_node,
    {
        self.out_node
    }

    /// Bit pattern of the weight.
    pub fn weight(&self) -> (r: u32)
        ensures
            r == self@.weight,
    {
        self.weight
    }

    pub fn enabled(&self) -> (r: bool)
        ensures
            r == self@.enabled,
    {
        self.enabled
    }

    pub fn innov(&self) -> (r: u32)
        ensures
            r == self@.innov,
    {
        self.innov
    }

    pub fn set_weight(&mut self, weight: u32)
        ensures
            final(self)@ == (ConnView { weight, ..old(self)@ }),
    {
        self.weight = weight;
    }

    pub fn set_enabled(&mut self, enabled: bool)
        ensures
            final(self)@ == (ConnView { enabled, ..old(self)@ }),
    {
        self.enabled = enabled;
    }

    pub fn disable(&mut self)
        ensures
            final(self)@ == (ConnView { enabled: false, ..old(self)@ }),
    {
        self.enabled = false;
    }
}

} // verus!
