use crate::genes::NodeKind;
use crate::genome::{conn_fits, conns_at, genome_wf, lemma_conns_at, FeedForwardGenome, GenomeView};
use crate::mutation::{acyclic, lemma_reach_trans, reach_within, reaches};
use vstd::set_lib::{lemma_int_range, lemma_len_subset, lemma_subset_equality, set_int_range};
use vstd::prelude::*;

verus! {

/// The numeric side of activation, over values of type `V`: the library
/// decides the order of evaluation and which connections carry signal, the
/// implementation does the arithmetic. Each operation is a function of its
/// arguments, named by a spec function.
pub trait Activation<V> {
    spec fn spec_zero(&self) -> V;

    spec fn spec_accumulate(&self, acc: V, x: V, weight: u32) -> V;

    spec fn spec_activate(&self, x: V) -> V;

    /// The value of a node before any signal reaches it.
    fn zero(&self) -> (r: V)
        ensures
            r == self.spec_zero(),
    ;

    /// `acc + x * w`, where `w` is the weight whose bit pattern is `weight`.
    fn accumulate(&self, acc: &V, x: &V, weight: u32) -> (r: V)
        ensures
            r == self.spec_accumulate(*acc, *x, weight),
    ;

    /// The activation function applied to a node's accumulated input.
    fn activate(&self, x: &V) -> (r: V)
        ensures
            r == self.spec_activate(*x),
    ;
}

/// Why activation did not run.
#[derive(Clone, Copy, Debug, PartialEq, Eq, Structural)]
pub enum ActivationError {
    /// The input vector's length differs from the genome's input arity.
    InputLength,
}

/// Rank of a node kind in the evaluation order: inputs, hidden, outputs.
pub open spec fn kind_rank(k: NodeKind) -> int {
    match k {
        NodeKind::Input => 0,
        NodeKind::Hidden => 1,
        NodeKind::Output => 2,
    }
}

/// Node `a` precedes node `b` in the evaluation preference: by kind
/// (inputs, hidden, outputs), then by more entering connections, then by
/// index.
pub open spec fn precedes(g: GenomeView, a: usize, b: usize) -> bool {
    let ra = kind_rank(g.nodes[a as int].kind);
    let rb = kind_rank(g.nodes[b as int].kind);
    let da = g.nodes[a as int].backward.len();
    let db = g.nodes[b as int].backward.len();
    ra < rb || (ra == rb && da > db) || (ra == rb && da == db && a < b)
}

/// Node `k` is not yet evaluated and every enabled connection into it comes
/// from an evaluated node.
pub open spec fn ready(g: GenomeView, done: Seq<usize>, k: usize) -> bool {
    &&& k < g.nodes.len()
    &&& !done.contains(k)
    &&& forall|c: int|
        0 <= c < g.conns.len() && (#[trigger] g.conns[c]).enabled && g.conns[c].out_node == k
            ==> done.contains(g.conns[c].in_node)
}

/// `k` is the ready node that precedes every other ready node.
pub open spec fn is_first_ready(g: GenomeView, done: Seq<usize>, k: usize) -> bool {
    &&& ready(g, done, k)
    &&& forall|j: usize| #[trigger] ready(g, done, j) && j != k ==> precedes(g, k, j)
}

/// The ready node that comes first in the evaluation preference, if any.
pub open spec fn first_ready(g: GenomeView, done: Seq<usize>) -> Option<usize> {
    if exists|k: usize| is_first_ready(g, done, k) {
        Some(choose|k: usize| is_first_ready(g, done, k))
    } else {
        None
    }
}

/// `done` extended by taking, at most `fuel` times, the first ready node.
pub open spec fn order_from(g: GenomeView, done: Seq<usize>, fuel: nat) -> Seq<usize>
    decreases fuel,
{
    if fuel == 0 {
        done
    } else {
        match first_ready(g, done) {
            Some(k) => order_from(g, done.push(k), (fuel - 1) as nat),
            None => done,
        }
    }
}

/// The order in which activation evaluates the nodes of `g`: repeatedly,
/// among the nodes whose enabled inputs are all evaluated, the first by kind
/// (inputs, hidden, outputs), then by more entering connections, then by
/// index. Nodes on a cycle of enabled connections never become ready.
pub open spec fn activation_order_of(g: GenomeView) -> Seq<usize> {
    order_from(g, Seq::empty(), g.nodes.len())
}

/// The nodes of `order` are distinct, and each comes after the sources of
/// all enabled connections into it.
pub open spec fn is_topological(g: GenomeView, order: Seq<usize>) -> bool {
    &&& forall|i: int, j: int|
        0 <= i < order.len() && 0 <= j < order.len() && i != j ==> #[trigger] order[i]
            != #[trigger] order[j]
    &&& forall|j: int| 0 <= j < order.len() ==> #[trigger] order[j] < g.nodes.len()
    &&& forall|j: int, c: int|
        0 <= j < order.len() && 0 <= c < g.conns.len() && (#[trigger] g.conns[c]).enabled
            && g.conns[c].out_node == #[trigger] order[j] ==> exists|i: int|
            0 <= i < j && order[i] == g.conns[c].in_node
}

proof fn lemma_first_ready(g: GenomeView, done: Seq<usize>)
    ensures
        first_ready(g, done) matches Some(k) ==> ready(g, done, k),
{
}

/// Taking a ready node keeps an order topological.
proof fn lemma_push_ready(g: GenomeView, done: Seq<usize>, k: usize)
    requires
        is_topological(g, done),
        ready(g, done, k),
    ensures
        is_topological(g, done.push(k)),
{
    let next = done.push(k);
    assert forall|j: int, c: int|
        0 <= j < next.len() && 0 <= c < g.conns.len() && (#[trigger] g.conns[c]).enabled
            && g.conns[c].out_node == #[trigger] next[j] implies exists|i: int|
        0 <= i < j && next[i] == g.conns[c].in_node by {
        if j < done.len() {
            let i = choose|i: int| 0 <= i < j && done[i] == g.conns[c].in_node;
            assert(next[i] == done[i]);
        } else {
            assert(done.contains(g.conns[c].in_node));
            let i = choose|i: int| 0 <= i < done.len() && done[i] == g.conns[c].in_node;
            assert(next[i] == done[i]);
        }
    }
    assert forall|i: int, j: int|
        0 <= i < next.len() && 0 <= j < next.len() && i != j implies #[trigger] next[i]
        != #[trigger] next[j] by {
        if i == done.len() {
            assert(done[j] == next[j]);
        } else if j == done.len() {
            assert(done[i] == next[i]);
        } else {
            assert(done[i] == next[i] && done[j] == next[j]);
        }
    }
}

proof fn lemma_order_from(g: GenomeView, done: Seq<usize>, fuel: nat)
    requires
        is_topological(g, done),
    ensures
        is_topological(g, order_from(g, done, fuel)),
    decreases fuel,
{
    if fuel > 0 {
        if let Some(k) = first_ready(g, done) {
            lemma_first_ready(g, done);
            lemma_push_ready(g, done, k);
            lemma_order_from(g, done.push(k), (fuel - 1) as nat);
        }
    }
}

/// The activation order visits distinct nodes, each after the sources of
/// all enabled connections into it: signal only flows forward.
pub proof fn lemma_activation_order_topological(g: GenomeView)
    ensures
        is_topological(g, activation_order_of(g)),
{
    lemma_order_from(g, Seq::empty(), g.nodes.len());
}

impl FeedForwardGenome {
    /// Whether node `a` precedes node `b` in the evaluation preference.
    fn precedes(&self, a: usize, b: usize) -> (r: bool)
        requires
            a < self@.nodes.len(),
            b < self@.nodes.len(),
        ensures
            r == precedes(self@, a, b),
    {
        let ra: u8 = match self.node(a).kind() {
            NodeKind::Input => 0,
            NodeKind::Hidden => 1,
            NodeKind::Output => 2,
        };
        let rb: u8 = match self.node(b).kind() {
            NodeKind::Input => 0,
            NodeKind::Hidden => 1,
            NodeKind::Output => 2,
        };
        let da = self.node(a).backward_conns();
        let db = self.node(b).backward_conns();
        ra < rb || (ra == rb && da > db) || (ra == rb && da == db && a < b)
    }

    /// Whether every enabled connection into node `k` starts at a node
    /// flagged in `flags`.
    fn inputs_done(&self, k: usize, flags: &Vec<bool>, done: Ghost<Seq<usize>>) -> (r: bool)
        requires
            self.wf(),
            k < self@.nodes.len(),
            flags@.len() == self@.nodes.len(),
            forall|x: int| 0 <= x < flags@.len() ==> (flags@[x] <==> done@.contains(x as usize)),
        ensures
            r == forall|c: int|
                0 <= c < self@.conns.len() && (#[trigger] self@.conns[c]).enabled
                    && self@.conns[c].out_node == k ==> done@.contains(self@.conns[c].in_node),
    {
        let ghost g = self@;
        let list = self.node(k).iter_backward_conns();
        proof {
            lemma_conns_at(g.conns, k, false);
        }
        let mut j: usize = 0;
        while j < list.len()
            invariant
                g == self@,
                genome_wf(g),
                k < g.nodes.len(),
                list@ == conns_at(g.conns, k, false),
                flags@.len() == g.nodes.len(),
                forall|x: int| 0 <= x < flags@.len() ==> (flags@[x] <==> done@.contains(x as usize)),
                j <= list@.len(),
                forall|i: int|
                    0 <= i < j ==> (g.conns[(#[trigger] list@[i]) as int].enabled ==> done@.contains(
                        g.conns[list@[i] as int].in_node,
                    )),
            decreases list@.len() - j,
        {
            let c = list[j];
            proof {
                lemma_conns_at(g.conns, k, false);
                assert(crate::genome::conn_fits(g, g.conns[c as int]));
            }
            let conn = self.conn(c);
            proof {
            }
            if conn.enabled() && !flags[conn.in_node()] {
                return false;
            }
            j = j + 1;
        }
        proof {
            assert forall|c: int|
                0 <= c < g.conns.len() && (#[trigger] g.conns[c]).enabled && g.conns[c].out_node
                    == k implies done@.contains(g.conns[c].in_node) by {
                assert(list@.contains(c as usize));
                let i = choose|i: int| 0 <= i < list@.len() && list@[i] == c as usize;
            }
        }
        true
    }

    fn first_ready(&self, flags: &Vec<bool>, done: Ghost<Seq<usize>>) -> (r: Option<usize>)
        requires
            self.wf(),
            flags@.len() == self@.nodes.len(),
            forall|x: int| 0 <= x < flags@.len() ==> (flags@[x] <==> done@.contains(x as usize)),
        ensures
            r == first_ready(self@, done@),
    {
        let ghost g = self@;
        let n = self.node_count();
        let mut best: Option<usize> = None;
        let mut k: usize = 0;
        while k < n
            invariant
                g == self@,
                genome_wf(g),
                n == g.nodes.len(),
                flags@.len() == n,
                forall|x: int| 0 <= x < flags@.len() ==> (flags@[x] <==> done@.contains(x as usize)),
                k <= n,
                best.is_none() ==> forall|j: usize| j < k ==> !#[trigger] ready(g, done@, j),
                best matches Some(b) ==> b < k && ready(g, done@, b) && forall|j: usize|
                    j < k && #[trigger] ready(g, done@, j) && j != b ==> precedes(g, b, j),
            decreases n - k,
        {
            if !flags[k] && self.inputs_done(k, flags, done) {
                match best {
                    None => {
                        best = Some(k);
                    },
                    Some(b) => {
                        if self.precedes(k, b) {
                            best = Some(k);
                        }
                    },
                }
            }
            k = k + 1;
        }
        proof {
            match best {
                None => {
                    assert(!exists|k: usize| is_first_ready(g, done@, k));
                },
                Some(b) => {
                    assert forall|j: usize| #[trigger] ready(g, done@, j) && j != b implies precedes(g, b, j) by {
                        assert(j < n);
                    }
                    assert(is_first_ready(g, done@, b));
                    let c = choose|c: usize| is_first_ready(g, done@, c);
                    if c != b {
                        assert(precedes(g, b, c));
                        assert(precedes(g, c, b));
                    }
                },
            }
        }
        best
    }

    /// The order in which activation evaluates the nodes.
    pub fn activation_order(&self) -> (r: Vec<usize>)
        requires
            self.wf(),
        ensures
            r@ == activation_order_of(self@),
            is_topological(self@, r@),
            acyclic(self@) ==> forall|x: usize| x < self@.nodes.len() ==> r@.contains(x),
    {
        let ghost g = self@;
        let n = self.node_count();
        let mut flags: Vec<bool> = Vec::new();
        let mut k: usize = 0;
        while k < n
            invariant
                k <= n,
                flags@.len() == k,
                forall|x: int| 0 <= x < k ==> !flags@[x],
            decreases n - k,
        {
            flags.push(false);
            k = k + 1;
        }
        let mut done: Vec<usize> = Vec::new();
        let mut fuel: usize = n;
        let mut stop = false;
        while fuel > 0 && !stop
            invariant
                g == self@,
                genome_wf(g),
                n == g.nodes.len(),
                flags@.len() == n,
                forall|x: int| 0 <= x < n ==> (flags@[x] <==> done@.contains(x as usize)),
                order_from(g, done@, fuel as nat) == activation_order_of(g),
                stop ==> order_from(g, done@, fuel as nat) == done@,
            decreases fuel + if stop {
                0int
            } else {
                1int
            },
        {
            match self.first_ready(&flags, Ghost(done@)) {
                None => {
                    stop = true;
                },
                Some(k) => {
                    proof {
                        lemma_first_ready(g, done@);
                    }
                    let ghost d0 = done@;
                    done.push(k);
                    flags.set(k, true);
                    fuel = fuel - 1;
                    proof {
                        assert forall|x: int| 0 <= x < n implies (flags@[x] <==> done@.contains(
                            x as usize,
                        )) by {
                            if x == k {
                                assert(done@[done@.len() - 1] == k);
                            } else {
                                if done@.contains(x as usize) {
                                    let i = choose|i: int| 0 <= i < done@.len() && done@[i] == x as usize;
                                    assert(d0[i] == x as usize);
                                }
                                if d0.contains(x as usize) {
                                    let i = choose|i: int| 0 <= i < d0.len() && d0[i] == x as usize;
                                    assert(done@[i] == x as usize);
                                }
                            }
                        }
                    }
                },
            }
        }
        proof {
            lemma_activation_order_topological(g);
            if acyclic(g) {
                lemma_activation_order_complete(g);
            }
        }
        done
    }

    /// Runs the network on `input`, one value per input node, and returns the
    /// value of each output node, in output order (see `outputs_of`).
    ///
    /// Input nodes start from their input value and every other node from
    /// `zero`. Nodes are evaluated in `activation_order`: a node's value is
    /// the activation function applied to what it accumulated, and each
    /// enabled connection leaving it adds that value times the connection's
    /// weight to its end node. An output node yields the activation function
    /// applied to what it accumulated, `zero` when no signal reached it.
    pub fn activate<V, A: Activation<V>>(&self, act: &A, input: Vec<V>) -> (r: Result<
        Vec<V>,
        ActivationError,
    >)
        requires
            self.wf(),
        ensures
            r is Err <==> input@.len() != self@.input_len,
            r matches Ok(out) ==> out@ == outputs_of(self@, *act, input@),
    {
        let ghost g = self@;
        let n = self.node_count();
        let il = self.input_len();
        let ol = self.output_len();
        if input.len() != il {
            return Err(ActivationError::InputLength);
        }
        let ghost init = initial(g, *act, input@);
        let mut acc: Vec<V> = input;
        let mut k: usize = il;
        while k < n
            invariant
                g == self@,
                genome_wf(g),
                n == g.nodes.len(),
                il == g.input_len,
                init == initial(g, *act, input@),
                input@.len() == il,
                il <= k <= n,
                acc@ == init.subrange(0, k as int),
            decreases n - k,
        {
            acc.push(act.zero());
            k = k + 1;
            proof {
                assert(acc@ =~= init.subrange(0, k as int));
            }
        }
        proof {
            assert(acc@ =~= init);
        }
        let order = self.activation_order();
        let mut j: usize = 0;
        while j < order.len()
            invariant
                g == self@,
                genome_wf(g),
                n == g.nodes.len(),
                acc@.len() == n,
                order@ == activation_order_of(g),
                is_topological(g, order@),
                j <= order@.len(),
                acc@ == run(g, *act, init, order@, j as nat),
            decreases order@.len() - j,
        {
            let k = order[j];
            let ghost before = acc@;
            if self.node(k).kind() != NodeKind::Output {
                let v = act.activate(&acc[k]);
                let list = self.node(k).iter_forward_conns();
                proof {
                    lemma_conns_at(g.conns, k, true);
                }
                let mut i: usize = 0;
                while i < list.len()
                    invariant
                        g == self@,
                        genome_wf(g),
                        n == g.nodes.len(),
                        acc@.len() == n,
                        k < n,
                        list@ == conns_at(g.conns, k, true),
                        list@ == g.nodes[k as int].forward,
                        i <= list@.len(),
                        acc@ == spread(g, *act, before, v, list@, i as nat),
                    decreases list@.len() - i,
                {
                    let c = list[i];
                    proof {
                        lemma_conns_at(g.conns, k, true);
                    }
                    let conn = self.conn(c);
                    proof {
                        assert(crate::genome::conn_fits(g, g.conns[c as int]));
                    }
                    if conn.enabled() {
                        let o = conn.out_node();
                        let next = act.accumulate(&acc[o], &v, conn.weight());
                        acc.set(o, next);
                    }
                    i = i + 1;
                }
            }
            j = j + 1;
        }
        let ghost fin = acc@;
        let mut out: Vec<V> = Vec::new();
        let mut o: usize = il;
        while o < il + ol
            invariant
                n == g.nodes.len(),
                il == g.input_len,
                ol == g.output_len,
                il + ol <= n,
                acc@ == fin,
                acc@.len() == n,
                il <= o <= il + ol,
                out@ == Seq::new((o - il) as nat, |x: int| act.spec_activate(fin[il + x])),
            decreases il + ol - o,
        {
            out.push(act.activate(&acc[o]));
            o = o + 1;
            proof {
                assert(out@ =~= Seq::new((o - il) as nat, |x: int| act.spec_activate(fin[il + x])));
            }
        }
        Ok(out)
    }
}

/// What `activate` starts from: the inputs' values, then `zero` for every
/// other node.
pub open spec fn initial<V, A: Activation<V>>(g: GenomeView, act: A, input: Seq<V>) -> Seq<V> {
    input + Seq::new((g.nodes.len() - g.input_len) as nat, |i: int| act.spec_zero())
}

/// `acc` after the first `i` connections of `list` carried the value `v`:
/// each enabled one adds `v` times its weight to its end node.
pub open spec fn spread<V, A: Activation<V>>(
    g: GenomeView,
    act: A,
    acc: Seq<V>,
    v: V,
    list: Seq<usize>,
    i: nat,
) -> Seq<V>
    decreases i,
{
    if i == 0 {
        acc
    } else {
        let a = spread(g, act, acc, v, list, (i - 1) as nat);
        let c = g.conns[list[i - 1] as int];
        if c.enabled {
            a.update(c.out_node as int, act.spec_accumulate(a[c.out_node as int], v, c.weight))
        } else {
            a
        }
    }
}

/// `acc` after evaluating node `k`: unless it is an output, its activated
/// value is carried along every connection leaving it.
pub open spec fn visit<V, A: Activation<V>>(g: GenomeView, act: A, acc: Seq<V>, k: usize) -> Seq<V> {
    if g.nodes[k as int].kind == NodeKind::Output {
        acc
    } else {
        let list = g.nodes[k as int].forward;
        spread(g, act, acc, act.spec_activate(acc[k as int]), list, list.len())
    }
}

/// `acc` after evaluating the first `j` nodes of `order`.
pub open spec fn run<V, A: Activation<V>>(
    g: GenomeView,
    act: A,
    acc: Seq<V>,
    order: Seq<usize>,
    j: nat,
) -> Seq<V>
    decreases j,
{
    if j == 0 {
        acc
    } else {
        visit(g, act, run(g, act, acc, order, (j - 1) as nat), order[j - 1])
    }
}

/// The output values of `g` on `input`: each output node's accumulated value,
/// after all nodes were evaluated in `activation_order_of(g)`, through the
/// activation function.
pub open spec fn outputs_of<V, A: Activation<V>>(g: GenomeView, act: A, input: Seq<V>) -> Seq<V> {
    let order = activation_order_of(g);
    let fin = run(g, act, initial(g, act, input), order, order.len());
    Seq::new(g.output_len, |j: int| act.spec_activate(fin[g.input_len + j]))
}

/// Some path of at least one connection leads from `y` to `x`.
pub open spec fn reaches_plus(g: GenomeView, y: usize, x: usize) -> bool {
    exists|c: int|
        0 <= c < g.conns.len() && (#[trigger] g.conns[c]).out_node == x && reaches(
            g,
            y,
            g.conns[c].in_node,
        )
}

/// The unevaluated nodes from which a path leads to `x`.
pub open spec fn pending_before(g: GenomeView, done: Seq<usize>, x: usize) -> Set<int> {
    Set::new(
        |y: int| 0 <= y < g.nodes.len() && !done.contains(y as usize) && reaches_plus(g, y as usize, x),
    )
}

proof fn lemma_reaches_plus_trans(g: GenomeView, z: usize, y: usize, x: usize)
    requires
        reaches_plus(g, z, y),
        reaches_plus(g, y, x),
    ensures
        reaches_plus(g, z, x),
{
    let c1 = choose|c1: int|
        0 <= c1 < g.conns.len() && (#[trigger] g.conns[c1]).out_node == y && reaches(
            g,
            z,
            g.conns[c1].in_node,
        );
    let n1 = choose|n1: nat| #[trigger] reach_within(g, z, g.conns[c1].in_node, n1);
    assert(reach_within(g, z, y, n1 + 1));
    let c = choose|c: int|
        0 <= c < g.conns.len() && (#[trigger] g.conns[c]).out_node == x && reaches(
            g,
            y,
            g.conns[c].in_node,
        );
    let m = choose|m: nat| #[trigger] reach_within(g, y, g.conns[c].in_node, m);
    lemma_reach_trans(g, z, y, g.conns[c].in_node, m);
}

/// In an acyclic genome, while some node is unevaluated, some node is ready.
proof fn lemma_exists_ready(g: GenomeView, done: Seq<usize>, x: usize, bound: nat)
    requires
        genome_wf(g),
        acyclic(g),
        x < g.nodes.len(),
        !done.contains(x),
        pending_before(g, done, x).len() <= bound,
    ensures
        exists|k: usize| ready(g, done, k),
    decreases bound,
{
    let n = g.nodes.len() as int;
    let r = pending_before(g, done, x);
    lemma_int_range(0, n);
    assert(r.subset_of(set_int_range(0, n)));
    lemma_len_subset(r, set_int_range(0, n));
    if r.is_empty() {
        assert forall|c: int|
            0 <= c < g.conns.len() && (#[trigger] g.conns[c]).enabled && g.conns[c].out_node == x
                implies done.contains(g.conns[c].in_node) by {
            assert(conn_fits(g, g.conns[c]));
            let p = g.conns[c].in_node;
            assert(reach_within(g, p, p, 0));
            assert(reaches_plus(g, p, x));
            if !done.contains(p) {
                assert(r.contains(p as int));
            }
        }
        assert(ready(g, done, x));
    } else {
        let y = r.choose();
        assert(r.contains(y));
        let yu = y as usize;
        let ry = pending_before(g, done, yu);
        assert forall|z: int| ry.contains(z) implies r.remove(y).contains(z) by {
            lemma_reaches_plus_trans(g, z as usize, yu, x);
            if z == y {
                let c = choose|c: int|
                    0 <= c < g.conns.len() && (#[trigger] g.conns[c]).out_node == yu && reaches(
                        g,
                        yu,
                        g.conns[c].in_node,
                    );
                assert(!reaches(g, g.conns[c].out_node, g.conns[c].in_node));
            }
        }
        assert(ry.subset_of(r.remove(y)));
        lemma_len_subset(ry, r.remove(y));
        lemma_exists_ready(g, done, yu, (bound - 1) as nat);
    }
}

/// Among the ready nodes below `m`, if any, one precedes all others.
proof fn lemma_first_ready_exists(g: GenomeView, done: Seq<usize>, m: nat)
    requires
        exists|j: usize| j < m && #[trigger] ready(g, done, j),
    ensures
        exists|k: usize|
            k < m && ready(g, done, k) && forall|j: usize|
                j < m && #[trigger] ready(g, done, j) && j != k ==> precedes(g, k, j),
    decreases m,
{
    let last = (m - 1) as usize;
    if exists|j: usize| j < m - 1 && #[trigger] ready(g, done, j) {
        lemma_first_ready_exists(g, done, (m - 1) as nat);
        let k = choose|k: usize|
            k < m - 1 && ready(g, done, k) && forall|j: usize|
                j < m - 1 && #[trigger] ready(g, done, j) && j != k ==> precedes(g, k, j);
        if ready(g, done, last) && precedes(g, last, k) {
            assert forall|j: usize| j < m && #[trigger] ready(g, done, j) && j != last implies precedes(
                g,
                last,
                j,
            ) by {
                if j != k {
                    assert(precedes(g, k, j));
                }
            }
        } else {
            assert forall|j: usize| j < m && #[trigger] ready(g, done, j) && j != k implies precedes(
                g,
                k,
                j,
            ) by {
                if j == last {
                    assert(!precedes(g, last, k));
                }
            }
        }
    } else {
        assert forall|j: usize| j < m && #[trigger] ready(g, done, j) && j != last implies precedes(
            g,
            last,
            j,
        ) by {
            assert(j < m - 1);
        }
    }
}

/// `s` lists distinct nodes below `n`, at least `n` of them: all of them.
proof fn lemma_all_listed(s: Seq<usize>, n: usize)
    requires
        forall|i: int, j: int|
            0 <= i < s.len() && 0 <= j < s.len() && i != j ==> #[trigger] s[i] != #[trigger] s[j],
        forall|i: int| 0 <= i < s.len() ==> #[trigger] s[i] < n,
        s.len() >= n,
    ensures
        forall|x: usize| x < n ==> s.contains(x),
{
    broadcast use vstd::set_lib::range_set_properties;

    assert(s.no_duplicates());
    s.unique_seq_to_set();
    let r = Set::<usize>::range(0, n);
    assert(s.to_set().subset_of(r));
    lemma_len_subset(s.to_set(), r);
    lemma_subset_equality(s.to_set(), r);
    assert forall|x: usize| x < n implies s.contains(x) by {
        assert(r.contains(x));
        assert(s.to_set().contains(x));
    }
}

proof fn lemma_order_covers(g: GenomeView, done: Seq<usize>, fuel: nat)
    requires
        genome_wf(g),
        acyclic(g),
        is_topological(g, done),
        done.len() + fuel >= g.nodes.len(),
    ensures
        forall|x: usize| x < g.nodes.len() ==> order_from(g, done, fuel).contains(x),
    decreases fuel,
{
    let n = g.nodes.len();
    if fuel == 0 {
        lemma_all_listed(done, n as usize);
        assert(order_from(g, done, fuel) == done);
    } else {
        match first_ready(g, done) {
            Some(k) => {
                lemma_first_ready(g, done);
                lemma_push_ready(g, done, k);
                lemma_order_covers(g, done.push(k), (fuel - 1) as nat);
                assert(order_from(g, done, fuel) == order_from(g, done.push(k), (fuel - 1) as nat));
            },
            None => {
                assert forall|x: usize| x < n implies done.contains(x) by {
                    if !done.contains(x) {
                        lemma_int_range(0, n as int);
                        assert(pending_before(g, done, x).subset_of(set_int_range(0, n as int)));
                        lemma_len_subset(pending_before(g, done, x), set_int_range(0, n as int));
                        lemma_exists_ready(g, done, x, pending_before(g, done, x).len());
                        let j = choose|j: usize| ready(g, done, j);
                        lemma_first_ready_exists(g, done, n);
                        let k = choose|k: usize|
                            k < n && ready(g, done, k) && forall|j: usize|
                                j < n && #[trigger] ready(g, done, j) && j != k ==> precedes(g, k, j);
                        assert forall|j: usize| #[trigger] ready(g, done, j) && j != k implies precedes(g, k, j) by {
                            assert(j < n);
                        }
                        assert(is_first_ready(g, done, k));
                    }
                }
                assert(order_from(g, done, fuel) == done);
            },
        }
    }
}

/// In an acyclic genome activation evaluates every node, outputs included.
pub proof fn lemma_activation_order_complete(g: GenomeView)
    requires
        genome_wf(g),
        acyclic(g),
    ensures
        forall|x: usize| x < g.nodes.len() ==> activation_order_of(g).contains(x),
{
    lemma_order_covers(g, Seq::empty(), g.nodes.len());
}

} // verus!
