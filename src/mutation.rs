use crate::genes::{ConnView, NodeKind};
use crate::genome::{
    conn_fits, genome_wf, has_id, has_innov, has_pair, hidden_count, layout_kind, same_nodes,
    split_conns, FeedForwardGenome, GenomeView,
};
use crate::innov::{
    innovation_step, lemma_pair_key_injective, pair_key, tracker_wf, InnovationTracker, TrackerView,
};
use crate::random::{choose_one, shuffle};
use rand::rngs::StdRng;
use vstd::prelude::*;
use vstd::set_lib::{lemma_int_range, lemma_len_subset, set_int_range};

verus! {

broadcast use vstd::seq_lib::group_to_multiset_ensures;

/// Why a structural mutation did nothing.
#[derive(Clone, Copy, Debug, PartialEq, Eq, Structural)]
pub enum MutationError {
    /// No place for the mutation: every admissible connection exists already,
    /// or there is no enabled connection to split.
    NoCandidate,
    /// The tracker has no fresh identifier left, or the genome is full.
    Exhausted,
    /// The tracker's answer clashes with the genome: it names a node or an
    /// innovation that the genome already holds for something else, as
    /// happens when the genome was not built with this tracker.
    Conflict,
}

/// A path of at most `n` connections (enabled or not) leads from `a` to `b`.
pub open spec fn reach_within(g: GenomeView, a: usize, b: usize, n: nat) -> bool
    decreases n,
{
    if n == 0 {
        a == b
    } else {
        reach_within(g, a, b, (n - 1) as nat) || exists|c: int|
            0 <= c < g.conns.len() && #[trigger] g.conns[c].out_node == b && reach_within(
                g,
                a,
                g.conns[c].in_node,
                (n - 1) as nat,
            )
    }
}

/// Some path of connections leads from `a` to `b`.
pub open spec fn reaches(g: GenomeView, a: usize, b: usize) -> bool {
    exists|n: nat| #[trigger] reach_within(g, a, b, n)
}

/// Node `k` may start a new connection: an input or a hidden node.
pub open spec fn is_source(g: GenomeView, k: usize) -> bool {
    k < g.nodes.len() && layout_kind(g, k as int) != NodeKind::Output
}

/// Node `k` may end a new connection: a hidden or an output node.
pub open spec fn is_target(g: GenomeView, k: usize) -> bool {
    k < g.nodes.len() && layout_kind(g, k as int) != NodeKind::Input
}

/// The connection `i -> o` is new and keeps the graph free of cycles.
pub open spec fn link_ok(g: GenomeView, i: usize, o: usize) -> bool {
    i != o && !has_pair(g, i, o) && !reaches(g, o, i)
}

/// `i -> o` is a candidate of the add-connection mutation.
pub open spec fn can_link(g: GenomeView, i: usize, o: usize) -> bool {
    is_source(g, i) && is_target(g, o) && link_ok(g, i, o)
}

/// The genome has room for no new connection.
pub open spec fn saturated(g: GenomeView) -> bool {
    forall|i: usize, o: usize| !#[trigger] can_link(g, i, o)
}

/// The tracker key of connection `c`: the identities of its endpoints.
pub open spec fn conn_key(g: GenomeView, c: int) -> u64 {
    pair_key(g.nodes[g.conns[c].in_node as int].id, g.nodes[g.conns[c].out_node as int].id)
}

/// `g` was built with `t`: the tracker maps the endpoint identities of every
/// connection to that connection's innovation, and every node identity has
/// been handed out already.
pub open spec fn registered_with(g: GenomeView, t: TrackerView) -> bool {
    &&& forall|c: int|
        0 <= c < g.conns.len() ==> t.ids.contains_key(#[trigger] conn_key(g, c)) && t.ids[conn_key(
            g,
            c,
        )] == g.conns[c].innov
    &&& forall|k: int| 0 <= k < g.nodes.len() ==> (#[trigger] g.nodes[k]).id < t.next_node
}

/// A fresh genome is registered with a tracker made for its arity.
pub proof fn lemma_minimal_registered(g: GenomeView, t: TrackerView)
    requires
        genome_wf(g),
        g.conns.len() == 0,
        hidden_count(g) == 0,
        t.next_node >= g.input_len + g.output_len,
    ensures
        registered_with(g, t),
{
    assert forall|k: int| 0 <= k < g.nodes.len() implies (#[trigger] g.nodes[k]).id < t.next_node by {
        assert(g.nodes[k].id == k);
    }
}

/// A tracker that only gained entries keeps `g` registered.
proof fn lemma_registry_grow(g: GenomeView, t0: TrackerView, t1: TrackerView)
    requires
        registered_with(g, t0),
        forall|k: u64| #[trigger] t0.ids.contains_key(k) ==> t1.ids.contains_key(k) && t1.ids[k] == t0.ids[k],
        t1.next_node >= t0.next_node,
    ensures
        registered_with(g, t1),
{
    assert forall|c: int| 0 <= c < g.conns.len() implies t1.ids.contains_key(#[trigger] conn_key(g, c))
        && t1.ids[conn_key(g, c)] == g.conns[c].innov by {
        assert(t0.ids.contains_key(conn_key(g, c)));
    }
}

/// One request only adds entries, and the answer is recorded.
proof fn lemma_step_grows(t0: TrackerView, t1: TrackerView, a: u32, b: u32, x: u32)
    requires
        innovation_step(t0, t1, a, b, Some(x)),
    ensures
        forall|k: u64| #[trigger] t0.ids.contains_key(k) ==> t1.ids.contains_key(k) && t1.ids[k] == t0.ids[k],
        t1.next_node == t0.next_node,
        t1.ids.contains_key(pair_key(a, b)),
        t1.ids[pair_key(a, b)] == x,
{
}

/// Under a tracker that `g` is registered with, the innovation it gives a pair of
/// identities that no connection of `g` joins is not used in `g`.
proof fn lemma_fresh_innov(g: GenomeView, t0: TrackerView, t1: TrackerView, a: u32, b: u32, x: u32)
    requires
        registered_with(g, t0),
        tracker_wf(t0),
        innovation_step(t0, t1, a, b, Some(x)),
        forall|c: int| 0 <= c < g.conns.len() ==> #[trigger] conn_key(g, c) != pair_key(a, b),
    ensures
        !has_innov(g, x),
{
    if has_innov(g, x) {
        let c = choose|c: int| 0 <= c < g.conns.len() && #[trigger] g.conns[c].innov == x;
        let k = conn_key(g, c);
        assert(t0.ids.contains_key(k) && t0.ids[k] == x);
        if t0.ids.contains_key(pair_key(a, b)) {
            assert(t0.ids[pair_key(a, b)] == x);
        }
    }
}

/// No connection of `g` joins the identities of `i` and `o` when none joins
/// `i` to `o`.
proof fn lemma_pair_key_absent(g: GenomeView, i: usize, o: usize)
    requires
        genome_wf(g),
        i < g.nodes.len(),
        o < g.nodes.len(),
        !has_pair(g, i, o),
    ensures
        forall|c: int|
            0 <= c < g.conns.len() ==> #[trigger] conn_key(g, c) != pair_key(
                g.nodes[i as int].id,
                g.nodes[o as int].id,
            ),
{
    assert forall|c: int| 0 <= c < g.conns.len() implies #[trigger] conn_key(g, c) != pair_key(
        g.nodes[i as int].id,
        g.nodes[o as int].id,
    ) by {
        let ci = g.conns[c].in_node;
        let co = g.conns[c].out_node;
        assert(conn_fits(g, g.conns[c]));
        lemma_pair_key_injective(g.nodes[ci as int].id, g.nodes[co as int].id, g.nodes[i as int].id, g.nodes[o as int].id);
        if conn_key(g, c) == pair_key(g.nodes[i as int].id, g.nodes[o as int].id) {
            if ci != i {
                assert(g.nodes[ci as int].id != g.nodes[i as int].id);
            }
            if co != o {
                assert(g.nodes[co as int].id != g.nodes[o as int].id);
            }
            assert(g.conns[c].in_node == i && g.conns[c].out_node == o);
        }
    }
}

/// Some connection of `g` is enabled.
pub open spec fn has_enabled(g: GenomeView) -> bool {
    exists|c: int| 0 <= c < g.conns.len() && #[trigger] g.conns[c].enabled
}

/// `g1` is `g0` with its enabled connection `c` split by a new hidden node at
/// index `h`: `c` disabled but kept, `in -> h` of weight 1.0 and `h -> out`
/// of `c`'s weight appended.
pub open spec fn split_of(g0: GenomeView, g1: GenomeView, c: int, h: usize) -> bool {
    let n = g0.conns.len() as int;
    &&& 0 <= c < n
    &&& g0.conns[c].enabled
    &&& h == g0.nodes.len()
    &&& g1.nodes.len() == h + 1
    &&& g1.input_len == g0.input_len
    &&& g1.output_len == g0.output_len
    &&& g1.fitness == g0.fitness
    &&& forall|k: int|
        0 <= k < h ==> (#[trigger] g1.nodes[k]).id == g0.nodes[k].id && g1.nodes[k].kind
            == g0.nodes[k].kind
    &&& g1.nodes[h as int].kind == NodeKind::Hidden
    &&& g1.conns.len() == n + 2
    &&& g1.conns == split_conns(g0.conns, c, h, g1.conns[n].innov, g1.conns[n + 1].innov)
}

/// Splitting a connection adds two connections and one hidden node, and
/// keeps the split connection, disabled.
pub proof fn lemma_split_counts(g0: GenomeView, g1: GenomeView, c: int, h: usize)
    requires
        genome_wf(g0),
        split_of(g0, g1, c, h),
    ensures
        g1.conns.len() == g0.conns.len() + 2,
        hidden_count(g1) == hidden_count(g0) + 1,
        g1.conns[c] == (ConnView { enabled: false, ..g0.conns[c] }),
        forall|d: int| 0 <= d < g0.conns.len() && d != c ==> g1.conns[d] == g0.conns[d],
{
}

/// Adding connections must stop: each success adds a connection and no
/// node, and a genome holds at most one connection per pair of a start node
/// and an end node, so after at most that many successes the genome is
/// saturated and the operator reports `NoCandidate`.
pub proof fn lemma_add_conn_terminates(g0: GenomeView, g1: GenomeView, c: usize)
    requires
        genome_wf(g0),
        genome_wf(g1),
        same_nodes(g1, g0),
        g1.conns == g0.conns.push(g1.conns[c as int]),
        can_link(g0, g1.conns[c as int].in_node, g1.conns[c as int].out_node),
    ensures
        g0.conns.len() < g1.conns.len() <= source_count(g0) * target_count(g0),
        g1.nodes.len() == g0.nodes.len(),
        source_count(g1) == source_count(g0),
        target_count(g1) == target_count(g0),
        !has_pair(g0, g1.conns[c as int].in_node, g1.conns[c as int].out_node),
{
    lemma_conn_count_bounded(g1);
}

/// No connection closes a cycle: its output node cannot reach its input node.
pub open spec fn acyclic(g: GenomeView) -> bool {
    forall|c: int|
        0 <= c < g.conns.len() ==> !reaches(g, (#[trigger] g.conns[c]).out_node, g.conns[c].in_node)
}

proof fn lemma_reach_extend(g: GenomeView, a: usize, c: int)
    requires
        0 <= c < g.conns.len(),
        reaches(g, a, g.conns[c].in_node),
    ensures
        reaches(g, a, g.conns[c].out_node),
{
    let n = choose|n: nat| #[trigger] reach_within(g, a, g.conns[c].in_node, n);
    assert(reach_within(g, a, g.conns[c].out_node, n + 1));
}

pub(crate) proof fn lemma_reach_trans(g: GenomeView, a: usize, b: usize, d: usize, m: nat)
    requires
        reaches(g, a, b),
        reach_within(g, b, d, m),
    ensures
        reaches(g, a, d),
    decreases m,
{
    if m == 0 {
    } else if reach_within(g, b, d, (m - 1) as nat) {
        lemma_reach_trans(g, a, b, d, (m - 1) as nat);
    } else {
        let c = choose|c: int|
            0 <= c < g.conns.len() && #[trigger] g.conns[c].out_node == d && reach_within(
                g,
                b,
                g.conns[c].in_node,
                (m - 1) as nat,
            );
        lemma_reach_trans(g, a, b, g.conns[c].in_node, (m - 1) as nat);
        lemma_reach_extend(g, a, c);
    }
}

proof fn lemma_reach_self(g: GenomeView, a: usize)
    ensures
        reaches(g, a, a),
{
    assert(reach_within(g, a, a, 0));
}

/// A path after appending the connection `e` either avoids it or runs
/// through it.
proof fn lemma_reach_push(g0: GenomeView, g1: GenomeView, e: ConnView, a: usize, b: usize, n: nat)
    requires
        g1.conns == g0.conns.push(e),
        reach_within(g1, a, b, n),
    ensures
        reaches(g0, a, b) || (reaches(g0, a, e.in_node) && reaches(g0, e.out_node, b)),
    decreases n,
{
    if n == 0 {
        lemma_reach_self(g0, a);
    } else if reach_within(g1, a, b, (n - 1) as nat) {
        lemma_reach_push(g0, g1, e, a, b, (n - 1) as nat);
    } else {
        let c = choose|c: int|
            0 <= c < g1.conns.len() && #[trigger] g1.conns[c].out_node == b && reach_within(
                g1,
                a,
                g1.conns[c].in_node,
                (n - 1) as nat,
            );
        lemma_reach_push(g0, g1, e, a, g1.conns[c].in_node, (n - 1) as nat);
        if c < g0.conns.len() {
            assert(g1.conns[c] == g0.conns[c]);
            if reaches(g0, a, g0.conns[c].in_node) {
                lemma_reach_extend(g0, a, c);
            } else {
                lemma_reach_extend(g0, e.out_node, c);
            }
        } else {
            lemma_reach_self(g0, e.out_node);
        }
    }
}

/// A path after a split either avoids the new node, or starts or ends there.
proof fn lemma_reach_split(
    g0: GenomeView,
    g1: GenomeView,
    c: int,
    h: usize,
    a: usize,
    b: usize,
    n: nat,
)
    requires
        genome_wf(g0),
        split_of(g0, g1, c, h),
        reach_within(g1, a, b, n),
    ensures
        a != h && b != h ==> reaches(g0, a, b),
        a != h && b == h ==> reaches(g0, a, g0.conns[c].in_node),
        a == h && b != h ==> reaches(g0, g0.conns[c].out_node, b),
    decreases n,
{
    let len0 = g0.conns.len() as int;
    let i = g0.conns[c].in_node;
    let o = g0.conns[c].out_node;
    assert(conn_fits(g0, g0.conns[c]));
    if n == 0 {
        lemma_reach_self(g0, a);
    } else if reach_within(g1, a, b, (n - 1) as nat) {
        lemma_reach_split(g0, g1, c, h, a, b, (n - 1) as nat);
    } else {
        let k = choose|k: int|
            0 <= k < g1.conns.len() && #[trigger] g1.conns[k].out_node == b && reach_within(
                g1,
                a,
                g1.conns[k].in_node,
                (n - 1) as nat,
            );
        let x = g1.conns[k].in_node;
        lemma_reach_split(g0, g1, c, h, a, x, (n - 1) as nat);
        if k < len0 {
            assert(conn_fits(g0, g0.conns[k]));
            assert(g1.conns[k].in_node == g0.conns[k].in_node);
            assert(g1.conns[k].out_node == g0.conns[k].out_node);
            if a != h {
                lemma_reach_extend(g0, a, k);
            } else {
                lemma_reach_extend(g0, o, k);
            }
        } else if k == len0 {
            assert(x == i && b == h);
        } else {
            assert(x == h && b == o);
            if a != h {
                lemma_reach_extend(g0, a, c);
            } else {
                lemma_reach_self(g0, o);
            }
        }
    }
}

/// Adding a connection that `can_link` admits keeps the graph acyclic.
pub proof fn lemma_link_keeps_acyclic(g0: GenomeView, g1: GenomeView, e: ConnView)
    requires
        genome_wf(g0),
        acyclic(g0),
        g1.conns == g0.conns.push(e),
        can_link(g0, e.in_node, e.out_node),
    ensures
        acyclic(g1),
{
    assert forall|k: int| 0 <= k < g1.conns.len() implies !reaches(
        g1,
        (#[trigger] g1.conns[k]).out_node,
        g1.conns[k].in_node,
    ) by {
        let x = g1.conns[k].in_node;
        let y = g1.conns[k].out_node;
        if reaches(g1, y, x) {
            let n = choose|n: nat| #[trigger] reach_within(g1, y, x, n);
            lemma_reach_push(g0, g1, e, y, x, n);
            if k < g0.conns.len() {
                assert(g1.conns[k] == g0.conns[k]);
                if !reaches(g0, y, x) {
                    lemma_reach_extend(g0, e.out_node, k);
                    let m = choose|m: nat| #[trigger] reach_within(g0, y, e.in_node, m);
                    lemma_reach_trans(g0, e.out_node, y, e.in_node, m);
                }
            }
        }
    }
}

/// Splitting a connection keeps the graph acyclic.
pub proof fn lemma_split_keeps_acyclic(g0: GenomeView, g1: GenomeView, c: int, h: usize)
    requires
        genome_wf(g0),
        acyclic(g0),
        split_of(g0, g1, c, h),
    ensures
        acyclic(g1),
{
    let len0 = g0.conns.len() as int;
    assert(conn_fits(g0, g0.conns[c]));
    assert forall|k: int| 0 <= k < g1.conns.len() implies !reaches(
        g1,
        (#[trigger] g1.conns[k]).out_node,
        g1.conns[k].in_node,
    ) by {
        let x = g1.conns[k].in_node;
        let y = g1.conns[k].out_node;
        if reaches(g1, y, x) {
            let n = choose|n: nat| #[trigger] reach_within(g1, y, x, n);
            lemma_reach_split(g0, g1, c, h, y, x, n);
            if k < len0 {
                assert(conn_fits(g0, g0.conns[k]));
                assert(g1.conns[k].in_node == g0.conns[k].in_node);
                assert(g1.conns[k].out_node == g0.conns[k].out_node);
                assert(!reaches(g0, g0.conns[k].out_node, g0.conns[k].in_node));
            } else {
                assert(!reaches(g0, g0.conns[c].out_node, g0.conns[c].in_node));
            }
        }
    }
}

/// Every node reached from a set closed under the connections is in it.
proof fn lemma_closed_reach(g: GenomeView, seen: Seq<bool>, from: usize, b: usize, n: nat)
    requires
        genome_wf(g),
        seen.len() == g.nodes.len(),
        from < seen.len(),
        seen[from as int],
        forall|c: int|
            0 <= c < g.conns.len() && seen[(#[trigger] g.conns[c]).in_node as int] ==> seen[g.conns[c].out_node as int],
        reach_within(g, from, b, n),
    ensures
        b < seen.len(),
        seen[b as int],
    decreases n,
{
    if n > 0 {
        if reach_within(g, from, b, (n - 1) as nat) {
            lemma_closed_reach(g, seen, from, b, (n - 1) as nat);
        } else {
            let c = choose|c: int|
                0 <= c < g.conns.len() && #[trigger] g.conns[c].out_node == b && reach_within(
                    g,
                    from,
                    g.conns[c].in_node,
                    (n - 1) as nat,
                );
            assert(conn_fits(g, g.conns[c]));
            lemma_closed_reach(g, seen, from, g.conns[c].in_node, (n - 1) as nat);
        }
    }
}

/// Number of nodes that may start a connection: inputs and hidden nodes.
pub open spec fn source_count(g: GenomeView) -> nat {
    g.input_len + hidden_count(g)
}

/// Number of nodes that may end a connection: hidden nodes and outputs.
pub open spec fn target_count(g: GenomeView) -> nat {
    hidden_count(g) + g.output_len
}

/// A genome holds at most one connection per ordered pair of a start node
/// (input or hidden) and an end node (hidden or output).
pub proof fn lemma_conn_count_bounded(g: GenomeView)
    requires
        genome_wf(g),
    ensures
        g.conns.len() <= source_count(g) * target_count(g),
{
    let il = g.input_len as int;
    let io = (g.input_len + g.output_len) as int;
    let sc = source_count(g) as int;
    let tc = target_count(g) as int;
    let src = |i: int| if i < il { i } else { i - (io - il) };
    let keys = Seq::new(g.conns.len(), |c: int| src(g.conns[c].in_node as int) * tc + (g.conns[c].out_node - il));
    assert forall|c: int| 0 <= c < keys.len() implies 0 <= #[trigger] keys[c] < sc * tc by {
        assert(conn_fits(g, g.conns[c]));
        let i = src(g.conns[c].in_node as int);
        let o = g.conns[c].out_node - il;
        assert(g.nodes[g.conns[c].in_node as int].kind == layout_kind(g, g.conns[c].in_node as int));
        assert(g.nodes[g.conns[c].out_node as int].kind == layout_kind(g, g.conns[c].out_node as int));
        assert(0 <= i < sc);
        assert(0 <= o < tc);
        assert(0 <= i * tc + o < sc * tc) by (nonlinear_arith)
            requires
                0 <= i < sc,
                0 <= o < tc,
        ;
    }
    assert(keys.no_duplicates()) by {
        assert forall|c1: int, c2: int|
            0 <= c1 < keys.len() && 0 <= c2 < keys.len() && c1 != c2 implies keys[c1]
            != keys[c2] by {
            assert(conn_fits(g, g.conns[c1]));
            assert(conn_fits(g, g.conns[c2]));
            assert(g.nodes[g.conns[c1].in_node as int].kind == layout_kind(g, g.conns[c1].in_node as int));
            assert(g.nodes[g.conns[c1].out_node as int].kind == layout_kind(g, g.conns[c1].out_node as int));
            assert(g.nodes[g.conns[c2].in_node as int].kind == layout_kind(g, g.conns[c2].in_node as int));
            assert(g.nodes[g.conns[c2].out_node as int].kind == layout_kind(g, g.conns[c2].out_node as int));
            let i1 = src(g.conns[c1].in_node as int);
            let o1 = g.conns[c1].out_node - il;
            let i2 = src(g.conns[c2].in_node as int);
            let o2 = g.conns[c2].out_node - il;
            assert((g.conns[c1].in_node, g.conns[c1].out_node) != (g.conns[c2].in_node, g.conns[c2].out_node));
            if i1 * tc + o1 == i2 * tc + o2 {
                assert(i1 == i2 && o1 == o2) by (nonlinear_arith)
                    requires
                        i1 * tc + o1 == i2 * tc + o2,
                        0 <= o1 < tc,
                        0 <= o2 < tc,
                        0 <= i1,
                        0 <= i2,
                ;
            }
        }
    }
    keys.unique_seq_to_set();
    assert(0 <= sc * tc) by (nonlinear_arith)
        requires
            0 <= sc,
            0 <= tc,
    ;
    lemma_int_range(0, sc * tc);
    assert(keys.to_set().subset_of(set_int_range(0, sc * tc)));
    lemma_len_subset(keys.to_set(), set_int_range(0, sc * tc));
}

impl FeedForwardGenome {
    /// Whether a path of connections leads from node `from` to node `to`.
    fn can_reach(&self, from: usize, to: usize) -> (r: bool)
        requires
            self.wf(),
            from < self@.nodes.len(),
            to < self@.nodes.len(),
        ensures
            r == reaches(self@, from, to),
    {
        let ghost g = self@;
        let n = self.node_count();
        let mut seen: Vec<bool> = Vec::new();
        let mut k: usize = 0;
        while k < n
            invariant
                n == g.nodes.len(),
                k <= n,
                seen@.len() == k,
                forall|x: int| 0 <= x < k ==> seen@[x] == (x == from),
            decreases n - k,
        {
            seen.push(k == from);
            k = k + 1;
        }
        let ghost mut marked: Set<int> = set![from as int];
        let mut count: usize = 1;
        proof {
            assert(reach_within(g, from, from, 0));
        }
        loop
            invariant
                g == self@,
                genome_wf(g),
                n == g.nodes.len(),
                from < n,
                seen@.len() == n,
                marked.finite(),
                count == marked.len(),
                marked.subset_of(set_int_range(0, n as int)),
                marked.contains(from as int),
                forall|x: int| 0 <= x < n ==> (seen@[x] <==> marked.contains(x)),
                forall|x: int| 0 <= x < n && seen@[x] ==> reaches(g, from, x as usize),
            ensures
                forall|d: int|
                    0 <= d < g.conns.len() && seen@[(#[trigger] g.conns[d]).in_node as int]
                        ==> seen@[g.conns[d].out_node as int],
            decreases n - count,
        {
            proof {
                lemma_int_range(0, n as int);
                lemma_len_subset(marked, set_int_range(0, n as int));
            }
            let ghost count0 = count;
            let mut changed = false;
            let mut c: usize = 0;
            while c < self.conn_count()
                invariant
                    g == self@,
                    genome_wf(g),
                    n == g.nodes.len(),
                    from < n,
                    seen@.len() == n,
                    marked.finite(),
                    count == marked.len(),
                    count <= n,
                    marked.subset_of(set_int_range(0, n as int)),
                    marked.contains(from as int),
                    forall|x: int| 0 <= x < n ==> (seen@[x] <==> marked.contains(x)),
                    forall|x: int| 0 <= x < n && seen@[x] ==> reaches(g, from, x as usize),
                    c <= g.conns.len(),
                    changed ==> count > count0,
                    !changed ==> count == count0,
                    !changed ==> forall|d: int|
                        0 <= d < c && seen@[(#[trigger] g.conns[d]).in_node as int]
                            ==> seen@[g.conns[d].out_node as int],
                decreases g.conns.len() - c,
            {
                let i = self.conn(c).in_node();
                let o = self.conn(c).out_node();
                proof {
                    assert(conn_fits(g, g.conns[c as int]));
                }
                if seen[i] && !seen[o] {
                    proof {
                        let m = choose|m: nat| #[trigger] reach_within(g, from, i, m);
                        assert(reach_within(g, from, o, m + 1));
                        lemma_int_range(0, n as int);
                        lemma_len_subset(marked.insert(o as int), set_int_range(0, n as int));
                    }
                    seen.set(o, true);
                    proof {
                        marked = marked.insert(o as int);
                    }
                    count = count + 1;
                    changed = true;
                }
                c = c + 1;
            }
            if !changed {
                break;
            }
        }
        proof {
            if reaches(g, from, to) {
                let m = choose|m: nat| #[trigger] reach_within(g, from, to, m);
                lemma_closed_reach(g, seen@, from, to, m);
            }
        }
        seen[to]
    }

    /// Candidate start nodes (inputs, then hidden nodes) or, when `!sources`,
    /// candidate end nodes (outputs, then hidden nodes).
    fn candidates(&self, sources: bool) -> (r: Vec<usize>)
        requires
            self.wf(),
        ensures
            forall|k: usize|
                r@.contains(k) <==> (if sources {
                    is_source(self@, k)
                } else {
                    is_target(self@, k)
                }),
    {
        let ghost g = self@;
        let n = self.node_count();
        let il = self.input_len();
        let ol = self.output_len();
        let mut r: Vec<usize> = Vec::new();
        let lo: usize = if sources { 0 } else { il };
        let hi: usize = if sources { il } else { il + ol };
        let mut k: usize = lo;
        while k < hi
            invariant
                lo <= k <= hi <= il + ol <= n,
                r@.len() == k - lo,
                forall|j: int| 0 <= j < r@.len() ==> r@[j] == lo + j,
            decreases hi - k,
        {
            r.push(k);
            k = k + 1;
        }
        k = il + ol;
        while k < n
            invariant
                lo <= hi <= il + ol <= k <= n,
                r@.len() == (hi - lo) + (k - (il + ol)),
                forall|j: int| 0 <= j < hi - lo ==> r@[j] == lo + j,
                forall|j: int| hi - lo <= j < r@.len() ==> r@[j] == il + ol + (j - (hi - lo)),
            decreases n - k,
        {
            r.push(k);
            k = k + 1;
        }
        proof {
            assert forall|x: usize|
                r@.contains(x) <==> (lo <= x < hi || il + ol <= x < n) by {
                if lo <= x < hi {
                    assert(r@[x - lo] == x);
                } else if il + ol <= x < n {
                    assert(r@[(hi - lo) + (x - (il + ol))] == x);
                }
            }
        }
        r
    }

    /// Adds one new connection between two nodes picked at random.
    ///
    /// The start node is drawn from the inputs and hidden nodes, the end node
    /// from the hidden nodes and outputs, each list shuffled; the first start
    /// node that can still be joined to some end node is taken, with the
    /// first end node that suits it. A pair suits when no connection joins
    /// it yet and the end node cannot reach the start node (so that the
    /// graph stays free of cycles). The new connection is enabled, has the
    /// given weight, and carries the tracker's innovation for the pair of
    /// node identities. Returns the new connection's index.
    pub fn mutate_add_conn(
        &mut self,
        tracker: &mut InnovationTracker,
        rng: &mut StdRng,
        weight: u32,
    ) -> (r: Result<usize, MutationError>)
        requires
            old(self).wf(),
            old(tracker).wf(),
        ensures
            final(self).wf(),
            final(tracker).wf(),
            r is Err ==> final(self)@ == old(self)@,
            acyclic(old(self)@) ==> acyclic(final(self)@),
            r == Err::<usize, MutationError>(MutationError::Conflict) ==> !registered_with(old(self)@, old(tracker)@),
            registered_with(old(self)@, old(tracker)@) ==> registered_with(final(self)@, final(tracker)@),
            r == Err::<usize, MutationError>(MutationError::NoCandidate) <==> saturated(old(self)@),
            r == Err::<usize, MutationError>(MutationError::NoCandidate) ==> final(tracker)@ == old(
                tracker,
            )@,
            r == Err::<usize, MutationError>(MutationError::Exhausted) ==> final(tracker)@ == old(
                tracker,
            )@ && (old(tracker)@.next == u32::MAX || old(self)@.conns.len() == usize::MAX),
            r matches Ok(c) ==> {
                let g0 = old(self)@;
                let g1 = final(self)@;
                let nc = g1.conns[c as int];
                &&& c == g0.conns.len()
                &&& same_nodes(g1, g0)
                &&& g1.conns == g0.conns.push(nc)
                &&& can_link(g0, nc.in_node, nc.out_node)
                &&& nc.weight == weight
                &&& nc.enabled
                &&& innovation_step(
                    old(tracker)@,
                    final(tracker)@,
                    g0.nodes[nc.in_node as int].id,
                    g0.nodes[nc.out_node as int].id,
                    Some(nc.innov),
                )
            },
    {
        let ghost g = self@;
        let mut ins = self.candidates(true);
        let mut outs = self.candidates(false);
        let ghost ins0 = ins@;
        let ghost outs0 = outs@;
        shuffle(&mut ins, rng);
        shuffle(&mut outs, rng);
        proof {
            assert(forall|k: usize| ins0.contains(k) <==> is_source(g, k));
            assert(forall|k: usize| outs0.contains(k) <==> is_target(g, k));
            assert forall|k: usize| ins@.contains(k) <==> ins0.contains(k) by {
                assert(ins@.contains(k) <==> ins@.to_multiset().count(k) > 0);
                assert(ins0.contains(k) <==> ins0.to_multiset().count(k) > 0);
            }
            assert forall|k: usize| outs@.contains(k) <==> outs0.contains(k) by {
                assert(outs@.contains(k) <==> outs@.to_multiset().count(k) > 0);
                assert(outs0.contains(k) <==> outs0.to_multiset().count(k) > 0);
            }
        }
        let mut a: usize = 0;
        while a < ins.len()
            invariant
                g == self@,
                g == old(self)@,
                genome_wf(g),
                tracker.wf(),
                *tracker == *old(tracker),
                a <= ins@.len(),
                forall|k: usize| ins@.contains(k) <==> is_source(g, k),
                forall|k: usize| outs@.contains(k) <==> is_target(g, k),
                forall|x: int, y: int|
                    0 <= x < a && 0 <= y < outs@.len() ==> !link_ok(g, #[trigger] ins@[x], #[trigger] outs@[y]),
            decreases ins@.len() - a,
        {
            let i = ins[a];
            proof {
                assert(ins@.contains(i));
            }
            let mut b: usize = 0;
            while b < outs.len()
                invariant
                    g == self@,
                    g == old(self)@,
                    genome_wf(g),
                    tracker.wf(),
                    *tracker == *old(tracker),
                    a < ins@.len(),
                    i == ins@[a as int],
                    is_source(g, i),
                    b <= outs@.len(),
                    forall|k: usize| outs@.contains(k) <==> is_target(g, k),
                    forall|y: int| 0 <= y < b ==> !link_ok(g, i, #[trigger] outs@[y]),
                decreases outs@.len() - b,
            {
                let o = outs[b];
                proof {
                    assert(outs@[b as int] == o);
                    assert(outs@.contains(o));
                    assert(is_target(g, o));
                }
                if i != o && self.find_conn(i, o).is_none() && !self.can_reach(o, i) {
                    proof {
                        assert(can_link(g, i, o));
                        assert(!saturated(g));
                    }
                    let r = self.link(tracker, i, o, weight);
                    proof {
                        if let Ok(c) = r {
                            if acyclic(g) {
                                lemma_link_keeps_acyclic(g, self@, self@.conns[c as int]);
                            }
                        }
                    }
                    return r;
                }
                b = b + 1;
            }
            a = a + 1;
        }
        proof {
            assert forall|i: usize, o: usize| !#[trigger] can_link(g, i, o) by {
                if can_link(g, i, o) {
                    assert(ins@.contains(i));
                    assert(outs@.contains(o));
                    let x = choose|x: int| 0 <= x < ins@.len() && ins@[x] == i;
                    let y = choose|y: int| 0 <= y < outs@.len() && outs@[y] == o;
                    assert(!link_ok(g, ins@[x], outs@[y]));
                }
            }
        }
        Err(MutationError::NoCandidate)
    }

    /// Joins `i -> o`, a pair that `can_link` admits, with the tracker's
    /// innovation for it.
    fn link(&mut self, tracker: &mut InnovationTracker, i: usize, o: usize, weight: u32) -> (r:
        Result<usize, MutationError>)
        requires
            old(self).wf(),
            old(tracker).wf(),
            can_link(old(self)@, i, o),
        ensures
            final(self).wf(),
            final(tracker).wf(),
            r is Err ==> final(self)@ == old(self)@,
            r != Err::<usize, MutationError>(MutationError::NoCandidate),
            r == Err::<usize, MutationError>(MutationError::Conflict) ==> !registered_with(old(self)@, old(tracker)@),
            registered_with(old(self)@, old(tracker)@) ==> registered_with(final(self)@, final(tracker)@),
            r == Err::<usize, MutationError>(MutationError::Exhausted) ==> final(tracker)@ == old(
                tracker,
            )@ && (old(tracker)@.next == u32::MAX || old(self)@.conns.len() == usize::MAX),
            r matches Ok(c) ==> {
                let g0 = old(self)@;
                let g1 = final(self)@;
                let nc = g1.conns[c as int];
                &&& c == g0.conns.len()
                &&& same_nodes(g1, g0)
                &&& g1.conns == g0.conns.push(nc)
                &&& nc.in_node == i
                &&& nc.out_node == o
                &&& nc.weight == weight
                &&& nc.enabled
                &&& innovation_step(
                    old(tracker)@,
                    final(tracker)@,
                    g0.nodes[i as int].id,
                    g0.nodes[o as int].id,
                    Some(nc.innov),
                )
            },
    {
        if self.conn_count() == usize::MAX {
            return Err(MutationError::Exhausted);
        }
        let ghost g = self@;
        let ghost t0 = tracker@;
        let in_id = self.node(i).id();
        let out_id = self.node(o).id();
        match tracker.innovation(in_id, out_id) {
            None => Err(MutationError::Exhausted),
            Some(x) => {
                proof {
                    lemma_step_grows(t0, tracker@, in_id, out_id, x);
                    if registered_with(g, t0) {
                        lemma_pair_key_absent(g, i, o);
                        lemma_fresh_innov(g, t0, tracker@, in_id, out_id, x);
                        lemma_registry_grow(g, t0, tracker@);
                    }
                }
                if self.find_innov(x).is_some() {
                    Err(MutationError::Conflict)
                } else {
                    let c = self.push_conn(i, o, weight, true, x);
                    proof {
                        let g1 = self@;
                        if registered_with(g, t0) {
                            assert forall|d: int| 0 <= d < g1.conns.len() implies tracker@.ids.contains_key(
                                #[trigger] conn_key(g1, d),
                            ) && tracker@.ids[conn_key(g1, d)] == g1.conns[d].innov by {
                                if d < g.conns.len() {
                                    assert(conn_fits(g, g.conns[d]));
                                    assert(conn_key(g1, d) == conn_key(g, d));
                                }
                            }
                            assert forall|k: int| 0 <= k < g1.nodes.len() implies (#[trigger] g1.nodes[k]).id
                                < tracker@.next_node by {
                                assert(g.nodes[k].id < t0.next_node);
                            }
                        }
                    }
                    Ok(c)
                }
            },
        }
    }

    /// Splits an enabled connection picked at random with a new hidden node.
    ///
    /// The connection is disabled but kept; the new node, with a fresh
    /// identity from the tracker, is joined to its input node by a
    /// connection of weight 1.0 and to its output node by one of the old
    /// weight, each with the tracker's innovation for its pair of node
    /// identities. Returns the new node's index.
    pub fn mutate_add_node(&mut self, tracker: &mut InnovationTracker, rng: &mut StdRng) -> (r:
        Result<usize, MutationError>)
        requires
            old(self).wf(),
            old(tracker).wf(),
        ensures
            final(self).wf(),
            final(tracker).wf(),
            r is Err ==> final(self)@ == old(self)@,
            acyclic(old(self)@) ==> acyclic(final(self)@),
            r == Err::<usize, MutationError>(MutationError::Conflict) ==> !registered_with(old(self)@, old(tracker)@),
            registered_with(old(self)@, old(tracker)@) ==> registered_with(final(self)@, final(tracker)@),
            r == Err::<usize, MutationError>(MutationError::NoCandidate) <==> !has_enabled(
                old(self)@,
            ),
            r == Err::<usize, MutationError>(MutationError::NoCandidate) ==> final(tracker)@ == old(
                tracker,
            )@,
            r == Err::<usize, MutationError>(MutationError::Exhausted) ==> final(tracker)@ == old(
                tracker,
            )@ && (old(tracker)@.next_node == u32::MAX || old(tracker)@.next > u32::MAX - 2
                || old(self)@.nodes.len() == usize::MAX || old(self)@.conns.len() >= usize::MAX
                - 1),
            r matches Ok(h) ==> {
                let g0 = old(self)@;
                let g1 = final(self)@;
                let n = g0.conns.len() as int;
                let t0 = old(tracker)@;
                let t1 = final(tracker)@;
                &&& exists|c: int| split_of(g0, g1, c, h)
                &&& g1.nodes[h as int].id == t0.next_node
                &&& t1.next_node == t0.next_node + 1
                &&& t1.ids.contains_key(pair_key(g0.nodes[g1.conns[n].in_node as int].id, t0.next_node))
                &&& t1.ids[pair_key(g0.nodes[g1.conns[n].in_node as int].id, t0.next_node)]
                    == g1.conns[n].innov
                &&& t1.ids.contains_key(pair_key(t0.next_node, g0.nodes[g1.conns[n + 1].out_node as int].id))
                &&& t1.ids[pair_key(t0.next_node, g0.nodes[g1.conns[n + 1].out_node as int].id)]
                    == g1.conns[n + 1].innov
            },
    {
        let ghost g = self@;
        let mut enabled: Vec<usize> = Vec::new();
        let mut c: usize = 0;
        while c < self.conn_count()
            invariant
                g == self@,
                c <= g.conns.len(),
                forall|j: int| 0 <= j < enabled@.len() ==> enabled@[j] < c && g.conns[enabled@[j] as int].enabled,
                forall|x: int| 0 <= x < c && #[trigger] g.conns[x].enabled ==> enabled@.contains(x as usize),
            decreases g.conns.len() - c,
        {
            if self.conn(c).enabled() {
                let ghost e0 = enabled@;
                enabled.push(c);
                proof {
                    assert forall|x: int| 0 <= x < c + 1 && #[trigger] g.conns[x].enabled implies enabled@.contains(x as usize) by {
                        if x == c {
                            assert(enabled@[enabled@.len() - 1] == c);
                        } else {
                            let j = choose|j: int| 0 <= j < e0.len() && e0[j] == x as usize;
                            assert(enabled@[j] == x as usize);
                        }
                    }
                }
            }
            c = c + 1;
        }
        let c = match choose_one(&enabled, rng) {
            None => {
                proof {
                    assert(!has_enabled(g)) by {
                        if has_enabled(g) {
                            let x = choose|x: int| 0 <= x < g.conns.len() && #[trigger] g.conns[x].enabled;
                            assert(enabled@.contains(x as usize));
                        }
                    }
                }
                return Err(MutationError::NoCandidate);
            },
            Some(c) => c,
        };
        proof {
            let j = choose|j: int| 0 <= j < enabled@.len() && enabled@[j] == c;
            assert(g.conns[c as int].enabled);
        }
        if tracker.current_node() == u32::MAX || tracker.current() > u32::MAX - 2
            || self.node_count() == usize::MAX || self.conn_count() >= usize::MAX - 1 {
            return Err(MutationError::Exhausted);
        }
        let ghost t0 = tracker@;
        let h_id = match tracker.new_node_id() {
            Some(x) => x,
            None => {
                return Err(MutationError::Exhausted);
            },
        };
        let ghost t1 = tracker@;
        proof {
            if registered_with(g, t0) {
                lemma_registry_grow(g, t0, t1);
                let last = g.input_len + g.output_len - 1;
                assert(g.nodes[last].id == last);
                assert(!has_id(g, h_id)) by {
                    if has_id(g, h_id) {
                        let k = choose|k: int| 0 <= k < g.nodes.len() && #[trigger] g.nodes[k].id == h_id;
                    }
                }
            }
        }
        if (h_id as usize) < self.input_len() + self.output_len() || self.find_node(h_id).is_some() {
            return Err(MutationError::Conflict);
        }
        let in_node = self.conn(c).in_node();
        let out_node = self.conn(c).out_node();
        proof {
            assert(conn_fits(g, g.conns[c as int]));
        }
        let in_id = self.node(in_node).id();
        let out_id = self.node(out_node).id();
        let a = match tracker.innovation(in_id, h_id) {
            Some(x) => x,
            None => {
                return Err(MutationError::Exhausted);
            },
        };
        let ghost t2 = tracker@;
        proof {
            lemma_step_grows(t1, t2, in_id, h_id, a);
            if registered_with(g, t0) {
                assert(in_id < h_id);
                assert forall|d: int| 0 <= d < g.conns.len() implies #[trigger] conn_key(g, d) != pair_key(in_id, h_id) by {
                    assert(conn_fits(g, g.conns[d]));
                    let ci = g.nodes[g.conns[d].in_node as int].id;
                    let co = g.nodes[g.conns[d].out_node as int].id;
                    lemma_pair_key_injective(ci, co, in_id, h_id);
                }
                lemma_fresh_innov(g, t1, t2, in_id, h_id, a);
                lemma_registry_grow(g, t1, t2);
            }
        }
        let b = match tracker.innovation(h_id, out_id) {
            Some(x) => x,
            None => {
                return Err(MutationError::Exhausted);
            },
        };
        let ghost t3 = tracker@;
        proof {
            lemma_step_grows(t2, t3, h_id, out_id, b);
            if registered_with(g, t0) {
                assert forall|d: int| 0 <= d < g.conns.len() implies #[trigger] conn_key(g, d) != pair_key(h_id, out_id) by {
                    assert(conn_fits(g, g.conns[d]));
                    let ci = g.nodes[g.conns[d].in_node as int].id;
                    let co = g.nodes[g.conns[d].out_node as int].id;
                    lemma_pair_key_injective(ci, co, h_id, out_id);
                }
                lemma_fresh_innov(g, t2, t3, h_id, out_id, b);
                lemma_registry_grow(g, t2, t3);
                lemma_pair_key_injective(in_id, h_id, h_id, out_id);
                assert(t3.ids[pair_key(in_id, h_id)] == a);
                assert(a != b);
            }
        }
        if a == b || self.find_innov(a).is_some() || self.find_innov(b).is_some() {
            return Err(MutationError::Conflict);
        }
        let h = self.add_node(c, h_id, a, b);
        proof {
            let g1 = self@;
            let n = g.conns.len() as int;
            assert(g1.conns[n].innov == a);
            assert(g1.conns[n + 1].innov == b);
            assert(split_of(g, g1, c as int, h));
            if acyclic(g) {
                lemma_split_keeps_acyclic(g, g1, c as int, h);
            }
            if registered_with(g, t0) {
                assert forall|d: int| 0 <= d < g1.conns.len() implies t3.ids.contains_key(
                    #[trigger] conn_key(g1, d),
                ) && t3.ids[conn_key(g1, d)] == g1.conns[d].innov by {
                    if d < n {
                        assert(conn_fits(g, g.conns[d]));
                        assert(conn_key(g1, d) == conn_key(g, d));
                    } else if d == n {
                        assert(conn_key(g1, d) == pair_key(in_id, h_id));
                    } else {
                        assert(conn_key(g1, d) == pair_key(h_id, out_id));
                    }
                }
                assert forall|k: int| 0 <= k < g1.nodes.len() implies (#[trigger] g1.nodes[k]).id
                    < t3.next_node by {
                    if k < g.nodes.len() {
                        assert(g.nodes[k].id < t0.next_node);
                    }
                }
            }
        }
        Ok(h)
    }

    /// Gives a connection picked at random the weight `weight` (the bit
    /// pattern of a freshly drawn value); its state and innovation stay.
    /// Returns its index, or `None` when the genome has no connection.
    pub fn mutate_conn_weight(&mut self, rng: &mut StdRng, weight: u32) -> (r: Option<usize>)
        requires
            old(self).wf(),
        ensures
            final(self).wf(),
            r.is_none() <==> old(self)@.conns.len() == 0,
            r.is_none() ==> final(self)@ == old(self)@,
            r matches Some(c) ==> c < old(self)@.conns.len() && same_nodes(final(self)@, old(self)@)
                && final(self)@.conns == old(self)@.conns.update(
                c as int,
                ConnView { weight, ..old(self)@.conns[c as int] },
            ),
    {
        let n = self.conn_count();
        let mut all: Vec<usize> = Vec::new();
        let mut k: usize = 0;
        while k < n
            invariant
                k <= n,
                all@.len() == k,
                forall|j: int| 0 <= j < k ==> all@[j] == j,
            decreases n - k,
        {
            all.push(k);
            k = k + 1;
        }
        match choose_one(&all, rng) {
            None => None,
            Some(c) => {
                self.set_conn_weight(c, weight);
                Some(c)
            },
        }
    }
}

} // verus!
