use std::collections::HashMap;
use vstd::prelude::*;

verus! {

broadcast use vstd::std_specs::hash::group_hash_axioms;

/// A counter that hands out strictly increasing identifiers.
#[derive(Debug)]
pub struct Innov {
    count: u32,
}

impl View for Innov {
    type V = u32;

    /// The identifier that the next allocation returns.
    closed spec fn view(&self) -> u32 {
        self.count
    }
}

impl Innov {
    /// A counter whose first allocation returns `start`.
    pub fn new(start: u32) -> (r: Innov)
        ensures
            r@ == start,
    {
        Innov { count: start }
    }

    /// Allocates an identifier: returns the current value and advances it.
    pub fn next(&mut self) -> (r: u32)
        requires
            old(self)@ < u32::MAX,
        ensures
            r == old(self)@,
            final(self)@ == old(self)@ + 1,
    {
        let r = self.count;
        self.count = self.count + 1;
        r
    }

    /// The identifier that the next allocation would return.
    pub fn current(&self) -> (r: u32)
        ensures
            r == self@,
    {
        self.count
    }

    /// Whether every identifier has been handed out.
    pub fn is_exhausted(&self) -> (r: bool)
        ensures
            r == (self@ == u32::MAX),
    {
        self.count == u32::MAX
    }
}

/// The map key of an ordered pair of node identities.
pub open spec fn pair_key(a: u32, b: u32) -> u64 {
    (a as int * 0x1_0000_0000 + b as int) as u64
}

/// Distinct pairs have distinct keys.
pub proof fn lemma_pair_key_injective(a: u32, b: u32, c: u32, d: u32)
    ensures
        pair_key(a, b) == pair_key(c, d) <==> (a == c && b == d),
{
    assert(0 <= a as int * 0x1_0000_0000 + b as int <= u64::MAX) by (nonlinear_arith);
    assert(0 <= c as int * 0x1_0000_0000 + d as int <= u64::MAX) by (nonlinear_arith);
    if pair_key(a, b) == pair_key(c, d) {
        assert(a as int * 0x1_0000_0000 + b as int == c as int * 0x1_0000_0000 + d as int);
        assert(a == c && b == d) by (nonlinear_arith)
            requires
                a as int * 0x1_0000_0000 + b as int == c as int * 0x1_0000_0000 + d as int,
                0 <= b < 0x1_0000_0000,
                0 <= d < 0x1_0000_0000,
                0 <= a,
                0 <= c,
        ;
    }
}

fn make_key(a: u32, b: u32) -> (r: u64)
    ensures
        r == pair_key(a, b),
{
    assert(0 <= a as int * 0x1_0000_0000 + b as int <= u64::MAX) by (nonlinear_arith);
    (a as u64) * 0x1_0000_0000u64 + (b as u64)
}

/// Abstract state of an [`InnovationTracker`].
pub ghost struct TrackerView {
    /// Identifier allocated to each pair of node identities, by `pair_key`.
    pub ids: Map<u64, u32>,
    /// The connection identifier that the next new pair receives.
    pub next: u32,
    /// The identity that the next new hidden node receives.
    pub next_node: u32,
}

/// Every allocated identifier lies below the counter, and no two pairs share
/// one.
pub open spec fn tracker_wf(t: TrackerView) -> bool {
    &&& forall|k: u64| #[trigger] t.ids.contains_key(k) ==> t.ids[k] < t.next
    &&& forall|k1: u64, k2: u64|
        #![trigger t.ids[k1], t.ids[k2]]
        t.ids.contains_key(k1) && t.ids.contains_key(k2) && t.ids[k1] == t.ids[k2] ==> k1 == k2
}

/// Historical markings shared by all genomes of one configuration.
///
/// A structural mutation is named by the identities of its two endpoint
/// nodes. The first request for a pair allocates a fresh, strictly larger
/// identifier; every later request for the same pair returns that identifier
/// again. Fresh identities for hidden nodes come from here as well.
#[derive(Debug)]
pub struct InnovationTracker {
    ids: HashMap<u64, u32>,
    innov: Innov,
    nodes: Innov,
}

impl View for InnovationTracker {
    type V = TrackerView;

    closed spec fn view(&self) -> TrackerView {
        TrackerView { ids: self.ids@, next: self.innov@, next_node: self.nodes@ }
    }
}

impl InnovationTracker {
    pub open spec fn wf(&self) -> bool {
        tracker_wf(self@)
    }

    /// A tracker for genomes with `input_len` inputs and `output_len` outputs:
    /// those nodes carry the identities `0 .. input_len + output_len`, and
    /// hidden nodes receive the identities after them.
    pub fn new(input_len: usize, output_len: usize) -> (r: InnovationTracker)
        requires
            input_len + output_len <= u32::MAX,
        ensures
            r.wf(),
            r@.ids.is_empty(),
            r@.next == 0,
            r@.next_node == input_len + output_len,
    {
        InnovationTracker {
            ids: HashMap::new(),
            innov: Innov::new(0),
            nodes: Innov::new((input_len + output_len) as u32),
        }
    }

    /// The identifier allocated to the pair, if it has been requested before.
    pub fn lookup(&self, in_id: u32, out_id: u32) -> (r: Option<u32>)
        ensures
            r == (if self@.ids.contains_key(pair_key(in_id, out_id)) {
                Some(self@.ids[pair_key(in_id, out_id)])
            } else {
                None
            }),
    {
        let key = make_key(in_id, out_id);
        match self.ids.get(&key) {
            Some(v) => Some(*v),
            None => None,
        }
    }

    /// The connection identifier that the next new pair would receive.
    pub fn current(&self) -> (r: u32)
        ensures
            r == self@.next,
    {
        self.innov.current()
    }

    /// The identity that the next new hidden node would receive.
    pub fn current_node(&self) -> (r: u32)
        ensures
            r == self@.next_node,
    {
        self.nodes.current()
    }

    /// The identifier of the structural mutation `in_id -> out_id`.
    ///
    /// A pair seen before gets its earlier identifier back. A new pair gets
    /// the counter's value, and the counter advances; when every identifier
    /// has been handed out, a new pair gets `None` and nothing changes.
    pub fn innovation(&mut self, in_id: u32, out_id: u32) -> (r: Option<u32>)
        requires
            old(self).wf(),
        ensures
            final(self).wf(),
            innovation_step(old(self)@, final(self)@, in_id, out_id, r),
    {
        let key = make_key(in_id, out_id);
        match self.ids.get(&key) {
            Some(v) => Some(*v),
            None => {
                if self.innov.is_exhausted() {
                    None
                } else {
                    let id = self.innov.next();
                    self.ids.insert(key, id);
                    proof {
                        assert forall|k: u64| #[trigger] self@.ids.contains_key(k) implies self@.ids[k]
                            < self@.next by {
                            if k != key {
                                assert(old(self)@.ids.contains_key(k));
                            }
                        }
                        assert forall|k1: u64, k2: u64|
                            self@.ids.contains_key(k1) && self@.ids.contains_key(k2)
                                && #[trigger] self@.ids[k1] == #[trigger] self@.ids[k2] implies k1
                            == k2 by {
                            if k1 != key {
                                assert(old(self)@.ids.contains_key(k1));
                            }
                            if k2 != key {
                                assert(old(self)@.ids.contains_key(k2));
                            }
                        }
                    }
                    Some(id)
                }
            },
        }
    }

    /// A fresh identity for a new hidden node, or `None` when all have been
    /// handed out.
    pub fn new_node_id(&mut self) -> (r: Option<u32>)
        requires
            old(self).wf(),
        ensures
            final(self).wf(),
            final(self)@.ids == old(self)@.ids,
            final(self)@.next == old(self)@.next,
            old(self)@.next_node == u32::MAX ==> r.is_none() && final(self)@ == old(self)@,
            old(self)@.next_node < u32::MAX ==> r == Some(old(self)@.next_node)
                && final(self)@.next_node == old(self)@.next_node + 1,
    {
        if self.nodes.is_exhausted() {
            None
        } else {
            let id = self.nodes.next();
            assert(self@.ids == old(self)@.ids);
            Some(id)
        }
    }
}

/// How one request for the pair `in_id -> out_id` changes a tracker's state
/// from `t0` to `t1` and what it returns.
pub open spec fn innovation_step(
    t0: TrackerView,
    t1: TrackerView,
    in_id: u32,
    out_id: u32,
    r: Option<u32>,
) -> bool {
    let key = pair_key(in_id, out_id);
    if t0.ids.contains_key(key) {
        r == Some(t0.ids[key]) && t1 == t0
    } else if t0.next == u32::MAX {
        r.is_none() && t1 == t0
    } else {
        &&& r == Some(t0.next)
        &&& t1 == TrackerView { ids: t0.ids.insert(key, t0.next), next: (t0.next + 1) as u32, ..t0 }
    }
}

/// Asking twice for the same pair gives the same identifier.
pub proof fn lemma_same_pair_same_innovation(
    t0: TrackerView,
    t1: TrackerView,
    t2: TrackerView,
    in_id: u32,
    out_id: u32,
    r1: u32,
    r2: Option<u32>,
)
    requires
        innovation_step(t0, t1, in_id, out_id, Some(r1)),
        innovation_step(t1, t2, in_id, out_id, r2),
    ensures
        r2 == Some(r1),
        t2 == t1,
{
}

/// Two distinct pairs asked for the first time, one after the other, receive
/// distinct identifiers, the later one strictly larger; and a new pair's
/// identifier is larger than every identifier handed out before it.
pub proof fn lemma_new_pairs_increasing(
    t0: TrackerView,
    t1: TrackerView,
    t2: TrackerView,
    a: u32,
    b: u32,
    c: u32,
    d: u32,
    r1: u32,
    r2: u32,
)
    requires
        forall|k: u64| #[trigger] t0.ids.contains_key(k) ==> t0.ids[k] < t0.next,
        !t0.ids.contains_key(pair_key(a, b)),
        (a, b) != (c, d),
        !t0.ids.contains_key(pair_key(c, d)),
        innovation_step(t0, t1, a, b, Some(r1)),
        innovation_step(t1, t2, c, d, Some(r2)),
    ensures
        r1 < r2,
        forall|k: u64| #[trigger] t0.ids.contains_key(k) ==> t0.ids[k] < r1,
{
    lemma_pair_key_injective(a, b, c, d);
}

} // verus!
