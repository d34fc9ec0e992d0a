use bevy_neat::{
    Activation, ActivationError, CompareError, Config, CrossoverError, FeedForwardGenome, Fitter,
    GraphError, InnovationTracker, MutationError, NodeKind, Population, UNIT_WEIGHT,
};
use rand::rngs::StdRng;
use rand::SeedableRng;

struct Identity;

impl Activation<f32> for Identity {
    fn spec_zero(&self) -> f32 {
        self.zero()
    }

    fn spec_accumulate(&self, acc: f32, x: f32, weight: u32) -> f32 {
        self.accumulate(&acc, &x, weight)
    }

    fn spec_activate(&self, x: f32) -> f32 {
        self.activate(&x)
    }

    fn zero(&self) -> f32 {
        0.0
    }

    fn accumulate(&self, acc: &f32, x: &f32, weight: u32) -> f32 {
        acc + x * f32::from_bits(weight)
    }

    fn activate(&self, x: &f32) -> f32 {
        *x
    }
}

fn w(x: f32) -> u32 {
    x.to_bits()
}

/// The genes of a genome by node identities: (in, out, weight, enabled, innovation).
fn genes(g: &FeedForwardGenome) -> Vec<(u32, u32, u32, bool, u32)> {
    let mut v: Vec<(u32, u32, u32, bool, u32)> = (0..g.conn_count())
        .map(|c| {
            let conn = g.conn(c);
            (
                g.node(conn.in_node()).id(),
                g.node(conn.out_node()).id(),
                conn.weight(),
                conn.enabled(),
                conn.innov(),
            )
        })
        .collect();
    v.sort();
    v
}

/// Two inputs, one output, input 0 joined to the output with weight 1.0.
fn single_link() -> (FeedForwardGenome, InnovationTracker) {
    let mut tracker = InnovationTracker::new(2, 1);
    let mut g = FeedForwardGenome::minimal(2, 1);
    let innov = tracker.innovation(0, 2).unwrap();
    g.add_conn(0, 2, w(1.0), innov).unwrap();
    (g, tracker)
}

#[test]
fn mutate_add_conn() {
    let mut genome = FeedForwardGenome::minimal(3, 1);
    let in_node = 0;
    let out_node = genome.input_len();
    let new_conn = genome.add_conn(in_node, out_node, 0.5f32.to_bits(), 0).unwrap();
    assert_eq!(genome.conn(new_conn), genome.conn(0));
}

#[test]
fn minimal_genome_is_empty() {
    for (i, o) in [(1usize, 1usize), (3, 1), (2, 4)] {
        let g = FeedForwardGenome::minimal(i, o);
        assert_eq!(g.conn_count(), 0);
        assert_eq!(g.hidden_len(), 0);
        assert_eq!(g.input_len(), i);
        assert_eq!(g.output_len(), o);
        assert_eq!(g.node_count(), i + o);
        assert_eq!(g.fitness(), None);
        for k in 0..i {
            assert_eq!(g.node(k).kind(), NodeKind::Input);
        }
        for k in i..i + o {
            assert_eq!(g.node(k).kind(), NodeKind::Output);
        }
    }
}

#[test]
fn add_conn_errors() {
    let mut g = FeedForwardGenome::minimal(2, 1);
    assert_eq!(g.add_conn(0, 9, 0, 0), Err(GraphError::InvalidEndpoints));
    assert_eq!(g.add_conn(2, 0, 0, 0), Err(GraphError::InvalidEndpoints));
    assert_eq!(g.add_conn(0, 1, 0, 0), Err(GraphError::InvalidEndpoints));
    assert_eq!(g.add_conn(0, 0, 0, 0), Err(GraphError::InvalidEndpoints));
    assert_eq!(g.add_conn(0, 2, 0, 7), Ok(0));
    assert_eq!(g.add_conn(0, 2, 0, 8), Err(GraphError::DuplicatePair));
    assert_eq!(g.add_conn(1, 2, 0, 7), Err(GraphError::DuplicateInnovation));
    assert_eq!(g.conn_count(), 1);
    assert_eq!(g.find_conn(0, 2), Some(0));
    assert_eq!(g.find_conn(1, 2), None);
    assert_eq!(g.node(0).iter_forward_conns(), &vec![0]);
    assert_eq!(g.node(2).iter_backward_conns(), &vec![0]);
    assert_eq!(g.node(1).forward_conns(), 0);
}

#[test]
fn add_conn_until_saturated() {
    let mut rng = StdRng::seed_from_u64(7);
    let mut tracker = InnovationTracker::new(2, 2);
    let mut g = FeedForwardGenome::minimal(2, 2);
    let mut added = 0;
    loop {
        match g.mutate_add_conn(&mut tracker, &mut rng, w(0.25)) {
            Ok(c) => {
                added += 1;
                assert_eq!(c + 1, g.conn_count());
                assert!(added <= 16);
            }
            Err(e) => {
                assert_eq!(e, MutationError::NoCandidate);
                break;
            }
        }
    }
    // Two inputs times two outputs, no hidden node.
    assert_eq!(added, 4);
    let gs = genes(&g);
    for a in 0..gs.len() {
        for b in a + 1..gs.len() {
            assert_ne!((gs[a].0, gs[a].1), (gs[b].0, gs[b].1));
        }
    }
    assert_eq!(
        g.mutate_add_conn(&mut tracker, &mut rng, w(0.25)),
        Err(MutationError::NoCandidate)
    );
    assert_eq!(g.conn_count(), 4);
}

#[test]
fn add_conn_keeps_graph_acyclic() {
    let mut rng = StdRng::seed_from_u64(11);
    let (mut g, mut tracker) = single_link();
    g.mutate_add_node(&mut tracker, &mut rng).unwrap();
    g.mutate_add_node(&mut tracker, &mut rng).unwrap();
    while g.mutate_add_conn(&mut tracker, &mut rng, w(0.5)).is_ok() {}
    // Every node is evaluated: no cycle.
    assert_eq!(g.activation_order().len(), g.node_count());
}

#[test]
fn add_node_splits_connection() {
    let mut rng = StdRng::seed_from_u64(3);
    let (mut g, mut tracker) = single_link();
    g.set_conn_weight(0, w(0.75));
    let next_node = tracker.current_node();
    let h = g.mutate_add_node(&mut tracker, &mut rng).unwrap();
    assert_eq!(g.conn_count(), 3);
    assert_eq!(g.hidden_len(), 1);
    assert_eq!(h, 3);
    assert_eq!(g.node(h).kind(), NodeKind::Hidden);
    assert_eq!(g.node(h).id(), next_node);
    assert!(!g.conn(0).enabled());
    assert_eq!(g.conn(0).weight(), w(0.75));
    assert_eq!((g.conn(1).in_node(), g.conn(1).out_node()), (0, h));
    assert_eq!(g.conn(1).weight(), UNIT_WEIGHT);
    assert_eq!((g.conn(2).in_node(), g.conn(2).out_node()), (h, 2));
    assert_eq!(g.conn(2).weight(), w(0.75));
    assert!(g.conn(1).enabled() && g.conn(2).enabled());
    assert_eq!(tracker.lookup(0, next_node), Some(g.conn(1).innov()));
    assert_eq!(tracker.lookup(next_node, 2), Some(g.conn(2).innov()));
}

#[test]
fn add_node_needs_enabled_connection() {
    let mut rng = StdRng::seed_from_u64(3);
    let mut tracker = InnovationTracker::new(2, 1);
    let mut g = FeedForwardGenome::minimal(2, 1);
    assert_eq!(g.mutate_add_node(&mut tracker, &mut rng), Err(MutationError::NoCandidate));
    g.add_conn(0, 2, w(1.0), 0).unwrap();
    g.disable_conn(0);
    assert_eq!(g.mutate_add_node(&mut tracker, &mut rng), Err(MutationError::NoCandidate));
    assert_eq!(g.conn_count(), 1);
}

#[test]
fn add_node_with_foreign_tracker_conflicts() {
    let mut rng = StdRng::seed_from_u64(3);
    let (mut g, mut tracker) = single_link();
    g.mutate_add_node(&mut tracker, &mut rng).unwrap();
    // A fresh tracker hands out the identity that the genome's hidden node holds.
    let mut other = InnovationTracker::new(2, 1);
    assert_eq!(g.mutate_add_node(&mut other, &mut rng), Err(MutationError::Conflict));
    assert_eq!(g.conn_count(), 3);
}

#[test]
fn add_node_with_spent_tracker_is_exhausted() {
    let mut rng = StdRng::seed_from_u64(3);
    let (mut g, _) = single_link();
    // Inputs and outputs take every node identity but the last one.
    let mut spent = InnovationTracker::new(1, u32::MAX as usize - 1);
    assert_eq!(spent.current_node(), u32::MAX);
    assert_eq!(g.mutate_add_node(&mut spent, &mut rng), Err(MutationError::Exhausted));
    assert_eq!(g.conn_count(), 1);
    assert_eq!(spent.current(), 0);
}

#[test]
fn add_conn_with_foreign_tracker_conflicts() {
    let mut rng = StdRng::seed_from_u64(3);
    let (mut g, _) = single_link();
    // The only free pair is 1 -> 2; a fresh tracker names it with the
    // innovation that 0 -> 2 already carries.
    let mut other = InnovationTracker::new(2, 1);
    assert_eq!(g.mutate_add_conn(&mut other, &mut rng, w(1.0)), Err(MutationError::Conflict));
    assert_eq!(g.conn_count(), 1);
}

#[test]
fn tracker_reuses_and_increases() {
    let mut t = InnovationTracker::new(2, 1);
    assert_eq!(t.current(), 0);
    let a = t.innovation(0, 2).unwrap();
    let b = t.innovation(1, 2).unwrap();
    let a2 = t.innovation(0, 2).unwrap();
    let c = t.innovation(2, 0).unwrap();
    assert_eq!(a, a2);
    assert!(a < b && b < c);
    assert_eq!((a, b, c), (0, 1, 2));
    assert_eq!(t.current(), 3);
    assert_eq!(t.lookup(1, 2), Some(1));
    assert_eq!(t.lookup(1, 0), None);
    assert_eq!(t.current_node(), 3);
    assert_eq!(t.new_node_id(), Some(3));
    assert_eq!(t.new_node_id(), Some(4));
}

#[test]
fn innov_counter() {
    let mut i = bevy_neat::Innov::new(5);
    assert_eq!(i.current(), 5);
    assert_eq!(i.next(), 5);
    assert_eq!(i.next(), 6);
    assert_eq!(i.current(), 7);
    assert!(!i.is_exhausted());
    assert!(bevy_neat::Innov::new(u32::MAX).is_exhausted());
}

fn evolved(seed: u64) -> (FeedForwardGenome, InnovationTracker) {
    let mut rng = StdRng::seed_from_u64(seed);
    let (mut g, mut tracker) = single_link();
    g.mutate_add_node(&mut tracker, &mut rng).unwrap();
    g.mutate_add_conn(&mut tracker, &mut rng, w(-0.5)).unwrap();
    (g, tracker)
}

#[test]
fn self_crossover_keeps_genes() {
    let (mut g, _) = evolved(5);
    g.set_fitness(w(2.0));
    for fitter in [Fitter::Lhs, Fitter::Rhs, Fitter::Equal] {
        let mut rng = StdRng::seed_from_u64(9);
        let child = FeedForwardGenome::crossover(&g, &g, fitter, 3, 4, &mut rng).unwrap();
        assert_eq!(genes(&child), genes(&g));
        assert_eq!(child.fitness(), None);
        assert_eq!(child.hidden_len(), g.hidden_len());
    }
}

#[test]
fn crossover_takes_fitter_parents_genes() {
    let mut rng = StdRng::seed_from_u64(1);
    let mut tracker = InnovationTracker::new(2, 1);
    let mut a = FeedForwardGenome::minimal(2, 1);
    let i0 = tracker.innovation(0, 2).unwrap();
    a.add_conn(0, 2, w(1.0), i0).unwrap();
    let mut b = FeedForwardGenome::minimal(2, 1);
    b.add_conn(0, 2, w(3.0), i0).unwrap();
    b.mutate_add_node(&mut tracker, &mut rng).unwrap();
    a.set_fitness(w(1.0));
    b.set_fitness(w(0.5));
    let child = FeedForwardGenome::crossover(&a, &b, Fitter::Lhs, 1, 1, &mut rng).unwrap();
    // Always the fitter parent's version of a matching gene, no other gene.
    assert_eq!(genes(&child), genes(&a));
    let child = FeedForwardGenome::crossover(&a, &b, Fitter::Rhs, 1, 1, &mut rng).unwrap();
    assert_eq!(genes(&child), genes(&b));
    assert_eq!(child.hidden_len(), 1);
}

#[test]
fn crossover_errors() {
    let mut rng = StdRng::seed_from_u64(1);
    let (mut a, _) = single_link();
    let (mut b, _) = single_link();
    assert_eq!(
        FeedForwardGenome::crossover(&a, &b, Fitter::Equal, 1, 2, &mut rng).err(),
        Some(CrossoverError::FitnessUnset)
    );
    a.set_fitness(w(1.0));
    b.set_fitness(w(1.0));
    assert!(FeedForwardGenome::crossover(&a, &b, Fitter::Equal, 1, 2, &mut rng).is_ok());
    let mut c = FeedForwardGenome::minimal(3, 1);
    c.set_fitness(w(1.0));
    assert_eq!(
        FeedForwardGenome::crossover(&a, &c, Fitter::Equal, 1, 2, &mut rng).err(),
        Some(CrossoverError::ArityMismatch)
    );
    // The same innovation on another pair of nodes.
    let mut d = FeedForwardGenome::minimal(2, 1);
    d.add_conn(1, 2, w(1.0), a.conn(0).innov()).unwrap();
    d.set_fitness(w(1.0));
    assert_eq!(
        FeedForwardGenome::crossover(&a, &d, Fitter::Equal, 1, 2, &mut rng).err(),
        Some(CrossoverError::Inconsistent)
    );
}

#[test]
fn alignment_counts_and_symmetry() {
    let mut t = InnovationTracker::new(3, 1);
    let mut a = FeedForwardGenome::minimal(3, 1);
    let mut b = FeedForwardGenome::minimal(3, 1);
    let i0 = t.innovation(0, 3).unwrap();
    let i1 = t.innovation(1, 3).unwrap();
    let i2 = t.innovation(2, 3).unwrap();
    a.add_conn(0, 3, w(1.0), i0).unwrap();
    b.add_conn(0, 3, w(0.5), i0).unwrap();
    a.add_conn(1, 3, w(2.0), i1).unwrap();
    b.add_conn(2, 3, w(2.0), i2).unwrap();
    assert_eq!(FeedForwardGenome::align(&a, &b).err(), Some(CompareError::FitnessUnset));
    a.set_fitness(w(1.0));
    b.set_fitness(w(1.0));
    let ab = FeedForwardGenome::align(&a, &b).unwrap();
    let ba = FeedForwardGenome::align(&b, &a).unwrap();
    // Gene 1 of `a` lies below `b`'s highest innovation: disjoint.
    // Gene 2 of `b` lies above all of `a`'s: excess.
    assert_eq!((ab.lhs_disjoint, ab.lhs_excess), (1, 0));
    assert_eq!((ab.rhs_disjoint, ab.rhs_excess), (0, 1));
    assert_eq!(ab.size, 2);
    assert_eq!(ab.matching.len(), 1);
    assert_eq!(ab.matching[0].innov, i0);
    assert_eq!((ab.matching[0].lhs_weight, ab.matching[0].rhs_weight), (w(1.0), w(0.5)));
    assert_eq!((ba.lhs_excess, ba.rhs_excess), (ab.rhs_excess, ab.lhs_excess));
    assert_eq!((ba.lhs_disjoint, ba.rhs_disjoint), (ab.rhs_disjoint, ab.lhs_disjoint));
    assert_eq!(ba.size, ab.size);
    assert_eq!((ba.matching[0].lhs_weight, ba.matching[0].rhs_weight), (w(0.5), w(1.0)));
}

#[test]
fn alignment_orders_matching_genes() {
    let mut t = InnovationTracker::new(3, 1);
    let mut a = FeedForwardGenome::minimal(3, 1);
    let mut b = FeedForwardGenome::minimal(3, 1);
    let i0 = t.innovation(0, 3).unwrap();
    let i1 = t.innovation(1, 3).unwrap();
    let i2 = t.innovation(2, 3).unwrap();
    for (k, i) in [(2usize, i2), (0, i0), (1, i1)] {
        a.add_conn(k, 3, w(k as f32), i).unwrap();
    }
    for (k, i) in [(1usize, i1), (2, i2), (0, i0)] {
        b.add_conn(k, 3, w(k as f32 + 10.0), i).unwrap();
    }
    a.set_fitness(0);
    b.set_fitness(0);
    let ab = FeedForwardGenome::align(&a, &b).unwrap();
    let innovs: Vec<u32> = ab.matching.iter().map(|m| m.innov).collect();
    assert_eq!(innovs, vec![i0, i1, i2]);
    assert_eq!(ab.matching[2].lhs_weight, w(2.0));
    assert_eq!(ab.matching[2].rhs_weight, w(12.0));
    assert_eq!((ab.lhs_excess, ab.lhs_disjoint, ab.rhs_excess, ab.rhs_disjoint), (0, 0, 0, 0));
}

#[test]
fn activation_direct_link() {
    let (g, _) = single_link();
    assert_eq!(g.activate(&Identity, vec![3.0, 5.0]), Ok(vec![3.0]));
}

#[test]
fn activation_through_split() {
    let mut rng = StdRng::seed_from_u64(2);
    let (mut g, mut tracker) = single_link();
    g.mutate_add_node(&mut tracker, &mut rng).unwrap();
    assert_eq!(g.conn_count(), 3);
    assert_eq!(g.hidden_len(), 1);
    let enabled: Vec<u32> = (0..3).filter(|&c| g.conn(c).enabled()).map(|c| g.conn(c).weight()).collect();
    assert_eq!(enabled, vec![w(1.0), w(1.0)]);
    assert_eq!((0..3).filter(|&c| !g.conn(c).enabled()).count(), 1);
    assert_eq!(g.activate(&Identity, vec![3.0, 5.0]), Ok(vec![3.0]));
}

#[test]
fn activation_is_repeatable() {
    let (mut g, _) = evolved(4);
    g.set_conn_weight(0, w(0.1));
    let first = g.activate(&Identity, vec![0.3, 0.7]).unwrap();
    let second = g.activate(&Identity, vec![0.3, 0.7]).unwrap();
    let bits = |v: &Vec<f32>| v.iter().map(|x| x.to_bits()).collect::<Vec<u32>>();
    assert_eq!(bits(&first), bits(&second));
    assert_eq!(g.activation_order(), g.activation_order());
}

#[test]
fn activation_order_inputs_hidden_outputs() {
    let mut rng = StdRng::seed_from_u64(2);
    let (mut g, mut tracker) = single_link();
    let h = g.mutate_add_node(&mut tracker, &mut rng).unwrap();
    assert_eq!(g.activation_order(), vec![0, 1, h, 2]);
}

#[test]
fn activation_order_prefers_more_entering_connections() {
    let mut g = FeedForwardGenome::minimal(1, 2);
    g.add_conn(0, 2, w(1.0), 0).unwrap();
    assert_eq!(g.activation_order(), vec![0, 2, 1]);
}

#[test]
fn activation_unreached_output_is_zero() {
    let g = FeedForwardGenome::minimal(2, 1);
    assert_eq!(g.activate(&Identity, vec![3.0, 5.0]), Ok(vec![0.0]));
}

#[test]
fn mutations_succeed_with_own_tracker() {
    let mut rng = StdRng::seed_from_u64(21);
    let mut tracker = InnovationTracker::new(2, 1);
    let mut g = FeedForwardGenome::minimal(2, 1);
    assert!(g.mutate_add_conn(&mut tracker, &mut rng, w(1.0)).is_ok());
    assert!(g.mutate_add_node(&mut tracker, &mut rng).is_ok());
    assert!(g.mutate_add_conn(&mut tracker, &mut rng, w(1.0)).is_ok());
    assert!(g.mutate_add_node(&mut tracker, &mut rng).is_ok());
}

#[test]
fn insert_conn_is_a_set_insertion() {
    let mut n = bevy_neat::NodeGene::new_hidden(7);
    n.insert_forward_conn(4);
    n.insert_forward_conn(1);
    n.insert_forward_conn(4);
    n.insert_forward_conn(9);
    assert_eq!(n.iter_forward_conns(), &vec![1, 4, 9]);
    n.insert_backward_conn(2);
    n.insert_backward_conn(2);
    assert_eq!(n.iter_backward_conns(), &vec![2]);
    let mut o = bevy_neat::NodeGene::new_output(3);
    o.insert_forward_conn(1);
    assert_eq!(o.forward_conns(), 0);
}

#[test]
fn connections_in_innovation_order() {
    let mut g = FeedForwardGenome::minimal(3, 1);
    g.add_conn(2, 3, w(1.0), 5).unwrap();
    g.add_conn(0, 3, w(1.0), 9).unwrap();
    g.add_conn(1, 3, w(1.0), 2).unwrap();
    assert_eq!(g.innovation_order(), vec![2, 0, 1]);
}

#[test]
fn activation_rejects_wrong_length() {
    let (g, _) = single_link();
    assert_eq!(g.activate(&Identity, vec![1.0]), Err(ActivationError::InputLength));
    assert_eq!(g.activate(&Identity, vec![1.0, 2.0, 3.0]), Err(ActivationError::InputLength));
}

#[test]
fn activation_sums_weighted_inputs() {
    let mut g = FeedForwardGenome::minimal(2, 2);
    g.add_conn(0, 2, w(2.0), 0).unwrap();
    g.add_conn(1, 2, w(-1.0), 1).unwrap();
    g.add_conn(1, 3, w(0.5), 2).unwrap();
    assert_eq!(g.activate(&Identity, vec![3.0, 4.0]), Ok(vec![2.0, 2.0]));
    g.disable_conn(1);
    assert_eq!(g.activate(&Identity, vec![3.0, 4.0]), Ok(vec![6.0, 2.0]));
}

#[test]
fn mutate_weight_changes_one_weight() {
    let mut rng = StdRng::seed_from_u64(8);
    let mut g = FeedForwardGenome::minimal(2, 1);
    assert_eq!(g.mutate_conn_weight(&mut rng, w(9.0)), None);
    g.add_conn(0, 2, w(1.0), 0).unwrap();
    g.add_conn(1, 2, w(1.0), 1).unwrap();
    let c = g.mutate_conn_weight(&mut rng, w(9.0)).unwrap();
    assert_eq!(g.conn(c).weight(), w(9.0));
    assert_eq!(g.conn(1 - c).weight(), w(1.0));
    assert!(g.conn(c).enabled());
    assert_eq!(g.conn(c).innov(), c as u32);
}

#[test]
fn population_starts_minimal_and_runs() {
    let config = Config::new(2, 1, 5, w(3.0), w(1.0), w(1.0), w(0.4));
    assert_eq!((config.input_len(), config.output_len(), config.pop_size()), (2, 1, 5));
    assert_eq!((config.comp_thresh(), config.c1(), config.c2(), config.c3()), (w(3.0), w(1.0), w(1.0), w(0.4)));
    let mut p = Population::new(config);
    assert_eq!(p.species().len(), 1);
    assert_eq!(p.species()[0].members().len(), 5);
    assert_eq!(p.species()[0].shared_fitness(), None);
    assert_eq!(p.species()[0].representative().conn_count(), 0);
    for m in p.species()[0].members() {
        assert_eq!((m.conn_count(), m.hidden_len(), m.input_len(), m.output_len()), (0, 0, 2, 1));
        assert_eq!(m.fitness(), None);
    }
    p.run(|g, c| w((g.node_count() + c.pop_size()) as f32));
    for m in p.species()[0].members() {
        assert_eq!(m.fitness(), Some(w(8.0)));
    }
    assert_eq!(p.config().pop_size(), 5);
}
