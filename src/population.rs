use crate::config::Config;
use crate::genome::{FeedForwardGenome, GenomeView};
use vstd::prelude::*;

verus! {

/// A cluster of genomes around a representative.
#[derive(Debug)]
pub struct Species {
    representative: FeedForwardGenome,
    shared_fitness: Option<u32>,
    members: Vec<FeedForwardGenome>,
}

/// The genomes of one run, grouped into species.
#[derive(Debug)]
pub struct Population {
    config: Config,
    species: Vec<Species>,
}

/// A genome as `minimal` creates it for `config`.
pub open spec fn is_minimal_for(g: GenomeView, config: Config) -> bool {
    &&& crate::genome::genome_wf(g)
    &&& g.input_len == config@.input_len
    &&& g.output_len == config@.output_len
    &&& g.nodes.len() == config@.input_len + config@.output_len
    &&& g.conns.len() == 0
    &&& g.fitness.is_none()
}

impl Species {
    pub closed spec fn spec_members(&self) -> Seq<FeedForwardGenome> {
        self.members@
    }

    pub closed spec fn spec_representative(&self) -> FeedForwardGenome {
        self.representative
    }

    pub closed spec fn spec_shared_fitness(&self) -> Option<u32> {
        self.shared_fitness
    }

    pub fn representative(&self) -> (r: &FeedForwardGenome)
        ensures
            *r == self.spec_representative(),
    {
        &self.representative
    }

    pub fn members(&self) -> (r: &Vec<FeedForwardGenome>)
        ensures
            r@ == self.spec_members(),
    {
        &self.members
    }

    /// Bit pattern of the species' shared fitness, once computed.
    pub fn shared_fitness(&self) -> (r: Option<u32>)
        ensures
            r == self.spec_shared_fitness(),
    {
        self.shared_fitness
    }
}

impl Population {
    pub closed spec fn spec_config(&self) -> Config {
        self.config
    }

    pub closed spec fn spec_species(&self) -> Seq<Species> {
        self.species@
    }

    /// A single species of `pop_size` minimal genomes, with a minimal
    /// representative and no shared fitness.
    pub fn new(config: Config) -> (r: Population)
        requires
            config.wf(),
        ensures
            r.spec_config() == config,
            r.spec_species().len() == 1,
            is_minimal_for(r.spec_species()[0].spec_representative()@, config),
            r.spec_species()[0].spec_shared_fitness().is_none(),
            r.spec_species()[0].spec_members().len() == config@.pop_size,
            forall|k: int|
                0 <= k < config@.pop_size ==> is_minimal_for(
                    (#[trigger] r.spec_species()[0].spec_members()[k])@,
                    config,
                ),
    {
        let mut members: Vec<FeedForwardGenome> = Vec::new();
        let n = config.pop_size();
        let mut k: usize = 0;
        while k < n
            invariant
                config.wf(),
                n == config@.pop_size,
                k <= n,
                members@.len() == k,
                forall|j: int| 0 <= j < k ==> is_minimal_for((#[trigger] members@[j])@, config),
            decreases n - k,
        {
            members.push(FeedForwardGenome::minimal(config.input_len(), config.output_len()));
            k = k + 1;
        }
        let representative = FeedForwardGenome::minimal(config.input_len(), config.output_len());
        let mut species: Vec<Species> = Vec::new();
        species.push(Species { representative, shared_fitness: None, members });
        Population { config, species }
    }

    pub fn config(&self) -> (r: &Config)
        ensures
            *r == self.spec_config(),
    {
        &self.config
    }

    pub fn species(&self) -> (r: &Vec<Species>)
        ensures
            r@ == self.spec_species(),
    {
        &self.species
    }

    /// Evaluates every member of every species with `fitness_fn` and records
    /// the result (a bit pattern) as the member's fitness.
    pub fn run<F: Fn(&FeedForwardGenome, &Config) -> u32>(&mut self, fitness_fn: F)
        requires
            forall|g: &FeedForwardGenome, c: &Config| #[trigger] fitness_fn.requires((g, c)),
        ensures
            final(self).spec_config() == old(self).spec_config(),
            final(self).spec_species().len() == old(self).spec_species().len(),
            forall|s: int|
                0 <= s < old(self).spec_species().len() ==> {
                    let s0 = #[trigger] old(self).spec_species()[s];
                    let s1 = final(self).spec_species()[s];
                    &&& s1.spec_representative() == s0.spec_representative()
                    &&& s1.spec_shared_fitness() == s0.spec_shared_fitness()
                    &&& s1.spec_members().len() == s0.spec_members().len()
                    &&& forall|k: int|
                        0 <= k < s0.spec_members().len() ==> {
                            let m0 = #[trigger] s0.spec_members()[k];
                            let m1 = s1.spec_members()[k];
                            &&& m1@.fitness is Some
                            &&& m1@ == (GenomeView { fitness: m1@.fitness, ..m0@ })
                            &&& fitness_fn.ensures((&m0, &old(self).spec_config()), m1@.fitness.unwrap())
                        }
                },
    {
        let ghost start = *self;
        let mut s: usize = 0;
        while s < self.species.len()
            invariant
                self.config == start.config,
                self.species@.len() == start.species@.len(),
                s <= self.species@.len(),
                forall|g: &FeedForwardGenome, c: &Config| #[trigger] fitness_fn.requires((g, c)),
                forall|t: int|
                    s <= t < self.species@.len() ==> #[trigger] self.species@[t] == start.species@[t],
                forall|t: int|
                    0 <= t < s ==> {
                        let s0 = #[trigger] start.species@[t];
                        let s1 = self.species@[t];
                        &&& s1.representative == s0.representative
                        &&& s1.shared_fitness == s0.shared_fitness
                        &&& s1.members@.len() == s0.members@.len()
                        &&& forall|k: int|
                            0 <= k < s0.members@.len() ==> {
                                let m0 = #[trigger] s0.members@[k];
                                let m1 = s1.members@[k];
                                &&& m1@.fitness is Some
                                &&& m1@ == (GenomeView { fitness: m1@.fitness, ..m0@ })
                                &&& fitness_fn.ensures((&m0, &start.config), m1@.fitness.unwrap())
                            }
                    },
            decreases start.species@.len() - s,
        {
            let ghost outer = self.species@;
            let mut k: usize = 0;
            while k < self.species[s].members.len()
                invariant
                    self.config == start.config,
                    self.species@.len() == start.species@.len(),
                    s < self.species@.len(),
                    forall|g: &FeedForwardGenome, c: &Config| #[trigger] fitness_fn.requires((g, c)),
                    forall|t: int|
                        0 <= t < self.species@.len() && t != s ==> #[trigger] self.species@[t]
                            == outer[t],
                    outer.len() == start.species@.len(),
                    forall|t: int|
                        s < t < outer.len() ==> #[trigger] outer[t] == start.species@[t],
                    forall|t: int|
                        0 <= t < s ==> {
                            let s0 = #[trigger] start.species@[t];
                            let s1 = outer[t];
                            &&& s1.representative == s0.representative
                            &&& s1.shared_fitness == s0.shared_fitness
                            &&& s1.members@.len() == s0.members@.len()
                            &&& forall|k: int|
                                0 <= k < s0.members@.len() ==> {
                                    let m0 = #[trigger] s0.members@[k];
                                    let m1 = s1.members@[k];
                                    &&& m1@.fitness is Some
                                    &&& m1@ == (GenomeView { fitness: m1@.fitness, ..m0@ })
                                    &&& fitness_fn.ensures((&m0, &start.config), m1@.fitness.unwrap())
                                }
                        },
                    self.species@[s as int].representative == start.species@[s as int].representative,
                    self.species@[s as int].shared_fitness == start.species@[s as int].shared_fitness,
                    self.species@[s as int].members@.len() == start.species@[s as int].members@.len(),
                    k <= self.species@[s as int].members@.len(),
                    forall|j: int|
                        k <= j < self.species@[s as int].members@.len() ==> #[trigger] self.species@[s as int].members@[j]
                            == start.species@[s as int].members@[j],
                    forall|j: int|
                        0 <= j < k ==> {
                            let m0 = #[trigger] start.species@[s as int].members@[j];
                            let m1 = self.species@[s as int].members@[j];
                            &&& m1@.fitness is Some
                            &&& m1@ == (GenomeView { fitness: m1@.fitness, ..m0@ })
                            &&& fitness_fn.ensures((&m0, &start.config), m1@.fitness.unwrap())
                        },
                decreases start.species@[s as int].members@.len() - k,
            {
                let f = fitness_fn(&self.species[s].members[k], &self.config);
                self.species[s].members[k].set_fitness(f);
                k = k + 1;
            }
            proof {
                assert forall|t: int| 0 <= t < s + 1 implies {
                    let s0 = #[trigger] start.species@[t];
                    let s1 = self.species@[t];
                    &&& s1.representative == s0.representative
                    &&& s1.shared_fitness == s0.shared_fitness
                    &&& s1.members@.len() == s0.members@.len()
                    &&& forall|k: int|
                        0 <= k < s0.members@.len() ==> {
                            let m0 = #[trigger] s0.members@[k];
                            let m1 = s1.members@[k];
                            &&& m1@.fitness is Some
                            &&& m1@ == (GenomeView { fitness: m1@.fitness, ..m0@ })
                            &&& fitness_fn.ensures((&m0, &start.config), m1@.fitness.unwrap())
                        }
                } by {
                    if t < s {
                        assert(self.species@[t] == outer[t]);
                    }
                }
            }
            s = s + 1;
        }
    }
}

} // verus!
