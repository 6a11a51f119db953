//! The population and its generations.
use vstd::prelude::*;
use rand::rngs::StdRng;
use crate::allocation::{allocate, evened, total};
use crate::innovation_record::InnovationRecord;
use crate::mutation::{
    assigned_once, connection_added, connection_removed, connection_toggled, connection_tried,
    mutation, node_added, node_removed, perturbed_once, removal_tried, resized, reweighted,
    rewired, room_to_bridge, room_to_connect, room_to_split, split_at, weight_assigned,
    weight_perturbed,
};
use crate::network::activation::answered;
use crate::network::network_graph::{default_nodes, initial_links, lemma_initial_links_later, same_wiring};
use crate::network::store::swap_removed;
use crate::network::{reweighed, toggled, Network};
use crate::parameters::Parameters;
use crate::ranking::{lemma_ranked, lemma_ranked_members, ranked, ranks_below, sort_by_fitness};
use crate::scalar::{
    ceiling_of, drawn, number_of, product_of, quotient_of, sampled, struck, sum_of, Arithmetic,
    Scalar,
};
use crate::species::{
    accepts, copies, offspring_of, roomy, shared, stagnation, thinned, Species, SpeciesInfo,
};

verus! {

/// `network` is a genome of a population with the settings `params`: well
/// formed, with the numbers of inputs and outputs and the squashing
/// functions that the settings name, and small enough to be a parent.
pub open spec fn healthy<T: Network>(network: &T, params: &Parameters) -> bool {
    &&& network.genome().wf()
    &&& network.genome().inputs() == params.input_number
    &&& network.genome().outputs() == params.output_number
    &&& network.hidden_kind() == params.hidden_activation
    &&& network.output_kind() == params.output_activation
    &&& roomy(network)
}

/// `network` belongs to the run that `ledger` records, and has no cycle.
pub open spec fn lawful<T: Network>(network: &T, ledger: &InnovationRecord) -> bool {
    network.genome().registered(ledger) && network.genome().acyclic()
}

/// `ledger` is a later state of `earlier` in which no species id was handed
/// out, and which is well formed where `earlier` was.
pub open spec fn grown_on(ledger: &InnovationRecord, earlier: &InnovationRecord) -> bool {
    &&& ledger.extends(earlier)
    &&& ledger.species() == earlier.species()
    &&& earlier.wf() ==> ledger.wf()
}

/// A copy of a healthy, lawful network is healthy and lawful.
pub proof fn lemma_copy<T: Network>(
    copy: &T,
    network: &T,
    params: &Parameters,
    ledger: &InnovationRecord,
)
    requires
        copies(copy, network),
    ensures
        healthy(network, params) ==> healthy(copy, params),
        lawful(network, ledger) ==> lawful(copy, ledger),
{
}

/// Tells the fitness of a network.
///
/// Nothing is asked of what [`Evaluator::rate`] returns, nor of what it does
/// to the network it is handed: the population keeps its own genomes.
pub trait Evaluator<T: Network> {
    /// The fitness of `network`, which is a copy of the genome at place
    /// `index` of the population, and may be activated at will.
    fn rate(&mut self, index: usize, network: &mut T) -> Scalar
        requires
            old(network).genome().wf(),
    ;
}

/// The figures of one species in one generation, for a log.
#[derive(Clone, Copy, Debug, PartialEq, Eq, Structural)]
pub struct SpeciesSummary {
    pub id: usize,
    pub age: usize,
    /// The number of members after culling.
    pub size: usize,
    /// The number of offspring that the species was given.
    pub offspring: usize,
    /// The fitness that the members share.
    pub adjusted_fitness: Scalar,
}

/// A population of networks, with what its species carry over from the
/// generation before.
pub struct Pool<T: Network> {
    list: Vec<T>,
    params: Parameters,
    verbosity: usize,
    prev_species_info: Vec<SpeciesInfo<T>>,
    report: Vec<SpeciesSummary>,
    generation: usize,
}

impl<T: Network> Pool<T> {
    /// The genomes of the population.
    pub closed spec fn genomes(&self) -> Seq<T> {
        self.list@
    }

    /// How much the caller wants logged.
    pub closed spec fn level(&self) -> usize {
        self.verbosity
    }

    /// The figures of the species that bred the population.
    pub closed spec fn summaries(&self) -> Seq<SpeciesSummary> {
        self.report@
    }

    /// The settings of the run.
    pub closed spec fn settings(&self) -> Parameters {
        self.params
    }

    /// What the species of the generation before have left.
    pub closed spec fn infos(&self) -> Seq<SpeciesInfo<T>> {
        self.prev_species_info@
    }

    /// The number of the generation that the population is in.
    pub closed spec fn generations(&self) -> nat {
        self.generation as nat
    }

    /// The population has the size that the settings name, every genome and
    /// every representative is healthy, and no species is older than the run.
    pub open spec fn sound(&self) -> bool {
        &&& self.genomes().len() == self.settings().population
        &&& forall|i: int|
            0 <= i < self.genomes().len() ==> healthy(#[trigger] &self.genomes()[i], &self.settings())
        &&& forall|k: int|
            0 <= k < self.infos().len() ==> healthy(
                &(#[trigger] self.infos()[k]).representative,
                &self.settings(),
            ) && self.infos()[k].age < self.generations() && self.infos()[k].stagnant
                <= self.infos()[k].age + 1
    }

    /// Every genome has a fitness.
    pub open spec fn rated(&self) -> bool {
        forall|i: int| 0 <= i < self.genomes().len() ==> (#[trigger] self.genomes()[i]).rating() is Some
    }

    /// `ledger` is well formed, every genome belongs to its run and has no
    /// cycle, and every representative belongs to its run.
    pub open spec fn lawful(&self, ledger: &InnovationRecord) -> bool {
        &&& ledger.wf()
        &&& forall|i: int|
            0 <= i < self.genomes().len() ==> lawful(#[trigger] &self.genomes()[i], ledger)
        &&& forall|k: int|
            0 <= k < self.infos().len() ==> (
            #[trigger] self.infos()[k]).representative.genome().registered(ledger)
    }

    /// In a lawful population, two connections that join the same two node
    /// ids carry the same innovation number, in whichever genomes they are.
    pub proof fn lemma_innovations_agree(&self, ledger: &InnovationRecord, i: int, j: int, e: int, f: int)
        requires
            self.lawful(ledger),
            0 <= i < self.genomes().len(),
            0 <= j < self.genomes().len(),
            0 <= e < self.genomes()[i].genome().links().len(),
            0 <= f < self.genomes()[j].genome().links().len(),
            self.genomes()[i].genome().source_id(e) == self.genomes()[j].genome().source_id(f),
            self.genomes()[i].genome().target_id(e) == self.genomes()[j].genome().target_id(f),
        ensures
            self.genomes()[i].genome().links()[e].data.innov_number
                == self.genomes()[j].genome().links()[f].data.innov_number,
    {
        assert(lawful(&self.genomes()[i], ledger) && lawful(&self.genomes()[j], ledger));
        self.genomes()[i].genome().lemma_shared_innovation(
            &self.genomes()[j].genome(),
            ledger,
            e,
            f,
        );
    }

    /// In a lawful population no genome has a cycle.
    pub proof fn lemma_no_cycles(&self, ledger: &InnovationRecord, i: int)
        requires
            self.lawful(ledger),
            0 <= i < self.genomes().len(),
        ensures
            self.genomes()[i].genome().acyclic(),
    {
        assert(lawful(&self.genomes()[i], ledger));
    }

    /// The number of the generation that the population is in, counted from
    /// one.
    pub fn generation(&self) -> (generation: usize)
        ensures
            generation == self.generations(),
    {
        self.generation
    }

    /// The number of genomes.
    pub fn size(&self) -> (size: usize)
        ensures
            size == self.genomes().len(),
    {
        self.list.len()
    }

    /// The genome at place `index`, or nothing past the last.
    /// How much the caller wants logged: the number that the population
    /// was made with.
    pub fn verbosity(&self) -> (verbosity: usize)
        ensures
            verbosity == self.level(),
    {
        self.verbosity
    }

    /// The figures of the species that bred the population, species by
    /// species: none for a first generation.
    pub fn species_report(&self) -> (report: &Vec<SpeciesSummary>)
        ensures
            report@ == self.summaries(),
    {
        &self.report
    }

    pub fn nth(&self, index: usize) -> (network: Option<&T>)
        ensures
            network is Some <==> index < self.genomes().len(),
            network matches Some(n) ==> *n == self.genomes()[index as int],
    {
        if index < self.list.len() {
            Some(&self.list[index])
        } else {
            None
        }
    }

    /// The first generation: as many fresh genomes as the settings ask for,
    /// each fully connected from its inputs to its outputs, with weights
    /// sampled from the range of weights. `verbosity` is kept for the caller
    /// that logs.
    pub fn new<A: Arithmetic>(
        params: Parameters,
        verbosity: usize,
        innov_record: &mut InnovationRecord,
        ops: &A,
        rng: &mut StdRng,
    ) -> (pool: Self)
        requires
            params.input_number + params.output_number + 1 + 2 * (params.input_number
                * params.output_number) <= u32::MAX,
            old(innov_record).knows_initial(
                params.input_number as nat,
                params.output_number as nat,
            ) || old(innov_record).connections() + params.input_number * params.output_number
                <= usize::MAX,
        ensures
            pool.sound(),
            pool.settings() == params,
            pool.generations() == 1,
            pool.infos().len() == 0,
            pool.level() == verbosity,
            pool.summaries().len() == 0,
            forall|i: int|
                0 <= i < pool.genomes().len() ==> fresh(
                    ops,
                    #[trigger] &pool.genomes()[i],
                    &params,
                    final(innov_record),
                ),
            final(innov_record).connections() <= old(innov_record).connections()
                + params.input_number * params.output_number,
            final(innov_record).same_beyond_initial(
                old(innov_record),
                params.input_number as nat,
                params.output_number as nat,
            ),
            params.population > 0 ==> final(innov_record).knows_initial(
                params.input_number as nat,
                params.output_number as nat,
            ),
            params.population > 0 && old(innov_record).unknown_initial(
                params.input_number as nat,
                params.output_number as nat,
            ) ==> first_numbers(
                params.input_number as nat,
                params.output_number as nat,
                old(innov_record),
                final(innov_record),
            ),
            crate::network::numbered_on(final(innov_record), old(innov_record)),
            old(innov_record).wf() && old(innov_record).nodes() >= params.input_number
                + params.output_number + 1 ==> pool.lawful(final(innov_record)),
    {
        let mut list: Vec<T> = Vec::new();
        let mut k: usize = 0;
        while k < params.population
            invariant
                k <= params.population,
                list@.len() == k,
                params.input_number + params.output_number + 1 + 2 * (params.input_number
                    * params.output_number) <= u32::MAX,
                innov_record.knows_initial(params.input_number as nat, params.output_number as nat)
                    || innov_record.connections() + params.input_number * params.output_number
                    <= usize::MAX,
                forall|i: int| 0 <= i < list@.len() ==> healthy(#[trigger] &list@[i], &params),
                forall|i: int|
                    0 <= i < list@.len() ==> fresh(ops, #[trigger] &list@[i], &params, innov_record),
                k == 0 ==> *innov_record == *old(innov_record),
                k > 0 ==> innov_record.knows_initial(
                    params.input_number as nat,
                    params.output_number as nat,
                ),
                innov_record.connections() <= old(innov_record).connections()
                    + params.input_number * params.output_number,
                innov_record.same_beyond_initial(
                    old(innov_record),
                    params.input_number as nat,
                    params.output_number as nat,
                ),
                k > 0 && old(innov_record).unknown_initial(
                    params.input_number as nat,
                    params.output_number as nat,
                ) ==> first_numbers(
                    params.input_number as nat,
                    params.output_number as nat,
                    old(innov_record),
                    innov_record,
                ),
                crate::network::numbered_on(innov_record, old(innov_record)),
                old(innov_record).wf() && old(innov_record).nodes() >= params.input_number
                    + params.output_number + 1 ==> forall|i: int|
                    0 <= i < list@.len() ==> lawful(#[trigger] &list@[i], innov_record),
            decreases params.population - k,
        {
            let ghost before = *innov_record;
            let ghost listed = list@;
            let mut network = T::new(
                params.input_number,
                params.output_number,
                params.hidden_activation,
                params.output_activation,
                innov_record,
            );
            let ghost made = network.genome();
            {
                let graph = network.graph_mut();
                graph.randomize_weights(params.mutation.weight_min, params.mutation.weight_max, ops, rng);
            }
            proof {
                let inputs = params.input_number as nat;
                let outputs = params.output_number as nat;
                made.lemma_rewired(&network.genome());
                innov_record.lemma_extends_transitive(&before, old(innov_record));
                assert(network.genome().links().len() == params.input_number
                    * params.output_number);
                assert(fresh(ops, &network, &params, innov_record));
                assert forall|i: int| 0 <= i < listed.len() implies fresh(
                    ops,
                    #[trigger] &listed[i],
                    &params,
                    innov_record,
                ) by {
                    assert(fresh(ops, &listed[i], &params, &before));
                    lemma_initial_links_later(inputs, outputs, before, *innov_record);
                }
                if old(innov_record).unknown_initial(inputs, outputs) {
                    if k > 0 {
                        lemma_initial_links_later(inputs, outputs, before, *innov_record);
                    } else {
                        assert forall|e: int| 0 <= e < inputs * outputs implies (
                        #[trigger] initial_links(inputs, outputs, *innov_record)[e]).data.innov_number
                            == old(innov_record).connections() + e by {
                            assert(made.links()[e].data.innov_number == old(innov_record).connections() + e);
                        }
                    }
                }
                if old(innov_record).wf() && old(innov_record).nodes() >= params.input_number
                    + params.output_number + 1 {
                    assert forall|i: int| 0 <= i < listed.len() implies lawful(
                        #[trigger] &listed[i],
                        innov_record,
                    ) by {
                        assert(lawful(&listed[i], &before));
                        listed[i].genome().lemma_registered_later(&before, innov_record);
                    }
                    assert(made.registered(innov_record));
                }
            }
            list.push(network);
            k += 1;
        }
        Self {
            list,
            params,
            verbosity,
            prev_species_info: Vec::new(),
            report: Vec::new(),
            generation: 1,
        }
    }

    /// Lets `evaluator` rate every genome, in the order of the population,
    /// records the fitness of each, and puts the genomes in order, the
    /// fittest first. Returns the fittest genome; nothing for an empty
    /// population.
    pub fn evaluate<E: Evaluator<T>>(&mut self, evaluator: &mut E) -> (best: Option<&T>)
        requires
            old(self).sound(),
        ensures
            final(self).sound(),
            final(self).rated(),
            final(self).settings() == old(self).settings(),
            final(self).infos() == old(self).infos(),
            final(self).generations() == old(self).generations(),
            final(self).level() == old(self).level(),
            final(self).summaries() == old(self).summaries(),
            best is Some <==> final(self).genomes().len() > 0,
            best matches Some(b) ==> *b == final(self).genomes()[0] && forall|i: int|
                0 <= i < final(self).genomes().len() ==> !ranks_below(
                    b.rating(),
                    (#[trigger] final(self).genomes()[i]).rating(),
                ),
            forall|ledger: InnovationRecord| #[trigger]
                old(self).lawful(&ledger) ==> final(self).lawful(&ledger),
            exists|rated: Seq<T>| #[trigger]
                ranked(rated) == final(self).genomes() && rated.len() == old(self).genomes().len()
                    && forall|k: int|
                    0 <= k < rated.len() ==> (#[trigger] rated[k]).genome() == old(self).genomes()[k].genome() && rated[k].rating() is Some
                        && told::<E, T>(k as usize, &old(self).genomes()[k], rated[k].rating().unwrap()),
    {
        let count = self.list.len();
        let mut i: usize = 0;
        while i < count
            invariant
                i <= count,
                count == self.list@.len(),
                count == old(self).list@.len(),
                self.params == old(self).params,
                self.prev_species_info == old(self).prev_species_info,
                self.generation == old(self).generation,
                self.verbosity == old(self).verbosity,
                self.report == old(self).report,
                forall|k: int|
                    0 <= k < count ==> healthy(#[trigger] &self.list@[k], &self.params) && (
                    self.list@[k].genome() == old(self).list@[k].genome()),
                forall|k: int| 0 <= k < i ==> (#[trigger] self.list@[k]).rating() is Some,
                forall|k: int|
                    0 <= k < i ==> told::<E, T>(
                        k as usize,
                        &old(self).list@[k],
                        (#[trigger] self.list@[k]).rating().unwrap(),
                    ),
                forall|k: int| i <= k < count ==> #[trigger] self.list@[k] == old(self).list@[k],
            decreases count - i,
        {
            let ghost before = self.list@;
            proof {
                assert(healthy(&self.list@[i as int], &self.params));
            }
            let mut probe = self.list[i].duplicate();
            let fitness = evaluator.rate(i, &mut probe);
            proof {
                assert(told::<E, T>(i, &old(self).list@[i as int], fitness));
            }
            self.list[i].evaluate(fitness);
            proof {
                assert forall|k: int| 0 <= k < i + 1 implies told::<E, T>(
                    k as usize,
                    &old(self).list@[k],
                    (#[trigger] self.list@[k]).rating().unwrap(),
                ) by {
                    if k != i {
                        assert(self.list@[k] == before[k]);
                    }
                }
                assert forall|k: int| i + 1 <= k < count implies #[trigger] self.list@[k] == old(self).list@[k] by {
                    assert(self.list@[k] == before[k]);
                }
                assert forall|k: int| 0 <= k < count implies healthy(
                    #[trigger] &self.list@[k],
                    &self.params,
                ) && (self.list@[k].genome() == old(self).list@[k].genome()) by {
                    if k != i {
                        assert(self.list@[k] == before[k]);
                    }
                    assert(healthy(&before[k], &self.params));
                }
                assert forall|k: int| 0 <= k < i + 1 implies (
                #[trigger] self.list@[k]).rating() is Some by {
                    if k != i {
                        assert(self.list@[k] == before[k]);
                    }
                }
            }
            i += 1;
        }
        let ghost rated = self.list@;
        sort_by_fitness(&mut self.list);
        proof {
            assert(ranked(rated) == self.genomes() && rated.len() == old(self).genomes().len()
                && forall|k: int|
                0 <= k < rated.len() ==> (#[trigger] rated[k]).genome() == old(self).genomes()[k].genome() && rated[k].rating() is Some
                    && told::<E, T>(k as usize, &old(self).genomes()[k], rated[k].rating().unwrap()));
            lemma_ranked_members(rated);
            lemma_ranked(rated);
            assert forall|k: int| 0 <= k < self.list@.len() implies healthy(
                #[trigger] &self.list@[k],
                &self.params,
            ) && self.list@[k].rating() is Some && (forall|ledger: InnovationRecord| #[trigger]
                old(self).lawful(&ledger) ==> lawful(&self.list@[k], &ledger)) by {
                let x = self.list@[k];
                assert(rated.contains(x));
                let j = choose|j: int| 0 <= j < rated.len() && rated[j] == x;
                assert(healthy(&rated[j], &self.params));
                assert(rated[j].genome() == old(self).list@[j].genome());
                assert forall|ledger: InnovationRecord| #[trigger]
                    old(self).lawful(&ledger) implies lawful(&self.list@[k], &ledger) by {
                    assert(lawful(&old(self).genomes()[j], &ledger));
                }
            }
            assert forall|ledger: InnovationRecord| #[trigger]
                old(self).lawful(&ledger) implies self.lawful(&ledger) by {
                assert forall|k: int| 0 <= k < self.genomes().len() implies lawful(
                    #[trigger] &self.genomes()[k],
                    &ledger,
                ) by {
                    assert(healthy(&self.list@[k], &self.params));
                }
            }
        }
        if self.list.len() > 0 {
            Some(&self.list[0])
        } else {
            None
        }
    }

    /// Activates the genome at place `index` on `inputs`, with the squashing
    /// functions of the settings: see [`Network::activate`]. Nothing for a
    /// place past the last genome.
    pub fn activate_nth<A: Arithmetic>(&mut self, index: usize, inputs: &[Scalar], ops: &A) -> (outputs:
        Option<Vec<Scalar>>)
        requires
            old(self).sound(),
        ensures
            final(self).sound(),
            final(self).settings() == old(self).settings(),
            final(self).infos() == old(self).infos(),
            final(self).generations() == old(self).generations(),
            final(self).level() == old(self).level(),
            final(self).summaries() == old(self).summaries(),
            final(self).genomes().len() == old(self).genomes().len(),
            forall|k: int|
                0 <= k < old(self).genomes().len() ==> same_genome(
                    &old(self).genomes()[k],
                    #[trigger] &final(self).genomes()[k],
                ) && final(self).genomes()[k].rating() == old(self).genomes()[k].rating(),
            outputs is Some <==> index < old(self).genomes().len() && inputs@.len() == old(self).settings().input_number,
            outputs matches Some(v) ==> v@.len() == old(self).settings().output_number,
            outputs matches Some(v) ==> answered(
                ops,
                old(self).genomes()[index as int].genome(),
                old(self).settings().hidden_activation,
                old(self).settings().output_activation,
                inputs@,
                v@,
            ),
    {
        if index >= self.list.len() {
            return None;
        }
        let ghost before = self.list@;
        proof {
            assert(healthy(&self.list@[index as int], &self.params));
        }
        let outputs = self.list[index].activate(inputs, ops);
        proof {
            assert forall|k: int| 0 <= k < self.list@.len() implies healthy(
                #[trigger] &self.list@[k],
                &self.params,
            ) && same_genome(&before[k], &self.list@[k]) && self.list@[k].rating()
                == before[k].rating() by {
                if k != index {
                    assert(self.list@[k] == before[k]);
                }
                assert(healthy(&before[k], &self.params));
            }
        }
        outputs
    }

    /// Lets each kind of mutation strike `network` with its probability:
    /// a weight is perturbed, a weight is assigned anew, a connection is
    /// split by a new node, a hidden node is taken out, a connection is
    /// added, a connection is taken out, a connection is switched. Each kind
    /// draws for itself, and picks what it changes at random. A mutation
    /// for which the genome or the ledger has no room is passed over.
    pub fn mutate<A: Arithmetic>(
        &self,
        network: &mut T,
        innov_record: &mut InnovationRecord,
        ops: &A,
        rng: &mut StdRng,
    )
        requires
            healthy(old(network), &self.settings()),
        ensures
            mutated(
                old(network),
                final(network),
                &self.settings(),
                old(innov_record),
                final(innov_record),
            ),
            mutation(
                ops,
                &self.settings().mutation,
                &old(network).genome(),
                &final(network).genome(),
                old(innov_record),
                final(innov_record),
            ),
    {
        let ghost m = self.settings().mutation;
        let ghost ledger0 = *innov_record;
        let ghost network0 = *network;
        self.perturb_weight(network, ops, rng);
        let ghost perturbed = network.genome();
        self.assign_weight(network, ops, rng);
        let ghost network1 = *network;
        proof {
            assert(weight_perturbed(ops, &m, &network0.genome(), &perturbed) && weight_assigned(
                ops,
                &m,
                &perturbed,
                &network1.genome(),
            ));
            assert(reweighted(ops, &m, &network0.genome(), &network1.genome()));
        }
        self.add_node(network, innov_record, ops, rng);
        let ghost ledger1 = *innov_record;
        let ghost network2 = *network;
        self.remove_node(network, innov_record, ops, rng);
        let ghost ledger2 = *innov_record;
        let ghost network3 = *network;
        proof {
            lemma_mutated_twice(&network1, &network2, &network3, &self.settings(), &ledger0, &ledger1, &ledger2);
            assert(node_added(ops, &m, &network1.genome(), &network2.genome(), &ledger0, &ledger1)
                && node_removed(
                ops,
                &m,
                &network2.genome(),
                &network3.genome(),
                &ledger1,
                &ledger2,
            ));
            assert(resized(ops, &m, &network1.genome(), &network3.genome(), &ledger0, &ledger2));
        }
        self.add_connection(network, innov_record, ops, rng);
        let ghost ledger3 = *innov_record;
        let ghost network4 = *network;
        proof {
            lemma_mutated_twice(&network1, &network3, &network4, &self.settings(), &ledger0, &ledger2, &ledger3);
        }
        self.remove_connection(network, ops, rng);
        let ghost unlinked = network.genome();
        self.toggle_connection(network, ops, rng);
        proof {
            assert(connection_removed(ops, &m, &network4.genome(), &unlinked) && connection_toggled(
                ops,
                &m,
                &unlinked,
                &network.genome(),
            ));
            assert(rewired(ops, &m, &network4.genome(), &network.genome()));
            assert(reweighted(ops, &m, &network0.genome(), &network1.genome()) && resized(
                ops,
                &m,
                &network1.genome(),
                &network3.genome(),
                &ledger0,
                &ledger2,
            ) && connection_added(
                ops,
                &m,
                &network3.genome(),
                &network4.genome(),
                &ledger2,
                innov_record,
            ) && rewired(ops, &m, &network4.genome(), &network.genome()));
        }
    }

    /// With the probability of a weight perturbation: adds a sampled change
    /// to the weight of a random connection and brings it into the range of
    /// weights.
    fn perturb_weight<A: Arithmetic>(&self, network: &mut T, ops: &A, rng: &mut StdRng)
        requires
            healthy(old(network), &self.settings()),
        ensures
            steady(old(network), final(network), &self.settings()),
            weight_perturbed(
                ops,
                &self.settings().mutation,
                &old(network).genome(),
                &final(network).genome(),
            ),
    {
        let mutation = self.params.mutation;
        let draw = ops.open01(rng);
        assert(drawn(ops, draw));
        let hit = draw.lt(mutation.weight_perturbation);
        assert(struck(ops, mutation.weight_perturbation, hit));
        if hit {
            match network.graph().random_edge(rng) {
                Some(to_mutate) => {
                    let delta = ops.uniform(mutation.perturb_min, mutation.perturb_max, rng);
                    assert(sampled(ops, mutation.perturb_min, mutation.perturb_max, delta));
                    network.mutate_perturb_weight(
                        to_mutate,
                        delta,
                        mutation.weight_min,
                        mutation.weight_max,
                        ops,
                    );
                    assert(perturbed_once(
                        ops,
                        &mutation,
                        &old(network).genome(),
                        &network.genome(),
                    ));
                },
                None => {},
            }
        }
    }

    /// With the probability of a weight assignment: gives a random
    /// connection a weight sampled from the range of weights.
    fn assign_weight<A: Arithmetic>(&self, network: &mut T, ops: &A, rng: &mut StdRng)
        requires
            healthy(old(network), &self.settings()),
        ensures
            steady(old(network), final(network), &self.settings()),
            weight_assigned(
                ops,
                &self.settings().mutation,
                &old(network).genome(),
                &final(network).genome(),
            ),
    {
        let mutation = self.params.mutation;
        let draw = ops.open01(rng);
        assert(drawn(ops, draw));
        let hit = draw.lt(mutation.weight_assign);
        assert(struck(ops, mutation.weight_assign, hit));
        if hit {
            match network.graph().random_edge(rng) {
                Some(to_mutate) => {
                    let weight = ops.uniform(mutation.weight_min, mutation.weight_max, rng);
                    assert(sampled(ops, mutation.weight_min, mutation.weight_max, weight));
                    network.mutate_assign_weight(to_mutate, weight);
                    proof {
                        let a = old(network).genome();
                        assert(network.genome().links() == a.links().update(
                            to_mutate as int,
                            reweighed(a.links()[to_mutate as int], weight),
                        ));
                        assert(assigned_once(ops, &mutation, &a, &network.genome()));
                    }
                },
                None => {},
            }
        }
    }

    /// With the probability of a new node: splits a random connection.
    fn add_node<A: Arithmetic>(
        &self,
        network: &mut T,
        innov_record: &mut InnovationRecord,
        ops: &A,
        rng: &mut StdRng,
    )
        requires
            healthy(old(network), &self.settings()),
        ensures
            mutated(
                old(network),
                final(network),
                &self.settings(),
                old(innov_record),
                final(innov_record),
            ),
            node_added(
                ops,
                &self.settings().mutation,
                &old(network).genome(),
                &final(network).genome(),
                old(innov_record),
                final(innov_record),
            ),
    {
        let draw = ops.open01(rng);
        assert(drawn(ops, draw));
        let hit = draw.lt(self.params.mutation.add_node);
        assert(struck(ops, self.settings().mutation.add_node, hit));
        if hit {
            match network.graph().random_edge(rng) {
                Some(to_add) => {
                    let graph = network.graph();
                    let room = graph.node_count() < u32::MAX as usize && has_room(
                        graph.input_number(),
                        graph.output_number(),
                        graph.edge_count(),
                        2,
                    ) && innov_record.node_counter() < usize::MAX
                        && innov_record.connection_counter() <= usize::MAX - 2;
                    assert(room == room_to_split(&old(network).genome(), old(innov_record)));
                    if room {
                        network.mutate_add_node(to_add, innov_record);
                        assert(split_at(
                            &old(network).genome(),
                            &network.genome(),
                            to_add as int,
                            old(innov_record),
                            innov_record,
                        ));
                    }
                },
                None => {},
            }
        }
    }

    /// With the probability of a node removal: takes a random node out where
    /// it is a hidden node.
    fn remove_node<A: Arithmetic>(
        &self,
        network: &mut T,
        innov_record: &mut InnovationRecord,
        ops: &A,
        rng: &mut StdRng,
    )
        requires
            healthy(old(network), &self.settings()),
        ensures
            mutated(
                old(network),
                final(network),
                &self.settings(),
                old(innov_record),
                final(innov_record),
            ),
            node_removed(
                ops,
                &self.settings().mutation,
                &old(network).genome(),
                &final(network).genome(),
                old(innov_record),
                final(innov_record),
            ),
    {
        let draw = ops.open01(rng);
        assert(drawn(ops, draw));
        let hit = draw.lt(self.params.mutation.remove_node);
        assert(struck(ops, self.settings().mutation.remove_node, hit));
        if hit {
            let graph = network.graph();
            let to_remove = graph.random_node(rng);
            let degrees = graph.degrees(to_remove);
            proof {
                assert(degrees.0 as int * degrees.1 as int <= u128::MAX) by (nonlinear_arith)
                    requires
                        0 <= degrees.0 as int <= 0xffff_ffff_ffff_ffff,
                        0 <= degrees.1 as int <= 0xffff_ffff_ffff_ffff,
                ;
            }
            let bridges = degrees.0 as u128 * degrees.1 as u128;
            let room = bridges <= (usize::MAX - innov_record.connection_counter()) as u128
                && bridges <= u32::MAX as u128 && has_room(
                graph.input_number(),
                graph.output_number(),
                graph.edge_count(),
                bridges as usize,
            );
            assert(room == room_to_bridge(
                &old(network).genome(),
                to_remove as int,
                old(innov_record),
            ));
            if room {
                let ghost before = network.genome();
                network.mutate_remove_node(to_remove, innov_record);
                proof {
                    if network.genome().links() != before.links() {
                        crate::network::removal::lemma_without_node(
                            before.nodes(),
                            before.links(),
                            to_remove as int,
                            *innov_record,
                        );
                    }
                }
            }
            assert(removal_tried(
                &old(network).genome(),
                &network.genome(),
                to_remove as int,
                old(innov_record),
                innov_record,
            ));
        }
    }

    /// With the probability of a new connection: joins two random nodes
    /// where a feedforward network may have the connection.
    fn add_connection<A: Arithmetic>(
        &self,
        network: &mut T,
        innov_record: &mut InnovationRecord,
        ops: &A,
        rng: &mut StdRng,
    )
        requires
            healthy(old(network), &self.settings()),
        ensures
            mutated(
                old(network),
                final(network),
                &self.settings(),
                old(innov_record),
                final(innov_record),
            ),
            connection_added(
                ops,
                &self.settings().mutation,
                &old(network).genome(),
                &final(network).genome(),
                old(innov_record),
                final(innov_record),
            ),
    {
        let mutation = self.params.mutation;
        let draw = ops.open01(rng);
        assert(drawn(ops, draw));
        let hit = draw.lt(mutation.add_connection);
        assert(struck(ops, mutation.add_connection, hit));
        if hit {
            let graph = network.graph();
            let source = graph.random_node(rng);
            let target = graph.random_node(rng);
            let weight = ops.uniform(mutation.weight_min, mutation.weight_max, rng);
            assert(sampled(ops, mutation.weight_min, mutation.weight_max, weight));
            let room = has_room(graph.input_number(), graph.output_number(), graph.edge_count(), 1)
                && innov_record.connection_counter() < usize::MAX;
            assert(room == room_to_connect(&old(network).genome(), old(innov_record)));
            if room {
                network.mutate_add_connection(source, target, weight, innov_record);
            }
            assert(connection_tried(
                &old(network).genome(),
                &network.genome(),
                source,
                target,
                weight,
                old(innov_record),
                innov_record,
            ));
        }
    }

    /// With the probability of a removal: takes a random connection out.
    fn remove_connection<A: Arithmetic>(&self, network: &mut T, ops: &A, rng: &mut StdRng)
        requires
            healthy(old(network), &self.settings()),
        ensures
            steady(old(network), final(network), &self.settings()),
            connection_removed(
                ops,
                &self.settings().mutation,
                &old(network).genome(),
                &final(network).genome(),
            ),
    {
        let draw = ops.open01(rng);
        assert(drawn(ops, draw));
        let hit = draw.lt(self.params.mutation.remove_connection);
        assert(struck(ops, self.settings().mutation.remove_connection, hit));
        if hit {
            match network.graph().random_edge(rng) {
                Some(to_remove) => {
                    network.mutate_remove_connection(to_remove);
                    assert(network.genome().links() == swap_removed(
                        old(network).genome().links(),
                        to_remove as int,
                    ));
                },
                None => {},
            }
        }
    }

    /// With the probability of a switch: switches a random connection off
    /// where it is on, and on where it is off.
    fn toggle_connection<A: Arithmetic>(&self, network: &mut T, ops: &A, rng: &mut StdRng)
        requires
            healthy(old(network), &self.settings()),
        ensures
            steady(old(network), final(network), &self.settings()),
            connection_toggled(
                ops,
                &self.settings().mutation,
                &old(network).genome(),
                &final(network).genome(),
            ),
    {
        let draw = ops.open01(rng);
        assert(drawn(ops, draw));
        let hit = draw.lt(self.params.mutation.toggle_connection);
        assert(struck(ops, self.settings().mutation.toggle_connection, hit));
        if hit {
            match network.graph().random_edge(rng) {
                Some(to_toggle) => {
                    network.mutate_toggle_connection(to_toggle);
                    proof {
                        let a = old(network).genome();
                        assert(network.genome().links() == a.links().update(
                            to_toggle as int,
                            toggled(a.links()[to_toggle as int]),
                        ));
                    }
                },
                None => {},
            }
        }
    }

    /// `species` takes `network` in, or does not, as `accepted` says, by the
    /// settings of the run: see [`accepts`].
    pub open spec fn verdict<'a, A: Arithmetic>(
        &self,
        ops: &A,
        species: &Species<'a, T>,
        network: &T,
        accepted: bool,
    ) -> bool {
        accepts(
            ops,
            &species.info.representative,
            network,
            self.settings().speciation.c1,
            self.settings().speciation.c2,
            self.settings().speciation.compatibility_threshold,
            accepted,
        )
    }

    /// Lets `network` join the first species of `species_set` whose
    /// representative is within the compatibility threshold. Returns the
    /// place of that species, or nothing where there is none.
    fn place<'a, A: Arithmetic>(
        &self,
        species_set: &mut Vec<Species<'a, T>>,
        network: &'a T,
        ops: &A,
    ) -> (joined: Option<usize>)
        requires
            healthy(network, &self.settings()),
            forall|s: int|
                0 <= s < old(species_set)@.len() ==> healthy(
                    &(#[trigger] old(species_set)@[s]).info.representative,
                    &self.settings(),
                ),
        ensures
            final(species_set)@.len() == old(species_set)@.len(),
            forall|x: int|
                0 <= x < old(species_set)@.len() && (joined is None || joined.unwrap() != x)
                    ==> same_species(
                    &old(species_set)@[x],
                    #[trigger] &final(species_set)@[x],
                ),
            joined matches Some(s) ==> s < old(species_set)@.len() && final(species_set)@[s as int].info == old(species_set)@[s as int].info && final(species_set)@[s as int].members() == old(species_set)@[s as int].members().push(network),
            joined matches Some(s) ==> self.verdict(ops, &old(species_set)@[s as int], network, true),
            forall|x: int|
                0 <= x < old(species_set)@.len() && (joined is None || x < joined.unwrap())
                    ==> self.verdict(ops, #[trigger] &old(species_set)@[x], network, false),
    {
        let speciation = self.params.speciation;
        let mut s: usize = 0;
        while s < species_set.len()
            invariant
                s <= species_set@.len(),
                species_set@.len() == old(species_set)@.len(),
                forall|x: int|
                    0 <= x < species_set@.len() ==> same_species(
                        &old(species_set)@[x],
                        #[trigger] &species_set@[x],
                    ),
                healthy(network, &self.settings()),
                forall|s: int|
                    0 <= s < old(species_set)@.len() ==> healthy(
                        &(#[trigger] old(species_set)@[s]).info.representative,
                        &self.settings(),
                    ),
                speciation == self.settings().speciation,
                forall|x: int|
                    0 <= x < s ==> self.verdict(
                        ops,
                        #[trigger] &old(species_set)@[x],
                        network,
                        false,
                    ),
            decreases species_set@.len() - s,
        {
            let ghost before = species_set@;
            let mut species = species_set.remove(s);
            proof {
                assert(species == before[s as int]);
                assert(same_species(&old(species_set)@[s as int], &before[s as int]));
                assert(healthy(&old(species_set)@[s as int].info.representative, &self.settings()));
            }
            let assigned = species.try_assign(
                network,
                speciation.c1,
                speciation.c2,
                speciation.compatibility_threshold,
                ops,
            );
            species_set.insert(s, species);
            proof {
                assert(species_set@ =~= before.update(s as int, species));
                assert forall|x: int| 0 <= x < species_set@.len() && x != s implies same_species(
                    &old(species_set)@[x],
                    #[trigger] &species_set@[x],
                ) by {
                    assert(species_set@[x] == before[x]);
                    assert(same_species(&old(species_set)@[x], &before[x]));
                }
            }
            if assigned {
                return Some(s);
            }
            s += 1;
        }
        None
    }

    /// Sorts the genomes into species. Each species of the generation before
    /// starts empty, one generation older, around its representative. Then
    /// each genome, in the order of the population, joins the first species
    /// whose representative is within the compatibility threshold; a genome
    /// that finds none founds a new species, around a copy of itself. So
    /// every genome is in one species, and the members of a species stand in
    /// the order of the population.
    pub fn speciate<'a, A: Arithmetic>(&'a self, innov_record: &mut InnovationRecord, ops: &A) -> (species_set:
        Vec<Species<'a, T>>)
        requires
            self.sound(),
            self.generations() < usize::MAX,
            old(innov_record).species() + self.genomes().len() <= usize::MAX,
        ensures
            forall|s: int|
                0 <= s < species_set@.len() ==> drawn_from(
                    #[trigger] &species_set@[s],
                    self.genomes(),
                    &self.settings(),
                    self.generations(),
                ),
            exists|chosen: Seq<int>| #[trigger]
                sorted_into(species_set@, self.genomes(), chosen) && forall|i: int|
                    0 <= i < self.genomes().len() ==> #[trigger] judged(
                        ops,
                        species_set@,
                        self.genomes(),
                        chosen,
                        self.infos().len(),
                        &self.settings(),
                        i,
                    ),
            self.infos().len() <= species_set@.len() <= self.infos().len() + self.genomes().len(),
            forall|s: int|
                0 <= s < self.infos().len() ==> (#[trigger] species_set@[s]).info.id
                    == self.infos()[s].id && species_set@[s].info.age == self.infos()[s].age + 1
                    && species_set@[s].info.stagnant == self.infos()[s].stagnant
                    && species_set@[s].info.previous_fitness == self.infos()[s].previous_fitness,
            forall|s: int|
                self.infos().len() <= s < species_set@.len() ==> (
                #[trigger] species_set@[s]).members().len() >= 1 && species_set@[s].info.age == 0
                    && species_set@[s].info.stagnant == 0 && species_set@[s].info.id == old(innov_record).species() + (s - self.infos().len()),
            final(innov_record).species() == old(innov_record).species() + (species_set@.len()
                - self.infos().len()),
            forall|s: int|
                0 <= s < species_set@.len() ==> seeded(
                    &(#[trigger] species_set@[s]).info,
                    self.infos(),
                    old(innov_record).species(),
                    final(innov_record).species(),
                ),
            respecied(final(innov_record), old(innov_record)),
            self.lawful(old(innov_record)) ==> forall|s: int|
                0 <= s < species_set@.len() ==> (
                #[trigger] species_set@[s]).info.representative.genome().registered(
                    final(innov_record),
                ),
    {
        let mut new_species_set: Vec<Species<'a, T>> = Vec::new();
        let mut k: usize = 0;
        while k < self.prev_species_info.len()
            invariant
                k <= self.infos().len(),
                self.sound(),
                self.generations() < usize::MAX,
                new_species_set@.len() == k,
                forall|s: int|
                    0 <= s < new_species_set@.len() ==> drawn_from(
                        #[trigger] &new_species_set@[s],
                        self.genomes(),
                        &self.settings(),
                        self.generations(),
                    ) && new_species_set@[s].members().len() == 0 && new_species_set@[s].info.id
                        == self.infos()[s].id && new_species_set@[s].info.age == self.infos()[s].age
                        + 1 && new_species_set@[s].info.stagnant == self.infos()[s].stagnant
                        && new_species_set@[s].info.previous_fitness
                        == self.infos()[s].previous_fitness,
                self.lawful(old(innov_record)) ==> forall|s: int|
                    0 <= s < new_species_set@.len() ==> (
                    #[trigger] new_species_set@[s]).info.representative.genome().registered(
                        old(innov_record),
                    ),
            decreases self.infos().len() - k,
        {
            let ghost before = new_species_set@;
            let mut species_info = self.prev_species_info[k].duplicate();
            species_info.add_age();
            new_species_set.push(Species::new(species_info));
            proof {
                assert(healthy(&self.infos()[k as int].representative, &self.settings()));
                assert forall|s: int| 0 <= s < new_species_set@.len() implies drawn_from(
                    #[trigger] &new_species_set@[s],
                    self.genomes(),
                    &self.settings(),
                    self.generations(),
                ) && new_species_set@[s].members().len() == 0 && new_species_set@[s].info.id
                    == self.infos()[s].id && new_species_set@[s].info.age == self.infos()[s].age + 1
                    && new_species_set@[s].info.stagnant == self.infos()[s].stagnant
                    && new_species_set@[s].info.previous_fitness
                    == self.infos()[s].previous_fitness by {
                    if s < before.len() {
                        assert(new_species_set@[s] == before[s]);
                    }
                }
            }
            k += 1;
        }
        let ghost mut chosen: Seq<int> = Seq::empty();
        proof {
            assert forall|s: int| 0 <= s < new_species_set@.len() implies (
            #[trigger] new_species_set@[s]).values() == picked(self.genomes(), chosen, s, 0) by {
                assert(new_species_set@[s].members().len() == 0);
                assert(new_species_set@[s].values() =~= Seq::<T>::empty());
            }
        }
        let mut i: usize = 0;
        while i < self.list.len()
            invariant
                i <= self.genomes().len(),
                self.sound(),
                old(innov_record).species() + self.genomes().len() <= usize::MAX,
                self.infos().len() <= new_species_set@.len() <= self.infos().len() + i,
                innov_record.species() == old(innov_record).species() + (new_species_set@.len()
                    - self.infos().len()),
                forall|s: int|
                    0 <= s < new_species_set@.len() ==> drawn_from(
                        #[trigger] &new_species_set@[s],
                        self.genomes(),
                        &self.settings(),
                        self.generations(),
                    ),
                forall|s: int|
                    0 <= s < self.infos().len() ==> (#[trigger] new_species_set@[s]).info.id
                        == self.infos()[s].id && new_species_set@[s].info.age == self.infos()[s].age
                        + 1 && new_species_set@[s].info.stagnant == self.infos()[s].stagnant
                        && new_species_set@[s].info.previous_fitness
                        == self.infos()[s].previous_fitness,
                forall|s: int|
                    self.infos().len() <= s < new_species_set@.len() ==> (
                    #[trigger] new_species_set@[s]).members().len() >= 1
                        && new_species_set@[s].info.age == 0 && new_species_set@[s].info.stagnant
                        == 0 && new_species_set@[s].info.previous_fitness is None
                        && new_species_set@[s].info.id == old(innov_record).species() + (s
                        - self.infos().len()),
                chosen.len() == i,
                forall|j: int| 0 <= j < i ==> 0 <= #[trigger] chosen[j] < new_species_set@.len(),
                forall|j: int|
                    0 <= j < i ==> #[trigger] judged(
                        ops,
                        new_species_set@,
                        self.genomes(),
                        chosen,
                        self.infos().len(),
                        &self.settings(),
                        j,
                    ),
                forall|s: int|
                    0 <= s < new_species_set@.len() ==> (#[trigger] new_species_set@[s]).values()
                        == picked(self.genomes(), chosen, s, i as nat),
                respecied(innov_record, old(innov_record)),
                self.lawful(old(innov_record)) ==> forall|s: int|
                    0 <= s < new_species_set@.len() ==> (
                    #[trigger] new_species_set@[s]).info.representative.genome().registered(
                        old(innov_record),
                    ),
            decreases self.genomes().len() - i,
        {
            let network = &self.list[i];
            let ghost before = new_species_set@;
            let ghost earlier = chosen;
            proof {
                assert(healthy(&self.genomes()[i as int], &self.settings()));
                assert forall|s: int| 0 <= s < before.len() implies healthy(
                    &(#[trigger] before[s]).info.representative,
                    &self.settings(),
                ) by {
                    assert(drawn_from(&before[s], self.genomes(), &self.settings(), self.generations()));
                }
            }
            let joined = self.place(&mut new_species_set, network, ops);
            let ghost placed = new_species_set@;
            let ghost at: int;
            match joined {
                Some(s) => {
                    proof {
                        at = s as int;
                        lemma_joined(
                            &before[at],
                            &new_species_set@[at],
                            network,
                            self.genomes(),
                            i as int,
                            &self.settings(),
                            self.generations(),
                        );
                    }
                },
                None => {
                    let id = innov_record.new_species();
                    let founder = network.duplicate();
                    proof {
                        at = before.len() as int;
                        lemma_copy(&founder, network, &self.settings(), old(innov_record));
                    }
                    let mut species = Species::new(SpeciesInfo::new(id, founder, 0));
                    let ghost empty = species;
                    species.force_assign(network);
                    proof {
                        lemma_joined(
                            &empty,
                            &species,
                            network,
                            self.genomes(),
                            i as int,
                            &self.settings(),
                            self.generations(),
                        );
                        assert(empty.values() =~= Seq::<T>::empty());
                        lemma_picked_none(self.genomes(), earlier, at, i as nat, before.len() as int);
                    }
                    new_species_set.push(species);
                },
            }
            proof {
                chosen = earlier.push(at);
                let now = new_species_set@;
                let known = self.infos().len();
                assert forall|x: int| 0 <= x < before.len() implies (#[trigger] now[x]).info
                    == before[x].info by {
                    assert(now[x] == placed[x]);
                    if joined is None || joined.unwrap() != x {
                        assert(same_species(&before[x], &placed[x]));
                    }
                }
                assert forall|j: int| 0 <= j < i + 1 implies #[trigger] judged(
                    ops,
                    now,
                    self.genomes(),
                    chosen,
                    known,
                    &self.settings(),
                    j,
                ) by {
                    if j < i {
                        assert(judged(ops, before, self.genomes(), earlier, known, &self.settings(), j));
                        assert(chosen[j] == earlier[j]);
                        assert(0 <= earlier[j] < before.len());
                        assert(now[chosen[j]].info == before[chosen[j]].info);
                        if founds(earlier, known, j) {
                            assert forall|h: int| 0 <= h < j implies #[trigger] chosen[h]
                                != chosen[j] by {
                                assert(chosen[h] == earlier[h]);
                            }
                        }
                        assert forall|x: int| 0 <= x < chosen[j] implies accepts(
                            ops,
                            &(#[trigger] now[x]).info.representative,
                            &self.genomes()[j],
                            self.settings().speciation.c1,
                            self.settings().speciation.c2,
                            self.settings().speciation.compatibility_threshold,
                            false,
                        ) by {
                            assert(now[x].info == before[x].info);
                            assert(accepts(
                                ops,
                                &before[x].info.representative,
                                &self.genomes()[j],
                                self.settings().speciation.c1,
                                self.settings().speciation.c2,
                                self.settings().speciation.compatibility_threshold,
                                false,
                            ));
                        }
                    } else {
                        assert(chosen[j] == at);
                        assert forall|x: int| 0 <= x < at implies accepts(
                            ops,
                            &(#[trigger] now[x]).info.representative,
                            &self.genomes()[j],
                            self.settings().speciation.c1,
                            self.settings().speciation.c2,
                            self.settings().speciation.compatibility_threshold,
                            false,
                        ) by {
                            assert(now[x].info == before[x].info);
                            assert(self.verdict(ops, &before[x], network, false));
                        }
                        if joined is Some {
                            assert(self.verdict(ops, &before[at], network, true));
                            assert(now[at].info == before[at].info);
                        } else {
                            assert forall|h: int| 0 <= h < j implies #[trigger] chosen[h]
                                != chosen[j] by {
                                assert(chosen[h] == earlier[h]);
                            }
                            assert(founds(chosen, known, j));
                            assert(copies(&now[at].info.representative, &self.genomes()[j]));
                        }
                    }
                }
                assert forall|x: int| 0 <= x < now.len() implies drawn_from(
                    #[trigger] &now[x],
                    self.genomes(),
                    &self.settings(),
                    self.generations(),
                ) by {
                    if x < before.len() && x != at {
                        assert(now[x] == placed[x]);
                        assert(same_species(&before[x], &placed[x]));
                    }
                }
                assert forall|x: int| 0 <= x < self.infos().len() implies (#[trigger] now[x]).info.id
                    == self.infos()[x].id && now[x].info.age == self.infos()[x].age + 1
                    && now[x].info.stagnant == self.infos()[x].stagnant
                    && now[x].info.previous_fitness == self.infos()[x].previous_fitness by {
                    if x != at {
                        assert(now[x] == placed[x]);
                        assert(same_species(&before[x], &placed[x]));
                    } else {
                        assert(now[x] == placed[x]);
                        assert(now[x].info == before[x].info);
                    }
                }
                assert forall|x: int| self.infos().len() <= x < now.len() implies (
                #[trigger] now[x]).members().len() >= 1 && now[x].info.age == 0
                    && now[x].info.stagnant == 0 && now[x].info.previous_fitness is None
                    && now[x].info.id == old(innov_record).species() + (x - self.infos().len()) by {
                    if x < before.len() {
                        if x != at {
                            assert(now[x] == placed[x]);
                        assert(same_species(&before[x], &placed[x]));
                        } else {
                            assert(now[x] == placed[x]);
                            assert(now[x].info == before[x].info);
                            assert(before[x].members().len() >= 1);
                        }
                    }
                }
                assert forall|x: int| 0 <= x < now.len() implies (#[trigger] now[x]).values()
                    == picked(self.genomes(), chosen, x, (i + 1) as nat) by {
                    lemma_picked_prefix(self.genomes(), earlier, at, x, i as nat);
                    if x < before.len() {
                        assert(before[x].values() == picked(self.genomes(), earlier, x, i as nat));
                        if x != at {
                            assert(now[x] == placed[x]);
                        assert(same_species(&before[x], &placed[x]));
                        } else {
                            assert(now[x].values() =~= before[x].values().push(
                                self.genomes()[i as int],
                            ));
                        }
                    } else {
                        assert(now[x].values() =~= Seq::<T>::empty().push(self.genomes()[i as int]));
                    }
                }
                if self.lawful(old(innov_record)) {
                    assert(lawful(&self.genomes()[i as int], old(innov_record)));
                    assert forall|x: int| 0 <= x < now.len() implies (
                    #[trigger] now[x]).info.representative.genome().registered(
                        old(innov_record),
                    ) by {
                        if x < before.len() {
                            if x != at {
                                assert(now[x] == placed[x]);
                        assert(same_species(&before[x], &placed[x]));
                            } else {
                                assert(now[x] == placed[x]);
                                assert(now[x].info == before[x].info);
                                assert(before[x].info.representative.genome().registered(
                                    old(innov_record),
                                ));
                            }
                        }
                    }
                }
            }
            i += 1;
        }
        proof {
            assert(sorted_into(new_species_set@, self.genomes(), chosen) && forall|i: int|
                0 <= i < self.genomes().len() ==> #[trigger] judged(
                    ops,
                    new_species_set@,
                    self.genomes(),
                    chosen,
                    self.infos().len(),
                    &self.settings(),
                    i,
                ));
            assert forall|s: int| 0 <= s < new_species_set@.len() implies seeded(
                &(#[trigger] new_species_set@[s]).info,
                self.infos(),
                old(innov_record).species(),
                innov_record.species(),
            ) by {
                if s < self.infos().len() {
                    assert(resumes(&new_species_set@[s].info, &self.infos()[s]));
                } else {
                    assert(new_species_set@[s].info.previous_fitness is None);
                }
            }
            if self.lawful(old(innov_record)) {
                assert forall|s: int| 0 <= s < new_species_set@.len() implies (
                #[trigger] new_species_set@[s]).info.representative.genome().registered(
                    innov_record,
                ) by {
                    assert(drawn_from(&new_species_set@[s], self.genomes(), &self.settings(), self.generations()));
                    new_species_set@[s].info.representative.genome().lemma_registered_later(
                        old(innov_record),
                        innov_record,
                    );
                }
            }
        }
        new_species_set
    }

    /// Thins the species: each keeps the share of its members that the
    /// survival rate names, the fittest first and at least one; then the
    /// species that are left with one member or none are dropped.
    fn cull<'a, A: Arithmetic>(&self, species_set: Vec<Species<'a, T>>, ops: &A) -> (survivors:
        Vec<Species<'a, T>>)
        requires
            forall|s: int|
                0 <= s < species_set@.len() ==> drawn_from(
                    #[trigger] &species_set@[s],
                    self.genomes(),
                    &self.settings(),
                    self.generations(),
                ),
        ensures
            survivors@.len() <= species_set@.len(),
            forall|s: int|
                0 <= s < survivors@.len() ==> drawn_from(
                    #[trigger] &survivors@[s],
                    self.genomes(),
                    &self.settings(),
                    self.generations(),
                ) && survivors@[s].members().len() >= 2,
            forall|ledger: InnovationRecord| #[trigger]
                represented(species_set@, &ledger) ==> represented(survivors@, &ledger),
            forall|s: int|
                0 <= s < survivors@.len() ==> carried_by(
                    &(#[trigger] survivors@[s]).info,
                    species_set@,
                ),
            exists|thin: Seq<Species<'a, T>>| #[trigger]
                culled(
                    ops,
                    self.settings().speciation.survival_rate,
                    species_set@,
                    thin,
                    survivors@,
                ),
    {
        let mut rest = species_set;
        let mut survivors: Vec<Species<'a, T>> = Vec::new();
        let ghost mut thin: Seq<Species<'a, T>> = Seq::empty();
        proof {
            assert(rest@ =~= species_set@.skip(0));
        }
        while rest.len() > 0
            invariant
                rest@.len() + survivors@.len() <= species_set@.len(),
                thin.len() <= species_set@.len(),
                rest@ == species_set@.skip(thin.len() as int),
                forall|x: int|
                    0 <= x < thin.len() ==> (#[trigger] thin[x]).info == species_set@[x].info
                        && thinned(
                        ops,
                        self.settings().speciation.survival_rate,
                        species_set@[x].members(),
                        thin[x].members(),
                    ),
                survivors@ == lasting(thin, thin.len()),
                exists|from: int|
                    0 <= from <= species_set@.len() && rest@ == #[trigger] species_set@.skip(from),
                forall|s: int|
                    0 <= s < survivors@.len() ==> carried_by(
                        &(#[trigger] survivors@[s]).info,
                        species_set@,
                    ),
                forall|s: int|
                    0 <= s < rest@.len() ==> drawn_from(
                        #[trigger] &rest@[s],
                        self.genomes(),
                        &self.settings(),
                        self.generations(),
                    ),
                forall|s: int|
                    0 <= s < survivors@.len() ==> drawn_from(
                        #[trigger] &survivors@[s],
                        self.genomes(),
                        &self.settings(),
                        self.generations(),
                    ) && survivors@[s].members().len() >= 2,
                forall|ledger: InnovationRecord| #[trigger]
                    represented(species_set@, &ledger) ==> represented(rest@, &ledger)
                        && represented(survivors@, &ledger),
            decreases rest@.len(),
        {
            let ghost waiting = rest@;
            let ghost done = survivors@;
            let mut species = rest.remove(0);
            let ghost found = species;
            proof {
                assert(found == waiting[0]);
                assert forall|s: int| 0 <= s < rest@.len() implies drawn_from(
                    #[trigger] &rest@[s],
                    self.genomes(),
                    &self.settings(),
                    self.generations(),
                ) by {
                    assert(rest@[s] == waiting[s + 1]);
                }
            }
            let ghost from = choose|from: int|
                0 <= from <= species_set@.len() && waiting == #[trigger] species_set@.skip(from);
            proof {
                assert(found == species_set@[from]);
                assert(rest@ =~= species_set@.skip(from + 1));
            }
            species.kill_worst(self.params.speciation.survival_rate, ops);
            proof {
                assert forall|m: int| 0 <= m < species.members().len() implies member_of(
                    self.genomes(),
                    #[trigger] species.members()[m],
                ) by {
                    assert(species.members()[m] == found.members()[m]);
                }
            }
            let ghost earlier = thin;
            proof {
                assert(found == species_set@[earlier.len() as int]);
                thin = earlier.push(species);
                lemma_lasting_prefix(earlier, species, earlier.len());
                assert(rest@ =~= species_set@.skip(thin.len() as int));
                assert forall|x: int| 0 <= x < thin.len() implies (#[trigger] thin[x]).info
                    == species_set@[x].info && thinned(
                    ops,
                    self.settings().speciation.survival_rate,
                    species_set@[x].members(),
                    thin[x].members(),
                ) by {
                    if x < earlier.len() {
                        assert(thin[x] == earlier[x]);
                    }
                }
            }
            if species.genome_count() > 1 {
                survivors.push(species);
            }
            proof {
                assert forall|s: int| 0 <= s < survivors@.len() implies drawn_from(
                    #[trigger] &survivors@[s],
                    self.genomes(),
                    &self.settings(),
                    self.generations(),
                ) && survivors@[s].members().len() >= 2 by {
                    if s < done.len() {
                        assert(survivors@[s] == done[s]);
                    }
                }
                assert forall|s: int| 0 <= s < survivors@.len() implies carried_by(
                    &(#[trigger] survivors@[s]).info,
                    species_set@,
                ) by {
                    if s < done.len() {
                        assert(survivors@[s] == done[s]);
                    } else {
                        assert(survivors@[s].info == species_set@[from].info);
                    }
                }
                assert forall|ledger: InnovationRecord| #[trigger]
                    represented(species_set@, &ledger) implies represented(rest@, &ledger)
                    && represented(survivors@, &ledger) by {
                    assert(represented(waiting, &ledger) && represented(done, &ledger));
                    assert forall|s: int| 0 <= s < rest@.len() implies (
                    #[trigger] rest@[s]).info.representative.genome().registered(&ledger) by {
                        assert(rest@[s] == waiting[s + 1]);
                    }
                    assert forall|s: int| 0 <= s < survivors@.len() implies (
                    #[trigger] survivors@[s]).info.representative.genome().registered(&ledger) by {
                        if s < done.len() {
                            assert(survivors@[s] == done[s]);
                        } else {
                            assert(waiting[0].info.representative.genome().registered(&ledger));
                        }
                    }
                }
            }
        }
        proof {
            assert(rest@.len() == 0);
            assert(thin.len() == species_set@.len());
            assert(culled(
                ops,
                self.settings().speciation.survival_rate,
                species_set@,
                thin,
                survivors@,
            ));
        }
        survivors
    }

    /// Copies of the best members of each species, as many of each as the
    /// settings name as its elite, species by species, until the next
    /// generation is full.
    fn elites<'a>(&self, species_set: &Vec<Species<'a, T>>) -> (chosen: Vec<T>)
        requires
            forall|s: int|
                0 <= s < species_set@.len() ==> drawn_from(
                    #[trigger] &species_set@[s],
                    self.genomes(),
                    &self.settings(),
                    self.generations(),
                ),
        ensures
            chosen@.len() <= self.settings().population,
            forall|i: int|
                0 <= i < chosen@.len() ==> copied_from(self.genomes(), #[trigger] &chosen@[i]),
            chosen@.len() == elite_members(
                species_set@,
                self.settings().speciation.elitism as nat,
                self.settings().population as nat,
                species_set@.len(),
            ).len(),
            forall|i: int|
                0 <= i < chosen@.len() ==> copies(
                    #[trigger] &chosen@[i],
                    &elite_members(
                        species_set@,
                        self.settings().speciation.elitism as nat,
                        self.settings().population as nat,
                        species_set@.len(),
                    )[i],
                ),
    {
        let mut chosen: Vec<T> = Vec::new();
        let ghost elitism = self.settings().speciation.elitism as nat;
        let ghost limit = self.settings().population as nat;
        let mut s: usize = 0;
        while s < species_set.len()
            invariant
                s <= species_set@.len(),
                elitism == self.settings().speciation.elitism,
                limit == self.settings().population,
                chosen@.len() <= self.settings().population,
                forall|s: int|
                    0 <= s < species_set@.len() ==> drawn_from(
                        #[trigger] &species_set@[s],
                        self.genomes(),
                        &self.settings(),
                        self.generations(),
                    ),
                forall|i: int|
                    0 <= i < chosen@.len() ==> copied_from(self.genomes(), #[trigger] &chosen@[i]),
                chosen@.len() == elite_members(species_set@, elitism, limit, s as nat).len(),
                forall|i: int|
                    0 <= i < chosen@.len() ==> copies(
                        #[trigger] &chosen@[i],
                        &elite_members(species_set@, elitism, limit, s as nat)[i],
                    ),
            decreases species_set@.len() - s,
        {
            let species = &species_set[s];
            proof {
                assert(drawn_from(
                    &species_set@[s as int],
                    self.genomes(),
                    &self.settings(),
                    self.generations(),
                ));
            }
            let mut best = species.elites(self.params.speciation.elitism);
            let ghost copies_made = best@;
            let ghost so_far = elite_members(species_set@, elitism, limit, s as nat);
            let ghost members = species_set@[s as int].values();
            let ghost mut taken: int = 0;
            while best.len() > 0 && chosen.len() < self.params.population
                invariant
                    chosen@.len() <= self.settings().population,
                    limit == self.settings().population,
                    0 <= taken,
                    taken + best@.len() == copies_made.len(),
                    best@ == copies_made.skip(taken),
                    copies_made.len() <= members.len(),
                    members == species_set@[s as int].values(),
                    forall|i: int|
                        0 <= i < copies_made.len() ==> copied_from(
                            self.genomes(),
                            #[trigger] &copies_made[i],
                        ),
                    forall|i: int|
                        0 <= i < copies_made.len() ==> copies(
                            #[trigger] &copies_made[i],
                            &members[i],
                        ),
                    forall|i: int|
                        0 <= i < chosen@.len() ==> copied_from(
                            self.genomes(),
                            #[trigger] &chosen@[i],
                        ),
                    chosen@.len() == so_far.len() + taken,
                    forall|i: int|
                        0 <= i < so_far.len() ==> copies(#[trigger] &chosen@[i], &so_far[i]),
                    forall|j: int|
                        0 <= j < taken ==> copies(
                            #[trigger] &chosen@[so_far.len() + j],
                            &members[j],
                        ),
                decreases best@.len(),
            {
                let ghost before = chosen@;
                let elite = best.remove(0);
                proof {
                    assert(elite == copies_made[taken]);
                    assert(best@ =~= copies_made.skip(taken + 1));
                }
                chosen.push(elite);
                proof {
                    assert forall|i: int| 0 <= i < chosen@.len() implies copied_from(
                        self.genomes(),
                        #[trigger] &chosen@[i],
                    ) by {
                        if i < before.len() {
                            assert(chosen@[i] == before[i]);
                        }
                    }
                    assert forall|i: int| 0 <= i < so_far.len() implies copies(
                        #[trigger] &chosen@[i],
                        &so_far[i],
                    ) by {
                        assert(chosen@[i] == before[i]);
                    }
                    assert forall|j: int| 0 <= j < taken + 1 implies copies(
                        #[trigger] &chosen@[so_far.len() + j],
                        &members[j],
                    ) by {
                        if j < taken {
                            assert(chosen@[so_far.len() + j] == before[so_far.len() + j]);
                        }
                    }
                }
                proof {
                    taken = taken + 1;
                }
            }
            proof {
                let next = elite_members(species_set@, elitism, limit, (s + 1) as nat);
                assert(next =~= so_far + members.take(taken));
                assert forall|i: int| 0 <= i < chosen@.len() implies copies(
                    #[trigger] &chosen@[i],
                    &next[i],
                ) by {
                    if i >= so_far.len() {
                        assert(chosen@[so_far.len() + (i - so_far.len())] == chosen@[i]);
                    }
                }
            }
            s += 1;
        }
        chosen
    }

    /// Shares `target` places out among the species. Each species records
    /// the fitness that its members share; a species is due the share of the
    /// places that its fitness has in the sum of all, rounded up; and what
    /// is then too much or too little is evened out in turn, species by
    /// species. `ops` does the arithmetic.
    fn shares<'a, A: Arithmetic>(
        &self,
        species_set: &mut Vec<Species<'a, T>>,
        target: usize,
        ops: &A,
    ) -> (counts: Vec<usize>)
        requires
            self.rated(),
            self.generations() < usize::MAX,
            forall|s: int|
                0 <= s < old(species_set)@.len() ==> drawn_from(
                    #[trigger] &old(species_set)@[s],
                    self.genomes(),
                    &self.settings(),
                    self.generations(),
                ),
        ensures
            final(species_set)@.len() == old(species_set)@.len(),
            counts@.len() == old(species_set)@.len(),
            counts@.len() > 0 ==> total(counts@) == target,
            forall|s: int|
                0 <= s < old(species_set)@.len() ==> recorded(
                    &old(species_set)@[s],
                    #[trigger] &final(species_set)@[s],
                ),
            forall|s: int|
                0 <= s < old(species_set)@.len() ==> (
                #[trigger] final(species_set)@[s]).info.previous_fitness is Some && shared(
                    ops,
                    old(species_set)@[s].members(),
                    final(species_set)@[s].info.previous_fitness.unwrap(),
                ),
            exists|adjusted: Seq<Scalar>| #[trigger]
                apportioned(ops, adjusted, target, counts@) && adjusted.len() == old(species_set)@.len() && forall|s: int|
                    0 <= s < adjusted.len() ==> Some(#[trigger] adjusted[s]) == final(species_set)@[s].info.previous_fitness,
    {
        let count = species_set.len();
        let mut adjusted: Vec<Scalar> = Vec::new();
        let mut s: usize = 0;
        while s < count
            invariant
                s <= count,
                count == old(species_set)@.len(),
                species_set@.len() == count,
                adjusted@.len() == s,
                self.rated(),
                self.generations() < usize::MAX,
                forall|x: int|
                    0 <= x < s ==> recorded(&old(species_set)@[x], #[trigger] &species_set@[x]),
                forall|x: int|
                    0 <= x < s ==> (#[trigger] species_set@[x]).info.previous_fitness is Some
                        && shared(
                        ops,
                        old(species_set)@[x].members(),
                        species_set@[x].info.previous_fitness.unwrap(),
                    ),
                forall|x: int|
                    0 <= x < s ==> Some(#[trigger] adjusted@[x])
                        == species_set@[x].info.previous_fitness,
                forall|x: int| s <= x < count ==> #[trigger] species_set@[x] == old(species_set)@[x],
                forall|x: int|
                    0 <= x < count ==> drawn_from(
                        #[trigger] &old(species_set)@[x],
                        self.genomes(),
                        &self.settings(),
                        self.generations(),
                    ),
            decreases count - s,
        {
            let ghost before = species_set@;
            let mut species = species_set.remove(s);
            proof {
                assert(species == old(species_set)@[s as int]);
                assert(drawn_from(
                    &old(species_set)@[s as int],
                    self.genomes(),
                    &self.settings(),
                    self.generations(),
                ));
                assert forall|m: int| 0 <= m < species.members().len() implies (
                #[trigger] species.members()[m]).rating() is Some by {
                    assert(member_of(self.genomes(), species.members()[m]));
                }
            }
            let fitness = species.update_adjusted_fitness(ops).unwrap();
            let ghost listed = adjusted@;
            adjusted.push(fitness);
            species_set.insert(s, species);
            proof {
                assert(species_set@ =~= before.update(s as int, species));
                assert forall|x: int| 0 <= x < s + 1 implies Some(#[trigger] adjusted@[x])
                    == species_set@[x].info.previous_fitness by {
                    if x < s {
                        assert(adjusted@[x] == listed[x]);
                        assert(species_set@[x] == before[x]);
                    }
                }
            }
            s += 1;
        }
        let mut sum = Scalar::zero();
        let mut k: usize = 0;
        while k < adjusted.len()
            invariant
                k <= adjusted@.len(),
                fitness_total(ops, adjusted@, k as nat, sum),
            decreases adjusted@.len() - k,
        {
            let ghost before = sum;
            sum = ops.plus(sum, adjusted[k]);
            proof {
                let next = (k + 1) as nat;
                assert(fitness_total(ops, adjusted@, (next - 1) as nat, before));
                assert(sum_of(ops, before, adjusted@[next - 1], sum));
                assert(fitness_total(ops, adjusted@, next, sum));
            }
            k += 1;
        }
        let mut due: Vec<usize> = Vec::new();
        let mut k: usize = 0;
        while k < adjusted.len()
            invariant
                k <= adjusted@.len(),
                due@.len() == k,
                forall|x: int|
                    0 <= x < k ==> due_share(ops, target, adjusted@[x], sum, #[trigger] due@[x]),
            decreases adjusted@.len() - k,
        {
            let ghost listed = due@;
            let places = ops.from_count(target);
            let part = ops.over(adjusted[k], sum);
            let share = ops.times(places, part);
            let count = ops.ceil_count(share);
            due.push(count);
            proof {
                assert(number_of(ops, target, places) && quotient_of(ops, adjusted@[k as int], sum, part)
                    && product_of(ops, places, part, share) && ceiling_of(ops, share, count));
                assert(due_share(ops, target, adjusted@[k as int], sum, count));
                assert forall|x: int| 0 <= x < k + 1 implies due_share(
                    ops,
                    target,
                    adjusted@[x],
                    sum,
                    #[trigger] due@[x],
                ) by {
                    if x < k {
                        assert(due@[x] == listed[x]);
                    }
                }
            }
            k += 1;
        }
        let ghost wanted = due@;
        let counts = allocate(due, target);
        proof {
            assert(fitness_total(ops, adjusted@, adjusted@.len(), sum) && counts@ == evened(
                wanted,
                target,
            ));
            assert(apportioned(ops, adjusted@, target, counts@));
        }
        counts
    }

    /// The figures of the species, species by species: what each carries,
    /// how many members it has, and how many offspring `counts` gives it.
    fn summarise<'a>(species_set: &Vec<Species<'a, T>>, counts: &Vec<usize>) -> (report: Vec<
        SpeciesSummary,
    >)
        requires
            counts@.len() == species_set@.len(),
            forall|s: int|
                0 <= s < species_set@.len() ==> (
                #[trigger] species_set@[s]).info.previous_fitness is Some,
        ensures
            report@.len() == species_set@.len(),
            forall|s: int|
                0 <= s < species_set@.len() ==> (#[trigger] report@[s]).id
                    == species_set@[s].info.id && report@[s].age == species_set@[s].info.age
                    && report@[s].size == species_set@[s].members().len() && report@[s].offspring
                    == counts@[s] && report@[s].adjusted_fitness
                    == species_set@[s].info.previous_fitness.unwrap(),
    {
        let mut report: Vec<SpeciesSummary> = Vec::new();
        let mut s: usize = 0;
        while s < species_set.len()
            invariant
                s <= species_set@.len(),
                counts@.len() == species_set@.len(),
                forall|x: int|
                    0 <= x < species_set@.len() ==> (
                    #[trigger] species_set@[x]).info.previous_fitness is Some,
                report@.len() == s,
                forall|x: int|
                    0 <= x < s ==> (#[trigger] report@[x]).id == species_set@[x].info.id
                        && report@[x].age == species_set@[x].info.age && report@[x].size
                        == species_set@[x].members().len() && report@[x].offspring == counts@[x]
                        && report@[x].adjusted_fitness
                        == species_set@[x].info.previous_fitness.unwrap(),
            decreases species_set@.len() - s,
        {
            let species = &species_set[s];
            report.push(
                SpeciesSummary {
                    id: species.id(),
                    age: species.age(),
                    size: species.genome_count(),
                    offspring: counts[s],
                    adjusted_fitness: species.info.previous_fitness.unwrap(),
                },
            );
            s += 1;
        }
        report
    }

    /// One offspring of `species`, before mutation: see [`begotten`].
    fn beget<'a, A: Arithmetic>(
        &self,
        species: &Species<'a, T>,
        innov_record: &InnovationRecord,
        ops: &A,
        rng: &mut StdRng,
    ) -> (child: T)
        requires
            self.sound(),
            self.rated(),
            settled(species, self.genomes(), self.generations()),
            species.members().len() >= 2,
        ensures
            healthy(&child, &self.settings()),
            begotten(ops, species.members(), &child, &self.settings()),
            innov_record.wf() && (forall|i: int|
                0 <= i < self.genomes().len() ==> lawful(#[trigger] &self.genomes()[i], innov_record))
                ==> lawful(&child, innov_record),
    {
        proof {
            assert forall|m: int| 0 <= m < species.members().len() implies healthy(
                #[trigger] species.members()[m],
                &self.settings(),
            ) && species.members()[m].rating() is Some && ((forall|i: int|
                0 <= i < self.genomes().len() ==> lawful(#[trigger] &self.genomes()[i], innov_record))
                ==> lawful(species.members()[m], innov_record)) by {
                let member = species.members()[m];
                assert(member_of(self.genomes(), member));
                let i = choose|i: int| 0 <= i < self.genomes().len() && #[trigger] self.genomes()[i] == *member;
                assert(healthy(&self.genomes()[i], &self.settings()));
            }
        }
        if species.genome_count() <= 3 {
            let child = species.random_genome(rng);
            proof {
                let i = choose|i: int|
                    #![trigger species.members()[i]]
                    0 <= i < species.members().len() && copies(&child, species.members()[i]);
                assert(healthy(species.members()[i], &self.settings()));
                lemma_copy(&child, species.members()[i], &self.settings(), innov_record);
                assert(cloned(species.members(), &child));
            }
            return child;
        }
        let draw = ops.open01(rng);
        assert(drawn(ops, draw));
        let hit = draw.lt(self.params.reproduction.crossover_rate);
        assert(struck(ops, self.settings().reproduction.crossover_rate, hit));
        if hit {
            proof {
                assert(healthy(species.members()[0], &self.settings()));
            }
            match species.mate(rng, self.params.hidden_activation, self.params.output_activation) {
                Some(child) => {
                    proof {
                        let (i, j) = choose|i: int, j: int|
                            #![trigger species.members()[i], species.members()[j]]
                            0 <= i < species.members().len() && 0 <= j < species.members().len()
                                && i != j && offspring_of(
                                species.members()[i],
                                species.members()[j],
                                &child,
                            );
                        let a = species.members()[i];
                        let b = species.members()[j];
                        assert(healthy(a, &self.settings()) && healthy(b, &self.settings()));
                        let more_fit = b.rating().unwrap().at_most(a.rating().unwrap());
                        let picks = choose|picks: Seq<bool>| #[trigger]
                            a.genome().begets(&b.genome(), more_fit, picks, &child.genome());
                        a.genome().lemma_child_size(&b.genome(), more_fit, picks, &child.genome());
                        if innov_record.wf() && (forall|i: int|
                            0 <= i < self.genomes().len() ==> lawful(
                                #[trigger] &self.genomes()[i],
                                innov_record,
                            )) {
                            assert(lawful(a, innov_record) && lawful(b, innov_record));
                            assert(a.genome().registered(innov_record) && b.genome().registered(
                                innov_record,
                            ));
                        }
                        assert(crossed(species.members(), &child, &self.settings()));
                    }
                    return child;
                },
                None => {},
            }
        }
        let child = species.random_genome(rng);
        proof {
            let i = choose|i: int|
                #![trigger species.members()[i]]
                0 <= i < species.members().len() && copies(&child, species.members()[i]);
            assert(healthy(species.members()[i], &self.settings()));
            lemma_copy(&child, species.members()[i], &self.settings(), innov_record);
            assert(cloned(species.members(), &child));
            assert(!hit);
        }
        child
    }

    /// Adds `count` offspring of `species` to `next`, each of them made by
    /// [`Pool::beget`] and then mutated.
    fn litter<'a, A: Arithmetic>(
        &self,
        species: &Species<'a, T>,
        count: usize,
        next: &mut Vec<T>,
        innov_record: &mut InnovationRecord,
        ops: &A,
        rng: &mut StdRng,
    )
        requires
            self.sound(),
            self.rated(),
            settled(species, self.genomes(), self.generations()),
            species.members().len() >= 2,
            forall|i: int|
                0 <= i < old(next)@.len() ==> healthy(#[trigger] &old(next)@[i], &self.settings()),
        ensures
            final(next)@.len() == old(next)@.len() + count,
            forall|i: int| 0 <= i < old(next)@.len() ==> #[trigger] final(next)@[i] == old(next)@[i],
            forall|i: int|
                old(next)@.len() <= i < final(next)@.len() ==> bred_of(
                    ops,
                    species.members(),
                    #[trigger] &final(next)@[i],
                    &self.settings(),
                ),
            forall|i: int|
                0 <= i < final(next)@.len() ==> healthy(#[trigger] &final(next)@[i], &self.settings()),
            grown_on(final(innov_record), old(innov_record)),
            old(innov_record).wf() && (forall|i: int|
                0 <= i < self.genomes().len() ==> lawful(
                    #[trigger] &self.genomes()[i],
                    old(innov_record),
                )) && (forall|i: int|
                0 <= i < old(next)@.len() ==> lawful(#[trigger] &old(next)@[i], old(innov_record)))
                ==> forall|i: int|
                0 <= i < final(next)@.len() ==> lawful(#[trigger] &final(next)@[i], final(innov_record)),
    {
        let ghost start = next@;
        let ghost lawful_start = old(innov_record).wf() && (forall|i: int|
            0 <= i < self.genomes().len() ==> lawful(#[trigger] &self.genomes()[i], old(innov_record)))
            && (forall|i: int|
            0 <= i < start.len() ==> lawful(#[trigger] &start[i], old(innov_record)));
        let mut c: usize = 0;
        while c < count
            invariant
                c <= count,
                self.sound(),
                self.rated(),
                settled(species, self.genomes(), self.generations()),
                species.members().len() >= 2,
                start == old(next)@,
                next@.len() == start.len() + c,
                forall|i: int| 0 <= i < start.len() ==> #[trigger] next@[i] == start[i],
                forall|i: int|
                    start.len() <= i < next@.len() ==> bred_of(
                        ops,
                        species.members(),
                        #[trigger] &next@[i],
                        &self.settings(),
                    ),
                forall|i: int| 0 <= i < next@.len() ==> healthy(#[trigger] &next@[i], &self.settings()),
                grown_on(innov_record, old(innov_record)),
                lawful_start == (old(innov_record).wf() && (forall|i: int|
                    0 <= i < self.genomes().len() ==> lawful(
                        #[trigger] &self.genomes()[i],
                        old(innov_record),
                    )) && (forall|i: int|
                    0 <= i < start.len() ==> lawful(#[trigger] &start[i], old(innov_record)))),
                lawful_start ==> forall|i: int|
                    0 <= i < next@.len() ==> lawful(#[trigger] &next@[i], innov_record),
            decreases count - c,
        {
            let ghost ledger = *innov_record;
            let ghost before = next@;
            proof {
                if lawful_start {
                    assert forall|i: int| 0 <= i < self.genomes().len() implies lawful(
                        #[trigger] &self.genomes()[i],
                        innov_record,
                    ) by {
                        assert(lawful(&self.genomes()[i], old(innov_record)));
                        self.genomes()[i].genome().lemma_registered_later(old(innov_record), innov_record);
                    }
                }
            }
            let mut child = self.beget(species, innov_record, ops, rng);
            let ghost born = child;
            self.mutate(&mut child, innov_record, ops, rng);
            next.push(child);
            proof {
                innov_record.lemma_extends_transitive(&ledger, old(innov_record));
                assert(mutated(&born, &child, &self.settings(), &ledger, innov_record));
                assert(bred_of(ops, species.members(), &child, &self.settings()));
                assert forall|i: int| start.len() <= i < next@.len() implies bred_of(
                    ops,
                    species.members(),
                    #[trigger] &next@[i],
                    &self.settings(),
                ) by {
                    if i < before.len() {
                        assert(next@[i] == before[i]);
                    }
                }
                assert forall|i: int| 0 <= i < next@.len() implies healthy(
                    #[trigger] &next@[i],
                    &self.settings(),
                ) by {
                    if i < before.len() {
                        assert(next@[i] == before[i]);
                    }
                }
                if lawful_start {
                    assert forall|i: int| 0 <= i < next@.len() implies lawful(
                        #[trigger] &next@[i],
                        innov_record,
                    ) by {
                        if i < before.len() {
                            assert(next@[i] == before[i]);
                            assert(lawful(&before[i], &ledger));
                            before[i].genome().lemma_registered_later(&ledger, innov_record);
                        }
                    }
                }
            }
            c += 1;
        }
    }

    /// Fills the next generation: after `offspring`, each species adds as
    /// many offspring as `counts` gives it, species by species: see
    /// [`Pool::litter`].
    #[verifier::rlimit(30)]
    fn reproduce<'a, A: Arithmetic>(
        &self,
        species_set: &Vec<Species<'a, T>>,
        counts: &Vec<usize>,
        offspring: Vec<T>,
        innov_record: &mut InnovationRecord,
        ops: &A,
        rng: &mut StdRng,
    ) -> (next: Vec<T>)
        requires
            self.sound(),
            self.rated(),
            counts@.len() == species_set@.len(),
            offspring@.len() + total(counts@) <= usize::MAX,
            forall|s: int|
                0 <= s < species_set@.len() ==> settled(
                    #[trigger] &species_set@[s],
                    self.genomes(),
                    self.generations(),
                ) && species_set@[s].members().len() >= 2,
            forall|i: int|
                0 <= i < offspring@.len() ==> healthy(#[trigger] &offspring@[i], &self.settings()),
        ensures
            next@.len() == offspring@.len() + total(counts@),
            forall|i: int| 0 <= i < offspring@.len() ==> #[trigger] next@[i] == offspring@[i],
            forall|i: int|
                offspring@.len() <= i < next@.len() ==> reared(
                    ops,
                    species_set@,
                    #[trigger] &next@[i],
                    &self.settings(),
                ),
            next@.len() == offspring@.len() + owners(counts@, counts@.len()).len(),
            forall|j: int|
                0 <= j < owners(counts@, counts@.len()).len() ==> #[trigger] sired(
                    ops,
                    species_set@,
                    owners(counts@, counts@.len()),
                    next@,
                    offspring@.len() as int,
                    j,
                    &self.settings(),
                ),
            forall|i: int| 0 <= i < next@.len() ==> healthy(#[trigger] &next@[i], &self.settings()),
            grown_on(final(innov_record), old(innov_record)),
            self.lawful(old(innov_record)) && (forall|i: int|
                0 <= i < offspring@.len() ==> lawful(#[trigger] &offspring@[i], old(innov_record)))
                ==> forall|i: int|
                0 <= i < next@.len() ==> lawful(#[trigger] &next@[i], final(innov_record)),
    {
        let mut next = offspring;
        let ghost base = offspring@.len() as int;
        let ghost lawful_start = self.lawful(old(innov_record)) && (forall|i: int|
            0 <= i < offspring@.len() ==> lawful(#[trigger] &offspring@[i], old(innov_record)));
        let ghost mut lineage: Seq<int> = Seq::empty();
        let mut s: usize = 0;
        proof {
            assert(counts@.take(0) =~= Seq::<usize>::empty());
        }
        while s < species_set.len()
            invariant
                s <= species_set@.len(),
                self.sound(),
                self.rated(),
                base == offspring@.len(),
                lineage == owners(counts@, s as nat),
                next@.len() == base + lineage.len(),
                forall|j: int|
                    0 <= j < lineage.len() ==> #[trigger] sired(
                        ops,
                        species_set@,
                        lineage,
                        next@,
                        base,
                        j,
                        &self.settings(),
                    ),
                counts@.len() == species_set@.len(),
                offspring@.len() + total(counts@) <= usize::MAX,
                forall|s: int|
                    0 <= s < species_set@.len() ==> settled(
                        #[trigger] &species_set@[s],
                        self.genomes(),
                        self.generations(),
                    ) && species_set@[s].members().len() >= 2,
                next@.len() == base + total(counts@.take(s as int)),
                forall|i: int| 0 <= i < base ==> #[trigger] next@[i] == offspring@[i],
                forall|i: int|
                    base <= i < next@.len() ==> reared(
                        ops,
                        species_set@,
                        #[trigger] &next@[i],
                        &self.settings(),
                    ),
                forall|i: int| 0 <= i < next@.len() ==> healthy(#[trigger] &next@[i], &self.settings()),
                grown_on(innov_record, old(innov_record)),
                lawful_start == (self.lawful(old(innov_record)) && (forall|i: int|
                    0 <= i < offspring@.len() ==> lawful(
                        #[trigger] &offspring@[i],
                        old(innov_record),
                    ))),
                lawful_start ==> forall|i: int|
                    0 <= i < next@.len() ==> lawful(#[trigger] &next@[i], innov_record),
            decreases species_set@.len() - s,
        {
            let ghost ledger = *innov_record;
            let ghost before = next@;
            proof {
                assert(counts@.take(s + 1).drop_last() =~= counts@.take(s as int));
                assert(total(counts@.take(s + 1)) == total(counts@.take(s as int))
                    + counts@[s as int]);
                assert(settled(&species_set@[s as int], self.genomes(), self.generations()));
                if lawful_start {
                    assert forall|i: int| 0 <= i < self.genomes().len() implies lawful(
                        #[trigger] &self.genomes()[i],
                        innov_record,
                    ) by {
                        assert(lawful(&self.genomes()[i], old(innov_record)));
                        self.genomes()[i].genome().lemma_registered_later(old(innov_record), innov_record);
                    }
                }
            }
            self.litter(&species_set[s], counts[s], &mut next, innov_record, ops, rng);
            proof {
                innov_record.lemma_extends_transitive(&ledger, old(innov_record));
                assert forall|i: int| base <= i < next@.len() implies reared(
                    ops,
                    species_set@,
                    #[trigger] &next@[i],
                    &self.settings(),
                ) by {
                    if i < before.len() {
                        assert(next@[i] == before[i]);
                    } else {
                        assert(bred_of(
                            ops,
                            species_set@[s as int].members(),
                            &next@[i],
                            &self.settings(),
                        ));
                    }
                }
                let earlier = lineage;
                let upto = (s + 1) as nat;
                lineage = earlier + Seq::new(counts@[s as int] as nat, |j: int| s as int);
                assert(owners(counts@, upto) == owners(counts@, (upto - 1) as nat) + Seq::new(
                    counts@[upto - 1] as nat,
                    |j: int| upto - 1,
                ));
                assert(lineage =~= owners(counts@, upto));
                assert forall|j: int| 0 <= j < lineage.len() implies #[trigger] sired(
                    ops,
                    species_set@,
                    lineage,
                    next@,
                    base,
                    j,
                    &self.settings(),
                ) by {
                    reveal(sired);
                    if j < earlier.len() {
                        assert(sired(ops, species_set@, earlier, before, base, j, &self.settings()));
                        assert(next@[base + j] == before[base + j]);
                        assert(lineage[j] == earlier[j]);
                    } else {
                        assert(lineage[j] == s);
                        assert(bred_of(
                            ops,
                            species_set@[s as int].members(),
                            &next@[base + j],
                            &self.settings(),
                        ));
                    }
                }
            }
            s += 1;
        }
        proof {
            assert(counts@.take(counts@.len() as int) =~= counts@);
        }
        next
    }

    /// What the species leave to the next generation. Each species gets a
    /// copy of one of its members as its new representative.
    fn carry_over<'a>(&self, species_set: Vec<Species<'a, T>>, rng: &mut StdRng) -> (infos: Vec<
        SpeciesInfo<T>,
    >)
        requires
            self.sound(),
            forall|s: int|
                0 <= s < species_set@.len() ==> settled(
                    #[trigger] &species_set@[s],
                    self.genomes(),
                    self.generations(),
                ),
        ensures
            infos@.len() == species_set@.len(),
            forall|k: int|
                0 <= k < infos@.len() ==> healthy(
                    &(#[trigger] infos@[k]).representative,
                    &self.settings(),
                ) && infos@[k].age <= self.generations() && infos@[k].stagnant <= infos@[k].age + 1
                    && copied_from(self.genomes(), &infos@[k].representative),
            forall|k: int|
                0 <= k < infos@.len() ==> (#[trigger] infos@[k]).id == species_set@[k].info.id
                    && infos@[k].age == species_set@[k].info.age && infos@[k].stagnant
                    == species_set@[k].info.stagnant && infos@[k].previous_fitness
                    == species_set@[k].info.previous_fitness && exists|i: int|
                    #![trigger species_set@[k].members()[i]]
                    0 <= i < species_set@[k].members().len() && copies(
                        &infos@[k].representative,
                        species_set@[k].members()[i],
                    ),
    {
        let mut rest = species_set;
        let mut infos: Vec<SpeciesInfo<T>> = Vec::new();
        proof {
            assert(rest@ =~= species_set@.skip(0));
        }
        while rest.len() > 0
            invariant
                self.sound(),
                rest@.len() + infos@.len() == species_set@.len(),
                rest@ == species_set@.skip(infos@.len() as int),
                forall|k: int|
                    0 <= k < infos@.len() ==> (#[trigger] infos@[k]).id == species_set@[k].info.id
                        && infos@[k].age == species_set@[k].info.age && infos@[k].stagnant
                        == species_set@[k].info.stagnant && infos@[k].previous_fitness
                        == species_set@[k].info.previous_fitness && exists|i: int|
                        #![trigger species_set@[k].members()[i]]
                        0 <= i < species_set@[k].members().len() && copies(
                            &infos@[k].representative,
                            species_set@[k].members()[i],
                        ),
                forall|s: int|
                    0 <= s < rest@.len() ==> settled(
                        #[trigger] &rest@[s],
                        self.genomes(),
                        self.generations(),
                    ),
                forall|k: int|
                    0 <= k < infos@.len() ==> healthy(
                        &(#[trigger] infos@[k]).representative,
                        &self.settings(),
                    ) && infos@[k].age <= self.generations() && infos@[k].stagnant <= infos@[k].age
                        + 1 && copied_from(self.genomes(), &infos@[k].representative),
            decreases rest@.len(),
        {
            let ghost waiting = rest@;
            let ghost done = infos@;
            let mut species = rest.remove(0);
            proof {
                assert(species == waiting[0]);
                assert(settled(&waiting[0], self.genomes(), self.generations()));
                assert forall|s: int| 0 <= s < rest@.len() implies settled(
                    #[trigger] &rest@[s],
                    self.genomes(),
                    self.generations(),
                ) by {
                    assert(rest@[s] == waiting[s + 1]);
                }
            }
            let ghost found = species;
            species.replace_representative(rng);
            let info = species.info();
            proof {
                let i = choose|i: int|
                    #![trigger found.members()[i]]
                    0 <= i < found.members().len() && copies(
                        &info.representative,
                        found.members()[i],
                    );
                let member = found.members()[i];
                assert(member_of(self.genomes(), member));
                let g = choose|g: int| 0 <= g < self.genomes().len() && #[trigger] self.genomes()[g] == *member;
                assert(healthy(&self.genomes()[g], &self.settings()));
                assert(copies(&info.representative, &self.genomes()[g]));
            }
            infos.push(info);
            proof {
                assert(rest@ =~= species_set@.skip(infos@.len() as int));
                assert(found == species_set@[done.len() as int]);
                assert forall|k: int| 0 <= k < infos@.len() implies (#[trigger] infos@[k]).id
                    == species_set@[k].info.id && infos@[k].age == species_set@[k].info.age
                    && infos@[k].stagnant == species_set@[k].info.stagnant
                    && infos@[k].previous_fitness == species_set@[k].info.previous_fitness
                    && exists|i: int|
                    #![trigger species_set@[k].members()[i]]
                    0 <= i < species_set@[k].members().len() && copies(
                        &infos@[k].representative,
                        species_set@[k].members()[i],
                    ) by {
                    if k < done.len() {
                        assert(infos@[k] == done[k]);
                    }
                }
                assert forall|k: int| 0 <= k < infos@.len() implies healthy(
                    &(#[trigger] infos@[k]).representative,
                    &self.settings(),
                ) && infos@[k].age <= self.generations() && infos@[k].stagnant <= infos@[k].age + 1
                    && copied_from(self.genomes(), &infos@[k].representative) by {
                    if k < done.len() {
                        assert(infos@[k] == done[k]);
                    }
                }
            }
        }
        infos
    }

    /// `sorted` holds the genomes of the population, sorted into species:
    /// every genome is in one species, the first that takes it in, or one
    /// that it founded; and the members of a species stand in the order of
    /// the population.
    pub open spec fn speciated<'a, A: Arithmetic>(&self, ops: &A, sorted: Seq<Species<'a, T>>) -> bool {
        exists|chosen: Seq<int>| #[trigger]
            sorted_into(sorted, self.genomes(), chosen) && forall|i: int|
                0 <= i < self.genomes().len() ==> #[trigger] judged(
                    ops,
                    sorted,
                    self.genomes(),
                    chosen,
                    self.infos().len(),
                    &self.settings(),
                    i,
                )
    }

    /// The next generation and what its species carry over, from the
    /// population as it stands, the fittest first. Nothing where no species
    /// is left with more than one member after culling.
    #[verifier::rlimit(30)]
    fn breed<'a, A: Arithmetic>(
        &'a self,
        innov_record: &mut InnovationRecord,
        ops: &A,
        rng: &mut StdRng,
    ) -> (bred: Option<(Vec<T>, Vec<SpeciesInfo<T>>, Vec<SpeciesSummary>)>)
        requires
            self.sound(),
            self.rated(),
            self.generations() < usize::MAX,
            old(innov_record).species() + self.genomes().len() <= usize::MAX,
        ensures
            final(innov_record).extends(old(innov_record)),
            old(innov_record).wf() ==> final(innov_record).wf(),
            exists|sorted: Seq<Species<'a, T>>, thin: Seq<Species<'a, T>>, left: Seq<Species<'a, T>>|
                #![trigger culled(ops, self.settings().speciation.survival_rate, sorted, thin, left)]
                self.speciated(ops, sorted) && culled(
                    ops,
                    self.settings().speciation.survival_rate,
                    sorted,
                    thin,
                    left,
                ) && (bred is None <==> left.len() == 0) && (bred matches Some(b) ==> populated(
                    ops,
                    left,
                    b.2@.map_values(|r: SpeciesSummary| r.offspring),
                    b.0@,
                    &self.settings(),
                ) && summed_up(ops, left, b.2@, &self.settings()) && handed_down(
                    ops,
                    left,
                    b.1@,
                )),
            bred is None ==> respecied(final(innov_record), old(innov_record)),
            bred matches Some(b) ==> {
                &&& b.0@.len() == self.settings().population
                &&& self.settings().population > 0
                &&& forall|i: int| 0 <= i < b.0@.len() ==> healthy(#[trigger] &b.0@[i], &self.settings())
                &&& forall|k: int|
                    0 <= k < b.1@.len() ==> healthy(
                        &(#[trigger] b.1@[k]).representative,
                        &self.settings(),
                    ) && b.1@[k].age <= self.generations() && b.1@[k].stagnant <= b.1@[k].age + 1
                &&& forall|k: int|
                    0 <= k < b.1@.len() ==> descends(
                        #[trigger] &b.1@[k],
                        self.infos(),
                        old(innov_record).species(),
                        final(innov_record).species(),
                    )
                &&& self.lawful(old(innov_record)) ==> (forall|i: int|
                    0 <= i < b.0@.len() ==> lawful(#[trigger] &b.0@[i], final(innov_record)))
                    && (forall|k: int|
                    0 <= k < b.1@.len() ==> (
                    #[trigger] b.1@[k]).representative.genome().registered(final(innov_record)))
            },
    {
        let species_set = self.speciate(innov_record, ops);
        let ghost ledger1 = *innov_record;
        let ghost sorted = species_set@;
        let mut survivors = self.cull(species_set, ops);
        let ghost thin = choose|thin: Seq<Species<'a, T>>| #[trigger]
            culled(ops, self.settings().speciation.survival_rate, sorted, thin, survivors@);
        proof {
            assert(self.speciated(ops, sorted) && culled(
                ops,
                self.settings().speciation.survival_rate,
                sorted,
                thin,
                survivors@,
            ));
        }
        if survivors.len() == 0 {
            return None;
        }
        proof {
            let member = survivors@[0].members()[0];
            assert(member_of(self.genomes(), member));
        }
        let chosen = self.elites(&survivors);
        let target = self.params.population - chosen.len();
        let ghost left = survivors@;
        let counts = self.shares(&mut survivors, target, ops);
        proof {
            assert forall|s: int| 0 <= s < survivors@.len() implies settled(
                #[trigger] &survivors@[s],
                self.genomes(),
                self.generations(),
            ) && survivors@[s].members().len() >= 2 by {
                assert(recorded(&left[s], &survivors@[s]));
                assert(drawn_from(&left[s], self.genomes(), &self.settings(), self.generations()));
            }
            assert forall|i: int| 0 <= i < chosen@.len() implies healthy(
                #[trigger] &chosen@[i],
                &self.settings(),
            ) && (self.lawful(old(innov_record)) ==> lawful(&chosen@[i], &ledger1)) by {
                let g = choose|g: int|
                    0 <= g < self.genomes().len() && copies(&chosen@[i], #[trigger] &self.genomes()[g]);
                assert(healthy(&self.genomes()[g], &self.settings()));
                lemma_copy(&chosen@[i], &self.genomes()[g], &self.settings(), old(innov_record));
                if self.lawful(old(innov_record)) {
                    assert(lawful(&self.genomes()[g], old(innov_record)));
                    chosen@[i].genome().lemma_registered_later(old(innov_record), &ledger1);
                }
            }
            if self.lawful(old(innov_record)) {
                assert forall|i: int| 0 <= i < self.genomes().len() implies lawful(
                    #[trigger] &self.genomes()[i],
                    &ledger1,
                ) by {
                    assert(lawful(&self.genomes()[i], old(innov_record)));
                    self.genomes()[i].genome().lemma_registered_later(old(innov_record), &ledger1);
                }
                assert forall|k: int| 0 <= k < self.infos().len() implies (
                #[trigger] self.infos()[k]).representative.genome().registered(&ledger1) by {
                    assert(healthy(&self.infos()[k].representative, &self.settings()));
                    self.infos()[k].representative.genome().lemma_registered_later(
                        old(innov_record),
                        &ledger1,
                    );
                }
                assert(self.lawful(&ledger1));
            }
        }
        let ghost booked = survivors@;
        let report = Self::summarise(&survivors, &counts);
        proof {
            assert(report@.map_values(|r: SpeciesSummary| r.offspring) =~= counts@);
            let adjusted = choose|adjusted: Seq<Scalar>| #[trigger]
                apportioned(ops, adjusted, target, counts@) && adjusted.len() == left.len()
                    && forall|s: int|
                    0 <= s < adjusted.len() ==> Some(#[trigger] adjusted[s])
                        == booked[s].info.previous_fitness;
            assert(report@.map_values(|r: SpeciesSummary| r.adjusted_fitness) =~= adjusted);
            assert forall|s: int| 0 <= s < left.len() implies (#[trigger] report@[s]).id
                == left[s].info.id && report@[s].age == left[s].info.age && report@[s].size
                == left[s].members().len() && shared(
                ops,
                left[s].members(),
                report@[s].adjusted_fitness,
            ) by {
                assert(recorded(&left[s], &booked[s]));
                assert(booked[s].info.previous_fitness is Some);
                assert(shared(ops, left[s].members(), booked[s].info.previous_fitness.unwrap()));
                assert(report@[s].adjusted_fitness == booked[s].info.previous_fitness.unwrap());
                assert(report@[s].id == left[s].info.id);
                assert(report@[s].age == left[s].info.age);
                assert(report@[s].size == left[s].members().len());
            }
            assert(summed_up(ops, left, report@, &self.settings()));
        }
        let next = self.reproduce(&survivors, &counts, chosen, innov_record, ops, rng);
        let infos = self.carry_over(survivors, rng);
        proof {
            innov_record.lemma_extends_transitive(&ledger1, old(innov_record));
            assert forall|i: int| chosen@.len() <= i < next@.len() implies reared(
                ops,
                left,
                #[trigger] &next@[i],
                &self.settings(),
            ) by {
                assert(reared(ops, booked, &next@[i], &self.settings()));
                let s = choose|s: int|
                    0 <= s < booked.len() && #[trigger] bred_of(
                        ops,
                        booked[s].members(),
                        &next@[i],
                        &self.settings(),
                    );
                assert(recorded(&left[s], &booked[s]));
                assert(bred_of(ops, left[s].members(), &next@[i], &self.settings()));
            }
            let lineage = owners(counts@, counts@.len());
            assert forall|j: int| 0 <= j < lineage.len() implies #[trigger] sired(
                ops,
                left,
                lineage,
                next@,
                chosen@.len() as int,
                j,
                &self.settings(),
            ) by {
                reveal(sired);
                assert(sired(
                    ops,
                    booked,
                    lineage,
                    next@,
                    chosen@.len() as int,
                    j,
                    &self.settings(),
                ));
                assert(recorded(&left[lineage[j]], &booked[lineage[j]]));
            }
            assert(populated(ops, left, counts@, next@, &self.settings()));
            assert forall|k: int| 0 <= k < infos@.len() implies left_by(
                ops,
                &left[k],
                #[trigger] &infos@[k],
            ) by {
                assert(recorded(&left[k], &booked[k]));
                assert(booked[k].info.previous_fitness is Some);
                let i = choose|i: int|
                    #![trigger booked[k].members()[i]]
                    0 <= i < booked[k].members().len() && copies(
                        &infos@[k].representative,
                        booked[k].members()[i],
                    );
                assert(copies(&infos@[k].representative, left[k].members()[i]));
            }
            assert(handed_down(ops, left, infos@));
            assert(culled(ops, self.settings().speciation.survival_rate, sorted, thin, left));
            assert forall|k: int| 0 <= k < infos@.len() implies descends(
                #[trigger] &infos@[k],
                self.infos(),
                old(innov_record).species(),
                innov_record.species(),
            ) by {
                assert(recorded(&left[k], &booked[k]));
                assert(carried_by(&left[k].info, sorted));
                let x = choose|x: int|
                    0 <= x < sorted.len() && (#[trigger] sorted[x]).info == left[k].info;
                assert(seeded(
                    &sorted[x].info,
                    self.infos(),
                    old(innov_record).species(),
                    ledger1.species(),
                ));
                if exists|j: int|
                    0 <= j < self.infos().len() && resumes(&sorted[x].info, #[trigger] &self.infos()[j]) {
                    let j = choose|j: int|
                        0 <= j < self.infos().len() && resumes(
                            &sorted[x].info,
                            #[trigger] &self.infos()[j],
                        );
                    assert(infos@[k].id == self.infos()[j].id);
                }
            }
            if self.lawful(old(innov_record)) {
                assert forall|k: int| 0 <= k < infos@.len() implies (
                #[trigger] infos@[k]).representative.genome().registered(innov_record) by {
                    let rep = infos@[k].representative;
                    assert(copied_from(self.genomes(), &rep));
                    let g = choose|g: int|
                        0 <= g < self.genomes().len() && copies(&rep, #[trigger] &self.genomes()[g]);
                    assert(lawful(&self.genomes()[g], old(innov_record)));
                    assert(healthy(&rep, &self.settings()));
                    rep.genome().lemma_registered_later(old(innov_record), innov_record);
                }
            }
        }
        Some((next, infos, report))
    }

    /// One generation. The genomes are put in order, the fittest first, and
    /// sorted into species; the species are culled; the best of each species
    /// go over into the next generation as they are; the places that are
    /// left are shared out among the species by their fitness, and filled with
    /// mutated offspring. Returns the first genome of the new generation.
    ///
    /// Where culling leaves no species with more than one member, there is
    /// no next generation: nothing is returned, and the population stays as
    /// it was, but for its order.
    ///
    /// Every genome has a fitness: a population is evaluated before it
    /// evolves.
    pub fn evolve<A: Arithmetic>(
        &mut self,
        innov_record: &mut InnovationRecord,
        ops: &A,
        rng: &mut StdRng,
    ) -> (first: Option<&T>)
        requires
            old(self).sound(),
            old(self).rated(),
            old(self).generations() < usize::MAX,
            old(innov_record).species() + old(self).genomes().len() <= usize::MAX,
        ensures
            final(self).sound(),
            final(self).settings() == old(self).settings(),
            final(self).genomes().len() == final(self).settings().population,
            exists|sorted: Seq<Species<'_, T>>, thin: Seq<Species<'_, T>>, left: Seq<Species<'_, T>>|
                #![trigger culled(ops, old(self).settings().speciation.survival_rate, sorted, thin, left)]
                (exists|chosen: Seq<int>| #[trigger]
                    sorted_into(sorted, ranked(old(self).genomes()), chosen) && forall|i: int|
                        0 <= i < old(self).genomes().len() ==> #[trigger] judged(
                            ops,
                            sorted,
                            ranked(old(self).genomes()),
                            chosen,
                            old(self).infos().len(),
                            &old(self).settings(),
                            i,
                        )) && culled(
                    ops,
                    old(self).settings().speciation.survival_rate,
                    sorted,
                    thin,
                    left,
                ) && (first is None <==> left.len() == 0) && (first is Some ==> populated(
                    ops,
                    left,
                    final(self).summaries().map_values(|r: SpeciesSummary| r.offspring),
                    final(self).genomes(),
                    &old(self).settings(),
                ) && summed_up(ops, left, final(self).summaries(), &old(self).settings())
                    && handed_down(ops, left, final(self).infos())),
            final(self).level() == old(self).level(),
            first is None ==> final(self).summaries() == old(self).summaries() && final(self).rated(),
            match first {
                Some(network) => final(self).generations() == old(self).generations() + 1
                    && final(self).genomes().len() > 0 && *network == final(self).genomes()[0]
                    && forall|k: int|
                    0 <= k < final(self).infos().len() ==> descends(
                        #[trigger] &final(self).infos()[k],
                        old(self).infos(),
                        old(innov_record).species(),
                        final(innov_record).species(),
                    ),
                None => final(self).generations() == old(self).generations() && final(self).genomes() == ranked(old(self).genomes()) && final(self).infos() == old(self).infos(),
            },
            final(innov_record).extends(old(innov_record)),
            old(innov_record).wf() ==> final(innov_record).wf(),
            old(self).lawful(old(innov_record)) ==> final(self).lawful(final(innov_record)),
    {
        sort_by_fitness(&mut self.list);
        proof {
            lemma_ranked_members(old(self).genomes());
            assert forall|i: int| 0 <= i < self.genomes().len() implies healthy(
                #[trigger] &self.genomes()[i],
                &self.settings(),
            ) && (old(self).lawful(old(innov_record)) ==> lawful(
                &self.genomes()[i],
                old(innov_record),
            )) && self.genomes()[i].rating() is Some by {
                let x = self.genomes()[i];
                assert(old(self).genomes().contains(x));
                let j = choose|j: int| 0 <= j < old(self).genomes().len() && old(self).genomes()[j] == x;
                assert(healthy(&old(self).genomes()[j], &self.settings()));
            }
        }
        let bred = self.breed(innov_record, ops, rng);
        match bred {
            None => {
                proof {
                    if old(self).lawful(old(innov_record)) {
                        assert forall|i: int| 0 <= i < self.genomes().len() implies lawful(
                            #[trigger] &self.genomes()[i],
                            innov_record,
                        ) by {
                            self.genomes()[i].genome().lemma_registered_later(
                                old(innov_record),
                                innov_record,
                            );
                        }
                        assert forall|k: int| 0 <= k < self.infos().len() implies (
                        #[trigger] self.infos()[k]).representative.genome().registered(
                            innov_record,
                        ) by {
                            assert(healthy(&self.infos()[k].representative, &self.settings()));
                            self.infos()[k].representative.genome().lemma_registered_later(
                                old(innov_record),
                                innov_record,
                            );
                        }
                    }
                }
                None
            },
            Some((next, infos, report)) => {
                self.prev_species_info = infos;
                self.report = report;
                self.list = next;
                self.generation += 1;
                if self.list.len() > 0 {
                    Some(&self.list[0])
                } else {
                    None
                }
            },
        }
    }
}

/// The fitness record `(fitness, count)` is what becomes of the record
/// `(previous_fitness, stagnant)` in one generation: it holds the fitness
/// recorded and the count of stagnant generations that goes with it.
pub open spec fn tallied(
    previous_fitness: Option<Scalar>,
    stagnant: usize,
    fitness: Option<Scalar>,
    count: usize,
) -> bool {
    fitness matches Some(f) && count == stagnation(previous_fitness, stagnant as nat, f)
}

/// The members that the first `k` species of `species_set` send over into the
/// next generation as they are: of each species its first `elitism` members,
/// or all it has where it has fewer, species by species, as long as the
/// `limit` of the next generation is not reached.
pub open spec fn elite_members<'a, T: Network>(
    species_set: Seq<Species<'a, T>>,
    elitism: nat,
    limit: nat,
    k: nat,
) -> Seq<T>
    decreases k,
{
    if k == 0 {
        Seq::empty()
    } else {
        let before = elite_members(species_set, elitism, limit, (k - 1) as nat);
        let members = species_set[k - 1].values();
        let wanted = if elitism <= members.len() {
            elitism
        } else {
            members.len()
        };
        let room = if before.len() >= limit {
            0
        } else {
            limit - before.len()
        };
        before + members.take(if wanted <= room { wanted as int } else { room as int })
    }
}

/// Those of the first `k` species of `thin` that have more than one member,
/// in their order.
pub open spec fn lasting<'a, T: Network>(thin: Seq<Species<'a, T>>, k: nat) -> Seq<Species<'a, T>>
    decreases k,
{
    if k == 0 {
        Seq::empty()
    } else {
        let rest = lasting(thin, (k - 1) as nat);
        if thin[k - 1].members().len() > 1 {
            rest.push(thin[k - 1])
        } else {
            rest
        }
    }
}

/// `survivors` is what culling leaves of the species `before`: each species
/// is thinned to the share `rate` of its members, which gives `thin`; the
/// species that then have more than one member are the survivors.
pub open spec fn culled<'a, A: Arithmetic, T: Network>(
    ops: &A,
    rate: Scalar,
    before: Seq<Species<'a, T>>,
    thin: Seq<Species<'a, T>>,
    survivors: Seq<Species<'a, T>>,
) -> bool {
    &&& thin.len() == before.len()
    &&& forall|x: int|
        0 <= x < before.len() ==> (#[trigger] thin[x]).info == before[x].info && thinned(
            ops,
            rate,
            before[x].members(),
            thin[x].members(),
        )
    &&& survivors == lasting(thin, thin.len())
}

/// What lasts of the first `k` species does not depend on the species that
/// come later.
pub proof fn lemma_lasting_prefix<'a, T: Network>(
    thin: Seq<Species<'a, T>>,
    next: Species<'a, T>,
    k: nat,
)
    requires
        k <= thin.len(),
    ensures
        lasting(thin.push(next), k) == lasting(thin, k),
    decreases k,
{
    if k > 0 {
        lemma_lasting_prefix(thin, next, (k - 1) as nat);
        assert(thin.push(next)[k - 1] == thin[k - 1]);
    }
}

/// One of the species of `species_set` carries `info`.
pub open spec fn carried_by<'a, T: Network>(
    info: &SpeciesInfo<T>,
    species_set: Seq<Species<'a, T>>,
) -> bool {
    exists|x: int| 0 <= x < species_set.len() && (#[trigger] species_set[x]).info == *info
}

/// `after` is `before` once the fitness of the generation was recorded: the
/// same members around the same representative, with the fitness record
/// brought up to date.
pub open spec fn recorded<'a, T: Network>(before: &Species<'a, T>, after: &Species<'a, T>) -> bool {
    &&& after.members() == before.members()
    &&& after.info.id == before.info.id
    &&& after.info.age == before.info.age
    &&& after.info.representative == before.info.representative
    &&& tallied(
        before.info.previous_fitness,
        before.info.stagnant,
        after.info.previous_fitness,
        after.info.stagnant,
    )
}

/// `info` starts a generation as the species that left `earlier`: under the
/// same id, one generation older, with the same fitness record.
pub open spec fn resumes<T: Network>(info: &SpeciesInfo<T>, earlier: &SpeciesInfo<T>) -> bool {
    &&& info.id == earlier.id
    &&& info.age == earlier.age + 1
    &&& info.previous_fitness == earlier.previous_fitness
    &&& info.stagnant == earlier.stagnant
}

/// `info` starts a generation as a new species: of age zero, without a
/// fitness record, under an id from `low` up to, but not including, `high`.
pub open spec fn starts<T: Network>(info: &SpeciesInfo<T>, low: nat, high: nat) -> bool {
    &&& info.age == 0
    &&& low <= info.id < high
    &&& info.previous_fitness is None
    &&& info.stagnant == 0
}

/// `info` starts a generation either as one of the species that left
/// `infos`, or as a new species.
pub open spec fn seeded<T: Network>(
    info: &SpeciesInfo<T>,
    infos: Seq<SpeciesInfo<T>>,
    low: nat,
    high: nat,
) -> bool {
    (exists|j: int| 0 <= j < infos.len() && resumes(info, #[trigger] &infos[j])) || starts(
        info,
        low,
        high,
    )
}

/// `info` is left by a species that went through a generation, and that
/// either was one of the species that left `infos` or was new, under an id
/// from `low` up to `high`: it is one generation older than that species was,
/// or of age zero, and its fitness record was brought up to date.
pub open spec fn descends<T: Network>(
    info: &SpeciesInfo<T>,
    infos: Seq<SpeciesInfo<T>>,
    low: nat,
    high: nat,
) -> bool {
    (exists|j: int|
        0 <= j < infos.len() && info.id == (#[trigger] infos[j]).id && info.age == infos[j].age + 1
            && tallied(
            infos[j].previous_fitness,
            infos[j].stagnant,
            info.previous_fitness,
            info.stagnant,
        )) || (info.age == 0 && low <= info.id < high && tallied(
        None,
        0,
        info.previous_fitness,
        info.stagnant,
    ))
}

/// `species` is a species at the end of a generation: it has a member, its
/// members are genomes of the population, and its age and its count of
/// stagnant generations are no more than the run allows.
pub open spec fn settled<'a, T: Network>(
    species: &Species<'a, T>,
    genomes: Seq<T>,
    generation: nat,
) -> bool {
    &&& species.members().len() >= 1
    &&& species.info.age <= generation
    &&& species.info.stagnant <= species.info.age + 1
    &&& forall|m: int|
        0 <= m < species.members().len() ==> member_of(genomes, #[trigger] species.members()[m])
}

/// Every representative of `species_set` belongs to the run of `ledger`.
pub open spec fn represented<'a, T: Network>(
    species_set: Seq<Species<'a, T>>,
    ledger: &InnovationRecord,
) -> bool {
    forall|s: int|
        0 <= s < species_set.len() ==> (
        #[trigger] species_set[s]).info.representative.genome().registered(ledger)
}

/// `copy` is a copy of one of `genomes`.
pub open spec fn copied_from<T: Network>(genomes: Seq<T>, copy: &T) -> bool {
    exists|i: int| 0 <= i < genomes.len() && copies(copy, #[trigger] &genomes[i])
}

/// `after` has the genome of `before`: the same nodes and connections, and
/// as many inputs and outputs.
pub open spec fn same_genome<T: Network>(before: &T, after: &T) -> bool {
    &&& after.genome().nodes() == before.genome().nodes()
    &&& after.genome().links() == before.genome().links()
    &&& after.genome().inputs() == before.genome().inputs()
    &&& after.genome().outputs() == before.genome().outputs()
}

/// Those of the first `k` of `genomes` that `chosen` sends to species `s`, in
/// their order.
pub open spec fn picked<T>(genomes: Seq<T>, chosen: Seq<int>, s: int, k: nat) -> Seq<T>
    decreases k,
{
    if k == 0 {
        Seq::empty()
    } else {
        let rest = picked(genomes, chosen, s, (k - 1) as nat);
        if chosen[k - 1] == s {
            rest.push(genomes[k - 1])
        } else {
            rest
        }
    }
}

/// The species of `species_set` are the genomes `genomes`, sorted by
/// `chosen`: genome `i` is in species `chosen[i]` and in no other, and the
/// members of each species stand in the order of `genomes`.
pub open spec fn sorted_into<'a, T: Network>(
    species_set: Seq<Species<'a, T>>,
    genomes: Seq<T>,
    chosen: Seq<int>,
) -> bool {
    &&& chosen.len() == genomes.len()
    &&& forall|i: int| 0 <= i < chosen.len() ==> 0 <= #[trigger] chosen[i] < species_set.len()
    &&& forall|s: int|
        0 <= s < species_set.len() ==> (#[trigger] species_set[s]).values() == picked(
            genomes,
            chosen,
            s,
            genomes.len(),
        )
}

/// What is picked from the first `k` genomes does not depend on where later
/// genomes are sent.
pub proof fn lemma_picked_prefix<T>(genomes: Seq<T>, chosen: Seq<int>, next: int, s: int, k: nat)
    requires
        k <= chosen.len(),
    ensures
        picked(genomes, chosen.push(next), s, k) == picked(genomes, chosen, s, k),
    decreases k,
{
    if k > 0 {
        lemma_picked_prefix(genomes, chosen, next, s, (k - 1) as nat);
        assert(chosen.push(next)[k - 1] == chosen[k - 1]);
    }
}

/// No genome is picked for a species to which none is sent.
pub proof fn lemma_picked_none<T>(genomes: Seq<T>, chosen: Seq<int>, s: int, k: nat, count: int)
    requires
        k <= chosen.len(),
        forall|j: int| 0 <= j < k ==> 0 <= #[trigger] chosen[j] < count,
        s >= count,
    ensures
        picked(genomes, chosen, s, k) == Seq::<T>::empty(),
    decreases k,
{
    if k > 0 {
        lemma_picked_none(genomes, chosen, s, (k - 1) as nat, count);
        assert(chosen[k - 1] < count);
    }
}

/// `after` is the species `before`: it carries the same, and has the same
/// members.
pub open spec fn same_species<'a, T: Network>(before: &Species<'a, T>, after: &Species<'a, T>) -> bool {
    after.info == before.info && after.members() == before.members()
}

/// `ledger` is `earlier` but for species ids that were handed out since.
pub open spec fn respecied(ledger: &InnovationRecord, earlier: &InnovationRecord) -> bool {
    &&& ledger.extends(earlier)
    &&& ledger.nodes() == earlier.nodes()
    &&& ledger.connections() == earlier.connections()
    &&& earlier.wf() ==> ledger.wf()
}

/// `m` is one of `genomes`.
pub open spec fn member_of<T: Network>(genomes: Seq<T>, m: &T) -> bool {
    exists|i: int| 0 <= i < genomes.len() && #[trigger] genomes[i] == *m
}

/// `species` is a species of a population with the genomes `genomes`, in
/// generation `generation`: its representative is healthy, its members are
/// genomes of the population, and its age and its count of stagnant
/// generations are no more than the run allows.
pub open spec fn drawn_from<'a, T: Network>(
    species: &Species<'a, T>,
    genomes: Seq<T>,
    params: &Parameters,
    generation: nat,
) -> bool {
    &&& healthy(&species.info.representative, params)
    &&& species.info.age <= generation
    &&& species.info.stagnant <= species.info.age
    &&& forall|m: int|
        0 <= m < species.members().len() ==> member_of(genomes, #[trigger] species.members()[m])
}

/// A species that took in a genome of the population, or left it, is still
/// a species of that population.
pub proof fn lemma_joined<'a, T: Network>(
    before: &Species<'a, T>,
    after: &Species<'a, T>,
    network: &'a T,
    genomes: Seq<T>,
    i: int,
    params: &Parameters,
    generation: nat,
)
    requires
        drawn_from(before, genomes, params, generation),
        0 <= i < genomes.len(),
        *network == genomes[i],
        after.info == before.info,
        after.members() == before.members() || after.members() == before.members().push(network),
    ensures
        drawn_from(after, genomes, params, generation),
        after.members().len() >= before.members().len(),
{
    assert forall|m: int| 0 <= m < after.members().len() implies member_of(
        genomes,
        #[trigger] after.members()[m],
    ) by {
        if m < before.members().len() {
            assert(after.members()[m] == before.members()[m]);
        } else {
            assert(genomes[i] == *after.members()[m]);
        }
    }
}

/// `info` is what `species` leaves to the next generation: its id and its
/// age, the fitness that its members share, as `ops` computes it, with the
/// count of stagnant generations that goes with it, and a copy of one of
/// its members as the new representative.
pub open spec fn left_by<'a, A: Arithmetic, T: Network>(
    ops: &A,
    species: &Species<'a, T>,
    info: &SpeciesInfo<T>,
) -> bool {
    &&& info.id == species.info.id
    &&& info.age == species.info.age
    &&& info.previous_fitness is Some
    &&& shared(ops, species.members(), info.previous_fitness.unwrap())
    &&& info.stagnant == stagnation(
        species.info.previous_fitness,
        species.info.stagnant as nat,
        info.previous_fitness.unwrap(),
    )
    &&& exists|i: int|
        #![trigger species.members()[i]]
        0 <= i < species.members().len() && copies(&info.representative, species.members()[i])
}

/// `infos` is what the species `survivors` leave to the next generation,
/// species by species.
pub open spec fn handed_down<'a, A: Arithmetic, T: Network>(
    ops: &A,
    survivors: Seq<Species<'a, T>>,
    infos: Seq<SpeciesInfo<T>>,
) -> bool {
    &&& infos.len() == survivors.len()
    &&& forall|k: int|
        0 <= k < infos.len() ==> left_by(ops, &survivors[k], #[trigger] &infos[k])
}

/// `sum` is what the first `k` of the fitness values `adjusted` sum to under
/// `ops`, added one after the other to zero.
pub open spec fn fitness_total<A: Arithmetic>(ops: &A, adjusted: Seq<Scalar>, k: nat, sum: Scalar) -> bool
    decreases k,
{
    if k == 0 {
        sum == Scalar::zero()
    } else {
        exists|before: Scalar|
            fitness_total(ops, adjusted, (k - 1) as nat, before) && #[trigger] sum_of(
                ops,
                before,
                adjusted[k - 1],
                sum,
            )
    }
}

/// `due` is the number of places that a species with the shared fitness
/// `fitness` is due, of `target` places, where the fitness values of all
/// species sum to `sum`: `ops` divides the fitness by the sum, multiplies the
/// number for `target` by that, and rounds the product up to a count.
pub open spec fn due_share<A: Arithmetic>(
    ops: &A,
    target: usize,
    fitness: Scalar,
    sum: Scalar,
    due: usize,
) -> bool {
    exists|places: Scalar, part: Scalar, share: Scalar|
        #![trigger product_of(ops, places, part, share)]
        number_of(ops, target, places) && quotient_of(ops, fitness, sum, part) && product_of(
            ops,
            places,
            part,
            share,
        ) && ceiling_of(ops, share, due)
}

/// `counts` shares `target` places out among species with the shared
/// fitness values `adjusted`: each species is due its share of the places,
/// and what is due is evened out to `target`.
pub open spec fn apportioned<A: Arithmetic>(
    ops: &A,
    adjusted: Seq<Scalar>,
    target: usize,
    counts: Seq<usize>,
) -> bool {
    exists|sum: Scalar, due: Seq<usize>|
        #![trigger fitness_total(ops, adjusted, adjusted.len(), sum), evened(due, target)]
        fitness_total(ops, adjusted, adjusted.len(), sum) && due.len() == adjusted.len() && (
        forall|k: int|
            0 <= k < due.len() ==> due_share(ops, target, adjusted[k], sum, #[trigger] due[k]))
            && counts == evened(due, target)
}

/// The species that the offspring of the first `k` species come from, place
/// by place: as many times the first species as `counts` gives it offspring,
/// then as many times the second, and so on.
pub open spec fn owners(counts: Seq<usize>, k: nat) -> Seq<int>
    decreases k,
{
    if k == 0 {
        Seq::empty()
    } else {
        owners(counts, (k - 1) as nat) + Seq::new(counts[k - 1] as nat, |j: int| k - 1)
    }
}

/// The genome at place `j` after the first `base` of `next` is a mutated
/// offspring of the species that `lineage` names for that place.
#[verifier::opaque]
pub open spec fn sired<'a, A: Arithmetic, T: Network>(
    ops: &A,
    species_set: Seq<Species<'a, T>>,
    lineage: Seq<int>,
    next: Seq<T>,
    base: int,
    j: int,
    params: &Parameters,
) -> bool {
    0 <= lineage[j] < species_set.len() && bred_of(
        ops,
        species_set[lineage[j]].members(),
        &next[base + j],
        params,
    )
}

/// `report` holds the figures of the species `survivors`, species by
/// species: what each carries, how many members it has, and the fitness
/// that its members share, as `ops` computes it. The places that the elite
/// members leave free are shared out among the species by that fitness, and
/// the offspring fill the generation.
pub open spec fn summed_up<'a, A: Arithmetic, T: Network>(
    ops: &A,
    survivors: Seq<Species<'a, T>>,
    report: Seq<SpeciesSummary>,
    params: &Parameters,
) -> bool {
    &&& report.len() == survivors.len()
    &&& forall|s: int|
        0 <= s < survivors.len() ==> (#[trigger] report[s]).id == survivors[s].info.id
            && report[s].age == survivors[s].info.age && report[s].size
            == survivors[s].members().len() && shared(
            ops,
            survivors[s].members(),
            report[s].adjusted_fitness,
        )
    &&& survivors.len() > 0 ==> total(report.map_values(|r: SpeciesSummary| r.offspring))
        + elite_members(
        survivors,
        params.speciation.elitism as nat,
        params.population as nat,
        survivors.len(),
    ).len() == params.population
    &&& apportioned(
        ops,
        report.map_values(|r: SpeciesSummary| r.adjusted_fitness),
        (params.population - elite_members(
            survivors,
            params.speciation.elitism as nat,
            params.population as nat,
            survivors.len(),
        ).len()) as usize,
        report.map_values(|r: SpeciesSummary| r.offspring),
    )
}

/// `fitness` is what an evaluator of the type `E` has told of `network` at
/// place `index`: it was handed a copy of the network, and returned
/// `fitness`.
pub open spec fn told<E: Evaluator<T>, T: Network>(index: usize, network: &T, fitness: Scalar) -> bool {
    exists|judge: &mut E, probe: &mut T| #[trigger]
        call_ensures(E::rate, (judge, index, probe), fitness) && copies(&*probe, network)
}

/// Genome `i` founded the species that `chosen` sends it to: the species is
/// none of the first `known`, and no genome before `i` was sent to it.
pub open spec fn founds(chosen: Seq<int>, known: nat, i: int) -> bool {
    chosen[i] >= known && forall|j: int| 0 <= j < i ==> #[trigger] chosen[j] != chosen[i]
}

/// Genome `i` was sent where it belongs: every species before the one
/// that `chosen` sends it to has turned it away, and that one has taken it
/// in, unless the genome founded it, around a copy of itself. `ops` computes
/// the distances, with the weights and the threshold of `params`.
pub open spec fn judged<'a, A: Arithmetic, T: Network>(
    ops: &A,
    species_set: Seq<Species<'a, T>>,
    genomes: Seq<T>,
    chosen: Seq<int>,
    known: nat,
    params: &Parameters,
    i: int,
) -> bool {
    &&& forall|x: int|
        0 <= x < chosen[i] ==> accepts(
            ops,
            &(#[trigger] species_set[x]).info.representative,
            &genomes[i],
            params.speciation.c1,
            params.speciation.c2,
            params.speciation.compatibility_threshold,
            false,
        )
    &&& accepts(
        ops,
        &species_set[chosen[i]].info.representative,
        &genomes[i],
        params.speciation.c1,
        params.speciation.c2,
        params.speciation.compatibility_threshold,
        true,
    ) || (founds(chosen, known, i) && copies(
        &species_set[chosen[i]].info.representative,
        &genomes[i],
    ))
}

/// `network` is a genome of a first generation: without fitness, with the
/// input, output and bias nodes and one connection from every input to
/// every output, numbered by `ledger` and switched on, each with a weight
/// that `ops` sampled from the range of weights.
pub open spec fn fresh<A: Arithmetic, T: Network>(
    ops: &A,
    network: &T,
    params: &Parameters,
    ledger: &InnovationRecord,
) -> bool {
    &&& network.rating() is None
    &&& network.genome().nodes() == default_nodes(
        params.input_number as nat,
        params.output_number as nat,
    )
    &&& same_wiring(
        initial_links(params.input_number as nat, params.output_number as nat, *ledger),
        network.genome().links(),
    )
    &&& forall|e: int|
        0 <= e < network.genome().links().len() ==> sampled(
            ops,
            params.mutation.weight_min,
            params.mutation.weight_max,
            (#[trigger] network.genome().links()[e]).data.weight,
        )
}

/// `ledger` is `earlier` after it numbered the connections of a fresh
/// network with `inputs` inputs and `outputs` outputs, none of which it
/// knew: they got the next numbers in their order, and the counter went up
/// by their count.
pub open spec fn first_numbers(
    inputs: nat,
    outputs: nat,
    earlier: &InnovationRecord,
    ledger: &InnovationRecord,
) -> bool {
    &&& ledger.connections() == earlier.connections() + inputs * outputs
    &&& forall|e: int|
        0 <= e < inputs * outputs ==> (#[trigger] initial_links(
            inputs,
            outputs,
            *ledger,
        )[e]).data.innov_number == earlier.connections() + e
}

/// `child` is a copy of one of `members`.
pub open spec fn cloned<'a, T: Network>(members: Seq<&'a T>, child: &T) -> bool {
    exists|i: int| #![trigger members[i]] 0 <= i < members.len() && copies(child, members[i])
}

/// `child` is a child of two of `members` that differ in their place, with
/// the squashing functions of the settings.
pub open spec fn crossed<'a, T: Network>(members: Seq<&'a T>, child: &T, params: &Parameters) -> bool {
    child.hidden_kind() == params.hidden_activation && child.output_kind()
        == params.output_activation && exists|i: int, j: int|
        #![trigger members[i], members[j]]
        0 <= i < members.len() && 0 <= j < members.len() && i != j && offspring_of(
            members[i],
            members[j],
            child,
        )
}

/// `child` is an offspring of a species with the members `members`, before
/// mutation. A species with more than three members draws against the
/// probability of crossover: on a hit the offspring is a child of two
/// members, else a copy of one. A smaller species does not draw: its
/// offspring is a copy of one member.
pub open spec fn begotten<'a, A: Arithmetic, T: Network>(
    ops: &A,
    members: Seq<&'a T>,
    child: &T,
    params: &Parameters,
) -> bool {
    if members.len() > 3 {
        exists|hit: bool| #[trigger]
            struck(ops, params.reproduction.crossover_rate, hit) && if hit {
                crossed(members, child, params)
            } else {
                cloned(members, child)
            }
    } else {
        cloned(members, child)
    }
}

/// `genome` is an offspring of a species with the members `members`, after
/// mutation: it was begotten, and then all the kinds of mutation had their
/// turn.
pub open spec fn bred_of<'a, A: Arithmetic, T: Network>(
    ops: &A,
    members: Seq<&'a T>,
    genome: &T,
    params: &Parameters,
) -> bool {
    exists|born: T, earlier: InnovationRecord, later: InnovationRecord|
        #![trigger mutated(&born, genome, params, &earlier, &later)]
        begotten(ops, members, &born, params) && mutated(&born, genome, params, &earlier, &later)
            && mutation(
            ops,
            &params.mutation,
            &born.genome(),
            &genome.genome(),
            &earlier,
            &later,
        )
}

/// `genome` is a mutated offspring of one of the species `species_set`.
pub open spec fn reared<'a, A: Arithmetic, T: Network>(
    ops: &A,
    species_set: Seq<Species<'a, T>>,
    genome: &T,
    params: &Parameters,
) -> bool {
    exists|s: int|
        0 <= s < species_set.len() && #[trigger] bred_of(
            ops,
            species_set[s].members(),
            genome,
            params,
        )
}

/// `next` is the generation that the species `survivors` leave: first come
/// copies of their elite members, and every genome after them is a mutated
/// offspring of one of the species; the offspring stand species by species,
/// as many of each species as `counts` gives it: see [`owners`].
pub open spec fn populated<'a, A: Arithmetic, T: Network>(
    ops: &A,
    survivors: Seq<Species<'a, T>>,
    counts: Seq<usize>,
    next: Seq<T>,
    params: &Parameters,
) -> bool {
    let elite = elite_members(
        survivors,
        params.speciation.elitism as nat,
        params.population as nat,
        survivors.len(),
    );
    &&& elite.len() <= next.len()
    &&& forall|i: int| 0 <= i < elite.len() ==> copies(#[trigger] &next[i], &elite[i])
    &&& forall|i: int|
        elite.len() <= i < next.len() ==> reared(ops, survivors, #[trigger] &next[i], params)
    &&& counts.len() == survivors.len()
    &&& next.len() == elite.len() + total(counts)
    &&& next.len() == elite.len() + owners(counts, counts.len()).len()
    &&& forall|j: int|
        0 <= j < owners(counts, counts.len()).len() ==> #[trigger] sired(
            ops,
            survivors,
            owners(counts, counts.len()),
            next,
            elite.len() as int,
            j,
            params,
        )
}

/// Whether a genome with `inputs` inputs, `outputs` outputs and `links`
/// connections can take `more` connections and still be a parent.
fn has_room(inputs: usize, outputs: usize, links: usize, more: usize) -> (room: bool)
    ensures
        room == (inputs + outputs + 1 + 2 * (links + more) <= u32::MAX),
{
    inputs as u128 + outputs as u128 + 1 + 2 * (links as u128 + more as u128) <= u32::MAX as u128
}

/// What a mutation that asks nothing of the ledger leaves as it was: the
/// network stays healthy and keeps its fitness, and it stays lawful for
/// every ledger for which it was.
pub open spec fn steady<T: Network>(before: &T, after: &T, params: &Parameters) -> bool {
    &&& healthy(after, params)
    &&& after.rating() == before.rating()
    &&& forall|ledger: InnovationRecord| #[trigger]
        lawful(before, &ledger) ==> lawful(after, &ledger)
}

/// What every mutation leaves as it was: the network stays healthy and keeps
/// its fitness, the ledger only grows, and a network that was lawful for a
/// well-formed ledger is lawful for the ledger as it has become.
pub open spec fn mutated<T: Network>(
    before: &T,
    after: &T,
    params: &Parameters,
    earlier: &InnovationRecord,
    ledger: &InnovationRecord,
) -> bool {
    &&& healthy(after, params)
    &&& after.rating() == before.rating()
    &&& grown_on(ledger, earlier)
    &&& earlier.wf() && lawful(before, earlier) ==> lawful(after, ledger)
}

/// Two mutations in a row are a mutation.
pub proof fn lemma_mutated_twice<T: Network>(
    a: &T,
    b: &T,
    c: &T,
    params: &Parameters,
    first: &InnovationRecord,
    second: &InnovationRecord,
    third: &InnovationRecord,
)
    requires
        mutated(a, b, params, first, second),
        mutated(b, c, params, second, third),
    ensures
        mutated(a, c, params, first, third),
{
    third.lemma_extends_transitive(second, first);
}

} // verus!