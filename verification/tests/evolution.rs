use neat::activations::ActivationKind;
use neat::allocation::allocate;
use neat::innovation_record::InnovationRecord;
use neat::network::feedforward::Feedforward;
use neat::network::Network;
use neat::parameters::{
    MutationParameters, Parameters, ReproductionParameters, SpeciationParameters,
};
use neat::pool::{Evaluator, Pool};
use neat::ranking::{outranked, sort_by_fitness};
use neat::scalar::{Arithmetic, Scalar};
use neat::species::{Species, SpeciesInfo};
use rand::distributions::{Distribution, Open01, Uniform};
use rand::rngs::StdRng;
use rand::SeedableRng;
use std::collections::HashMap;

fn pack(x: f64) -> Scalar {
    Scalar::from_bits(x.to_bits())
}

fn unpack(x: Scalar) -> f64 {
    f64::from_bits(x.to_bits())
}

struct Reals;

impl Arithmetic for Reals {
    fn plus(&self, a: Scalar, b: Scalar) -> Scalar {
        pack(unpack(a) + unpack(b))
    }

    fn minus(&self, a: Scalar, b: Scalar) -> Scalar {
        pack(unpack(a) - unpack(b))
    }

    fn times(&self, a: Scalar, b: Scalar) -> Scalar {
        pack(unpack(a) * unpack(b))
    }

    fn over(&self, a: Scalar, b: Scalar) -> Scalar {
        pack(unpack(a) / unpack(b))
    }

    fn exp(&self, x: Scalar) -> Scalar {
        pack(std::f64::consts::E.powf(unpack(x)))
    }

    fn tanh(&self, x: Scalar) -> Scalar {
        pack(unpack(x).tanh())
    }

    fn from_count(&self, n: usize) -> Scalar {
        pack(n as f64)
    }

    fn floor_count(&self, x: Scalar) -> usize {
        unpack(x).floor() as usize
    }

    fn ceil_count(&self, x: Scalar) -> usize {
        unpack(x).ceil() as usize
    }

    fn open01(&self, rng: &mut StdRng) -> Scalar {
        pack(Open01.sample(rng))
    }

    fn uniform(&self, low: Scalar, high: Scalar, rng: &mut StdRng) -> Scalar {
        pack(Uniform::new(unpack(low), unpack(high)).sample(rng))
    }
}

struct Xor;

impl Evaluator<Feedforward> for Xor {
    fn rate(&mut self, _index: usize, network: &mut Feedforward) -> Scalar {
        let data = [([0.0, 0.0], 0.0), ([0.0, 1.0], 1.0), ([1.0, 0.0], 1.0), ([1.0, 1.0], 0.0)];
        let mut err = 0.0;
        for (inputs, expected) in data.iter() {
            let inputs = [pack(inputs[0]), pack(inputs[1])];
            let output = unpack(network.activate(&inputs, &Reals).unwrap()[0]);
            err += (output - expected) * (output - expected);
        }
        pack(4.0 - err)
    }
}

struct ByIndex {
    seen: Vec<usize>,
}

impl Evaluator<Feedforward> for ByIndex {
    fn rate(&mut self, index: usize, network: &mut Feedforward) -> Scalar {
        self.seen.push(index);
        network.mutate_remove_connection(0);
        pack(((index * 7) % 5) as f64)
    }
}

fn xor_parameters(population: usize) -> Parameters {
    Parameters {
        input_number: 2,
        output_number: 1,
        population,
        hidden_activation: ActivationKind::Sigmoid,
        output_activation: ActivationKind::Sigmoid,
        mutation: MutationParameters {
            weight_perturbation: pack(0.8),
            weight_assign: pack(0.1),
            add_connection: pack(0.3),
            remove_connection: pack(0.05),
            toggle_connection: pack(0.05),
            add_node: pack(0.1),
            remove_node: pack(0.02),
            weight_min: pack(-8.0),
            weight_max: pack(8.0),
            perturb_min: pack(-1.0),
            perturb_max: pack(1.0),
        },
        speciation: SpeciationParameters {
            c1: pack(1.0),
            c2: pack(0.4),
            compatibility_threshold: pack(3.0),
            survival_rate: pack(0.4),
            stagnant_max: 15,
            elitism: 1,
        },
        reproduction: ReproductionParameters { crossover_rate: pack(0.75) },
    }
}

fn rated(innov_record: &mut InnovationRecord, fitness: f64) -> Feedforward {
    let kind = ActivationKind::Sigmoid;
    let mut network = Feedforward::new(2, 1, kind, kind, innov_record);
    network.evaluate(pack(fitness));
    network
}

fn fitness_of(network: &Feedforward) -> f64 {
    unpack(network.fitness().unwrap())
}

#[test]
fn scalar_compares_as_numbers() {
    let values = [
        f64::NEG_INFINITY,
        -3.5,
        -1.0,
        -f64::MIN_POSITIVE,
        -0.0,
        0.0,
        f64::MIN_POSITIVE,
        1.0,
        3.5,
        f64::INFINITY,
        f64::NAN,
    ];
    for &a in values.iter() {
        for &b in values.iter() {
            assert_eq!(pack(a).le(pack(b)), a <= b, "{} <= {}", a, b);
            assert_eq!(pack(a).lt(pack(b)), a < b, "{} < {}", a, b);
        }
        assert_eq!(pack(a).is_nan(), a.is_nan());
        assert_eq!(unpack(pack(a).abs()).to_bits(), a.abs().to_bits());
        assert_eq!(unpack(pack(a).negate()).to_bits(), (-a).to_bits());
    }
    assert_eq!(unpack(Scalar::zero()), 0.0);
    assert_eq!(unpack(Scalar::one()), 1.0);
    assert_eq!(unpack(pack(0.5).clamp(pack(-1.0), pack(1.0))), 0.5);
    assert_eq!(unpack(pack(-7.0).clamp(pack(-1.0), pack(1.0))), -1.0);
    assert_eq!(unpack(pack(7.0).clamp(pack(-1.0), pack(1.0))), 1.0);
    assert_eq!(Scalar::from_bits(0x4000_0000_0000_0000).to_bits(), 2.0f64.to_bits());
}

#[test]
fn ledger_hands_out_each_number_once() {
    let mut ledger = InnovationRecord::new(2, 1);
    assert_eq!(ledger.node_counter(), 4);
    assert_eq!(ledger.new_node(), 4);
    assert_eq!(ledger.new_node(), 5);
    assert_eq!(ledger.new_connection(3, 7), 0);
    assert_eq!(ledger.new_connection(7, 3), 1);
    assert_eq!(ledger.new_connection(3, 7), 0);
    assert_eq!(ledger.new_connection(0, 0), 2);
    assert_eq!(ledger.new_connection(7, 3), 1);
    assert_eq!(ledger.connection_counter(), 3);
    assert_eq!(ledger.new_species(), 0);
    assert_eq!(ledger.new_species(), 1);
    assert_eq!(ledger.species_counter(), 2);
    assert_eq!(ledger.node_counter(), 6);
}

#[test]
fn allocate_evens_out_in_turn() {
    assert_eq!(allocate(vec![4, 3, 3], 10), vec![4, 3, 3]);
    assert_eq!(allocate(vec![4, 4, 4], 10), vec![3, 3, 4]);
    assert_eq!(allocate(vec![4, 4, 4], 5), vec![1, 2, 2]);
    assert_eq!(allocate(vec![9, 0, 1], 3), vec![2, 0, 1]);
    assert_eq!(allocate(vec![2, 0, 9], 4), vec![1, 0, 3]);
    assert_eq!(allocate(vec![1, 1], 5), vec![3, 2]);
    assert_eq!(allocate(vec![0, 0, 0], 4), vec![2, 1, 1]);
    assert_eq!(allocate(vec![usize::MAX, usize::MAX], 1), vec![0, 1]);
    assert_eq!(allocate(vec![5], 0), vec![0]);
    assert_eq!(allocate(vec![], 7), Vec::<usize>::new());
}

#[test]
fn ranking_puts_fittest_first_and_keeps_ties_in_order() {
    let mut ledger = InnovationRecord::new(2, 1);
    let kind = ActivationKind::Sigmoid;
    let mut list = Vec::new();
    for (i, f) in [1.0, 3.0, 2.0, 3.0, 0.5].iter().enumerate() {
        let mut network = rated(&mut ledger, *f);
        // mark each with as many hidden nodes as its place
        for _ in 0..i {
            network.mutate_add_node(0, &mut ledger);
        }
        list.push(network);
    }
    let mut unrated = Feedforward::new(2, 1, kind, kind, &mut ledger);
    for _ in 0..5 {
        unrated.mutate_add_node(0, &mut ledger);
    }
    list.push(unrated);
    assert!(outranked(&list[0], &list[1]));
    assert!(!outranked(&list[1], &list[3]));
    assert!(outranked(&list[5], &list[4]));
    sort_by_fitness(&mut list);
    let order: Vec<usize> = list.iter().map(|n| n.graph().node_count() - 4).collect();
    assert_eq!(order, vec![1, 3, 2, 0, 4, 5]);
}

#[test]
fn kill_worst_keeps_the_first_and_at_least_one() {
    let mut ledger = InnovationRecord::new(2, 1);
    let members: Vec<Feedforward> =
        (0..10).map(|i| rated(&mut ledger, 10.0 - i as f64)).collect();
    let representative = rated(&mut ledger, 0.0);
    let mut species = Species::new(SpeciesInfo::new(3, representative, 2));
    for member in members.iter() {
        species.force_assign(member);
    }
    assert_eq!(species.genome_count(), 10);
    assert_eq!(species.id(), 3);
    assert_eq!(species.age(), 2);
    assert_eq!(species.stagnant(), 0);
    species.kill_worst(pack(0.45), &Reals);
    assert_eq!(species.genome_count(), 4);
    let left: Vec<f64> = species.list.iter().map(|n| fitness_of(n)).collect();
    assert_eq!(left, vec![10.0, 9.0, 8.0, 7.0]);
    species.kill_worst(pack(0.1), &Reals);
    assert_eq!(species.genome_count(), 1);
    species.kill_worst(pack(0.0), &Reals);
    assert_eq!(species.genome_count(), 1);
    assert_eq!(fitness_of(species.list[0]), 10.0);
    species.keep_best(5);
    assert_eq!(species.genome_count(), 1);
}

#[test]
fn elites_are_copies_of_the_first_members() {
    let mut ledger = InnovationRecord::new(2, 1);
    let members: Vec<Feedforward> = (0..3).map(|i| rated(&mut ledger, 5.0 - i as f64)).collect();
    let mut species = Species::new(SpeciesInfo::new(0, rated(&mut ledger, 0.0), 0));
    for member in members.iter() {
        species.force_assign(member);
    }
    let best: Vec<f64> = species.elites(2).iter().map(fitness_of).collect();
    assert_eq!(best, vec![5.0, 4.0]);
    assert_eq!(species.elites(7).len(), 3);
    assert_eq!(species.elites(0).len(), 0);
}

#[test]
fn try_assign_goes_by_the_threshold() {
    let mut ledger = InnovationRecord::new(2, 1);
    let near = rated(&mut ledger, 1.0);
    let mut far = rated(&mut ledger, 1.0);
    far.mutate_add_node(0, &mut ledger);
    far.mutate_assign_weight(1, pack(3.0));
    // two of four genes differ, and one shared weight by two: 2/4 + 0.5 * 2
    let mut species = Species::new(SpeciesInfo::new(0, rated(&mut ledger, 0.0), 0));
    assert!(species.try_assign(&near, pack(1.0), pack(0.5), pack(0.0), &Reals));
    assert!(!species.try_assign(&far, pack(1.0), pack(0.5), pack(1.49), &Reals));
    assert!(species.try_assign(&far, pack(1.0), pack(0.5), pack(1.5), &Reals));
    assert_eq!(species.genome_count(), 2);
    assert!(species.assign_within(&near, pack(2.0), pack(2.0)));
    assert!(!species.assign_within(&near, pack(2.5), pack(2.0)));
    assert!(!species.assign_within(&near, pack(f64::NAN), pack(2.0)));
    assert_eq!(species.genome_count(), 3);
}

#[test]
fn adjusted_fitness_is_shared_twice() {
    let mut ledger = InnovationRecord::new(2, 1);
    let members: Vec<Feedforward> =
        [3.0, 2.0, 1.0, 2.0].iter().map(|f| rated(&mut ledger, *f)).collect();
    let mut species = Species::new(SpeciesInfo::new(0, rated(&mut ledger, 0.0), 0));
    assert_eq!(species.adjusted_fitness_average(&Reals), Some(pack(0.0)));
    for member in members.iter() {
        species.force_assign(member);
    }
    assert_eq!(species.adjusted_fitness_average(&Reals), Some(pack(8.0 / 4.0 / 4.0)));
    let kind = ActivationKind::Sigmoid;
    let unrated = Feedforward::new(2, 1, kind, kind, &mut ledger);
    species.force_assign(&unrated);
    assert_eq!(species.adjusted_fitness_average(&Reals), None);
    assert_eq!(species.update_adjusted_fitness(&Reals), None);
    assert_eq!(species.stagnant(), 0);
}

#[test]
fn stagnation_counts_generations_without_gain() {
    let mut ledger = InnovationRecord::new(2, 1);
    let mut species: Species<Feedforward> =
        Species::new(SpeciesInfo::new(0, rated(&mut ledger, 0.0), 0));
    // at most zero, with nothing recorded before: stagnant
    species.record_fitness(pack(0.0));
    assert_eq!(species.stagnant(), 1);
    species.record_fitness(pack(1.0));
    assert_eq!(species.stagnant(), 0);
    for k in 1..=6 {
        species.record_fitness(pack(if k % 2 == 0 { 1.0 } else { 0.5 }));
        assert_eq!(species.stagnant(), k % 2);
    }
    for k in 1..=6 {
        species.record_fitness(pack(if k < 3 { 1.0 } else { 0.25 }));
        assert!(species.stagnant() >= k);
    }
    assert_eq!(species.stagnant(), 6);
    let mut species: Species<Feedforward> =
        Species::new(SpeciesInfo::new(0, rated(&mut ledger, 0.0), 0));
    species.record_fitness(pack(2.0));
    for k in 1..=5 {
        species.record_fitness(pack(2.0 - 0.1 * k as f64));
        assert_eq!(species.stagnant(), k);
    }
    species.record_fitness(pack(1.6));
    assert_eq!(species.stagnant(), 0);
    assert_eq!(species.info().previous_fitness, Some(pack(1.6)));
}

#[test]
fn update_adjusted_fitness_records_the_shared_fitness() {
    let mut ledger = InnovationRecord::new(2, 1);
    let members: Vec<Feedforward> = [4.0, 2.0].iter().map(|f| rated(&mut ledger, *f)).collect();
    let mut species = Species::new(SpeciesInfo::new(0, rated(&mut ledger, 0.0), 0));
    for member in members.iter() {
        species.force_assign(member);
    }
    assert_eq!(species.update_adjusted_fitness(&Reals), Some(pack(1.5)));
    assert_eq!(species.stagnant(), 0);
    assert_eq!(species.update_adjusted_fitness(&Reals), Some(pack(1.5)));
    assert_eq!(species.stagnant(), 1);
    assert_eq!(species.update_adjusted_fitness(&Reals), Some(pack(1.5)));
    assert_eq!(species.stagnant(), 2);
}

#[test]
fn mate_and_random_genome_draw_from_the_members() {
    let mut ledger = InnovationRecord::new(2, 1);
    let mut members: Vec<Feedforward> = (0..4).map(|i| rated(&mut ledger, i as f64)).collect();
    members[3].mutate_add_node(0, &mut ledger);
    let mut species = Species::new(SpeciesInfo::new(0, rated(&mut ledger, 0.0), 0));
    for member in members.iter() {
        species.force_assign(member);
    }
    let mut rng = StdRng::seed_from_u64(2);
    let kind = ActivationKind::Sigmoid;
    let mut with_hidden = 0;
    for _ in 0..60 {
        let child = species.mate(&mut rng, kind, kind).unwrap();
        assert_eq!(child.fitness(), None);
        assert!(!child.graph().has_cycle());
        // the split connection comes from the fittest member only
        match child.graph().edge_count() {
            2 => {},
            4 => with_hidden += 1,
            n => panic!("{} connections", n),
        }
        let copy = species.random_genome(&mut rng);
        assert!(fitness_of(&copy) < 4.0);
    }
    assert!(with_hidden > 0 && with_hidden < 60);
    species.replace_representative(&mut rng);
    let info = species.info();
    assert!(fitness_of(&info.representative) < 4.0);
    let mut aged = info.duplicate();
    aged.add_age();
    assert_eq!(aged.age, 1);
    assert_eq!(aged.id, 0);
}

#[test]
fn pool_starts_with_the_population_asked_for() {
    let mut rng = StdRng::seed_from_u64(4);
    let mut innov_record = InnovationRecord::new(2, 1);
    let mut pool =
        Pool::<Feedforward>::new(xor_parameters(12), 0, &mut innov_record, &Reals, &mut rng);
    assert_eq!(pool.size(), 12);
    assert_eq!(pool.generation(), 1);
    assert_eq!(innov_record.connection_counter(), 2);
    for i in 0..12 {
        let network = pool.nth(i).unwrap();
        assert_eq!(network.graph().edge_count(), 2);
        assert_eq!(network.fitness(), None);
        for e in 0..2 {
            let w = unpack(network.graph().edge(e).get_weight());
            assert!(-8.0 <= w && w < 8.0);
        }
    }
    assert!(pool.nth(12).is_none());
    let out = pool.activate_nth(3, &[pack(1.0), pack(0.0)], &Reals).unwrap();
    assert_eq!(out.len(), 1);
    assert!(pool.activate_nth(3, &[pack(1.0)], &Reals).is_none());
    assert!(pool.activate_nth(12, &[pack(1.0), pack(0.0)], &Reals).is_none());
}

#[test]
fn evaluate_rates_in_order_and_sorts() {
    let mut rng = StdRng::seed_from_u64(4);
    let mut innov_record = InnovationRecord::new(2, 1);
    let mut pool =
        Pool::<Feedforward>::new(xor_parameters(9), 0, &mut innov_record, &Reals, &mut rng);
    let mut evaluator = ByIndex { seen: Vec::new() };
    let best = fitness_of(pool.evaluate(&mut evaluator).unwrap());
    assert_eq!(evaluator.seen, (0..9).collect::<Vec<usize>>());
    assert_eq!(best, 4.0);
    let order: Vec<f64> = (0..9).map(|i| fitness_of(pool.nth(i).unwrap())).collect();
    assert_eq!(order, vec![4.0, 4.0, 3.0, 2.0, 2.0, 1.0, 1.0, 0.0, 0.0]);
    // what the evaluator did to its copies has left the genomes alone
    for i in 0..9 {
        assert_eq!(pool.nth(i).unwrap().graph().edge_count(), 2);
    }
    assert_eq!(pool.generation(), 1);
}

#[test]
fn evolve_keeps_the_population_and_its_invariants() {
    let mut rng = StdRng::seed_from_u64(9);
    let mut innov_record = InnovationRecord::new(2, 1);
    let mut pool =
        Pool::<Feedforward>::new(xor_parameters(40), 0, &mut innov_record, &Reals, &mut rng);
    for generation in 1..=25 {
        assert_eq!(pool.generation(), generation);
        pool.evaluate(&mut Xor).unwrap();
        assert!(pool.evolve(&mut innov_record, &Reals, &mut rng).is_some());
        assert_eq!(pool.size(), 40);
        let mut numbers: HashMap<(usize, usize), usize> = HashMap::new();
        for i in 0..pool.size() {
            let graph = pool.nth(i).unwrap().graph();
            assert!(!graph.has_cycle());
            assert_eq!(graph.input_number(), 2);
            assert_eq!(graph.output_number(), 1);
            for e in 0..graph.edge_count() {
                let (s, t) = graph.edge_endpoints(e);
                let pair = (graph.node(s).id(), graph.node(t).id());
                let number = graph.edge(e).innov_number();
                assert_eq!(*numbers.entry(pair).or_insert(number), number);
            }
            let mut ids: Vec<usize> = (0..graph.node_count()).map(|n| graph.node(n).id()).collect();
            ids.sort();
            ids.dedup();
            assert_eq!(ids.len(), graph.node_count());
        }
    }
}

#[test]
fn evolve_with_tight_threshold_has_no_next_generation() {
    let mut rng = StdRng::seed_from_u64(9);
    let mut innov_record = InnovationRecord::new(2, 1);
    let mut params = xor_parameters(10);
    params.speciation.compatibility_threshold = pack(-1.0);
    let mut pool = Pool::<Feedforward>::new(params, 0, &mut innov_record, &Reals, &mut rng);
    pool.evaluate(&mut Xor).unwrap();
    let before: Vec<f64> = (0..10).map(|i| fitness_of(pool.nth(i).unwrap())).collect();
    assert!(pool.evolve(&mut innov_record, &Reals, &mut rng).is_none());
    assert_eq!(pool.generation(), 1);
    assert_eq!(pool.size(), 10);
    let after: Vec<f64> = (0..10).map(|i| fitness_of(pool.nth(i).unwrap())).collect();
    assert_eq!(before, after);
    assert_eq!(innov_record.species_counter(), 10);
}

#[test]
fn seeded_runs_are_reproduced() {
    let mut results = Vec::new();
    for _ in 0..2 {
        let mut rng = StdRng::seed_from_u64(21);
        let mut innov_record = InnovationRecord::new(2, 1);
        let mut pool =
            Pool::<Feedforward>::new(xor_parameters(30), 0, &mut innov_record, &Reals, &mut rng);
        let mut trace = Vec::new();
        for _ in 0..10 {
            trace.push(fitness_of(pool.evaluate(&mut Xor).unwrap()));
            pool.evolve(&mut innov_record, &Reals, &mut rng);
        }
        trace.push(innov_record.connection_counter() as f64);
        results.push(trace);
    }
    assert_eq!(results[0], results[1]);
}

#[test]
fn xor_is_learned_in_most_seeded_runs() {
    let mut solved = 0;
    for seed in 0..5u64 {
        let mut rng = StdRng::seed_from_u64(seed);
        let mut innov_record = InnovationRecord::new(2, 1);
        let mut pool =
            Pool::<Feedforward>::new(xor_parameters(150), 0, &mut innov_record, &Reals, &mut rng);
        for _ in 0..300 {
            let best = fitness_of(pool.evaluate(&mut Xor).unwrap());
            if best > 3.9 {
                solved += 1;
                break;
            }
            if pool.evolve(&mut innov_record, &Reals, &mut rng).is_none() {
                break;
            }
        }
    }
    assert!(solved >= 3, "{} of 5 runs", solved);
}

#[test]
fn mutate_keeps_a_network_feedforward() {
    let mut rng = StdRng::seed_from_u64(13);
    let mut innov_record = InnovationRecord::new(2, 1);
    let mut params = xor_parameters(1);
    params.mutation.add_node = pack(0.9);
    params.mutation.add_connection = pack(0.9);
    params.mutation.remove_node = pack(0.3);
    params.mutation.remove_connection = pack(0.3);
    params.mutation.toggle_connection = pack(0.3);
    let pool = Pool::<Feedforward>::new(params, 0, &mut innov_record, &Reals, &mut rng);
    let mut network = pool.nth(0).unwrap().duplicate();
    let mut grown = false;
    for _ in 0..200 {
        pool.mutate(&mut network, &mut innov_record, &Reals, &mut rng);
        let graph = network.graph();
        assert!(!graph.has_cycle());
        assert!(graph.node_count() >= 4);
        grown = grown || graph.node_count() > 4;
        for e in 0..graph.edge_count() {
            let (s, t) = graph.edge_endpoints(e);
            assert!(s < graph.node_count() && t < graph.node_count());
            let w = unpack(graph.edge(e).get_weight());
            assert!(-8.0 <= w && w <= 8.0);
        }
        assert_eq!(network.activate(&[pack(1.0), pack(1.0)], &Reals).unwrap().len(), 1);
    }
    assert!(grown);
}

#[test]
fn speciate_sorts_every_genome_into_one_species() {
    let mut rng = StdRng::seed_from_u64(17);
    let mut innov_record = InnovationRecord::new(2, 1);
    let mut pool =
        Pool::<Feedforward>::new(xor_parameters(8), 0, &mut innov_record, &Reals, &mut rng);
    pool.evaluate(&mut Xor).unwrap();
    {
        let species_set = pool.speciate(&mut innov_record, &Reals);
        let heads: usize = species_set.iter().map(|s| s.genome_count()).sum();
        assert_eq!(heads, 8);
        for (k, species) in species_set.iter().enumerate() {
            assert_eq!(species.id(), k);
            assert_eq!(species.age(), 0);
            assert!(species.genome_count() >= 1);
            // the members stand in the order of the population: the fittest first
            let order: Vec<f64> = species.list.iter().map(|n| fitness_of(n)).collect();
            let mut sorted = order.clone();
            sorted.sort_by(|a, b| b.partial_cmp(a).unwrap());
            assert_eq!(order, sorted);
        }
        assert_eq!(innov_record.species_counter(), species_set.len());
    }
    let mut tight = xor_parameters(5);
    tight.speciation.compatibility_threshold = pack(-1.0);
    let mut innov_record = InnovationRecord::new(2, 1);
    let pool = Pool::<Feedforward>::new(tight, 0, &mut innov_record, &Reals, &mut rng);
    let species_set = pool.speciate(&mut innov_record, &Reals);
    assert_eq!(species_set.len(), 5);
    for (k, species) in species_set.iter().enumerate() {
        assert_eq!(species.id(), k);
        assert_eq!(species.genome_count(), 1);
    }
}

#[test]
fn pool_keeps_its_verbosity_and_reports_its_species() {
    let mut rng = StdRng::seed_from_u64(21);
    let mut innov_record = InnovationRecord::new(2, 1);
    let mut pool =
        Pool::<Feedforward>::new(xor_parameters(40), 2, &mut innov_record, &Reals, &mut rng);
    assert_eq!(pool.verbosity(), 2);
    assert!(pool.species_report().is_empty());
    pool.evaluate(&mut Xor).unwrap();
    assert!(pool.species_report().is_empty());
    assert!(pool.evolve(&mut innov_record, &Reals, &mut rng).is_some());
    assert_eq!(pool.verbosity(), 2);
    let report = pool.species_report().clone();
    assert!(!report.is_empty());
    let mut elites = 0;
    let mut offspring = 0;
    for (k, summary) in report.iter().enumerate() {
        assert!(summary.size >= 2);
        assert!(summary.size <= 40);
        assert_eq!(summary.age, 0);
        assert!(summary.id >= k);
        assert!(k == 0 || report[k - 1].id < summary.id);
        assert!(unpack(summary.adjusted_fitness).is_finite());
        assert!(unpack(summary.adjusted_fitness) >= 0.0);
        elites += 1;
        offspring += summary.offspring;
    }
    assert_eq!(elites + offspring, 40);
    // the second generation grows one generation older
    pool.evaluate(&mut Xor).unwrap();
    assert!(pool.evolve(&mut innov_record, &Reals, &mut rng).is_some());
    for summary in pool.species_report().iter() {
        assert!(summary.age <= 1);
    }
}

#[test]
fn first_generation_shares_the_first_numbers() {
    let mut rng = StdRng::seed_from_u64(3);
    let mut innov_record = InnovationRecord::new(2, 1);
    let pool = Pool::<Feedforward>::new(xor_parameters(5), 0, &mut innov_record, &Reals, &mut rng);
    assert_eq!(innov_record.connection_counter(), 2);
    for i in 0..5 {
        let graph = pool.nth(i).unwrap().graph();
        assert_eq!(graph.edge_endpoints(0), (0, 2));
        assert_eq!(graph.edge_endpoints(1), (1, 2));
        assert_eq!(graph.edge(0).innov_number(), 0);
        assert_eq!(graph.edge(1).innov_number(), 1);
        assert!(!graph.edge(0).is_disabled());
    }
}
