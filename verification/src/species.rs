//! Species: genomes that are close to one representative.
use vstd::prelude::*;
use rand::rngs::StdRng;
use crate::activations::ActivationKind;
use crate::network::Network;
use crate::random::{range_index, uniform_index};
use crate::scalar::{
    floor_of, number_of, product_of, quotient_of, sum_of, Arithmetic, Scalar,
};

verus! {

/// What a species carries from one generation to the next.
pub struct SpeciesInfo<T: Network> {
    pub id: usize,
    pub representative: T,
    pub age: usize,
    pub previous_fitness: Option<Scalar>,
    pub stagnant: usize,
}

/// The fitness that a new adjusted fitness is held against: the previous
/// one, or zero where there is none.
pub open spec fn mark(previous_fitness: Option<Scalar>) -> Scalar {
    match previous_fitness {
        Some(f) => f,
        None => Scalar::zero(),
    }
}

/// The count of stagnant generations after the adjusted fitness `fitness`
/// was recorded: none where `fitness` is above the mark, one more where it is
/// not.
pub open spec fn stagnation(previous_fitness: Option<Scalar>, stagnant: nat, fitness: Scalar) -> nat {
    if mark(previous_fitness).below(fitness) {
        0
    } else {
        stagnant + 1
    }
}

/// The count of stagnant generations after the adjusted fitness values
/// `values` were recorded one after the other.
pub open spec fn stagnation_after(
    previous_fitness: Option<Scalar>,
    stagnant: nat,
    values: Seq<Scalar>,
) -> nat
    decreases values.len(),
{
    if values.len() == 0 {
        stagnant
    } else {
        stagnation(
            if values.len() == 1 {
                previous_fitness
            } else {
                Some(values[values.len() - 2])
            },
            stagnation_after(previous_fitness, stagnant, values.drop_last()),
            values.last(),
        )
    }
}

/// A species whose adjusted fitness fails to rise above the value recorded
/// before it, generation after generation, counts every one of these
/// generations as stagnant.
pub proof fn lemma_stagnation_counts(
    previous_fitness: Option<Scalar>,
    stagnant: nat,
    values: Seq<Scalar>,
)
    requires
        values.len() > 0 ==> !mark(previous_fitness).below(values[0]),
        forall|k: int| 0 < k < values.len() ==> !values[k - 1].below(#[trigger] values[k]),
    ensures
        stagnation_after(previous_fitness, stagnant, values) == stagnant + values.len(),
    decreases values.len(),
{
    if values.len() > 0 {
        let rest = values.drop_last();
        assert forall|k: int| 0 < k < rest.len() implies !rest[k - 1].below(#[trigger] rest[k]) by {
            assert(rest[k] == values[k]);
        }
        if rest.len() > 0 {
            assert(rest[0] == values[0]);
        }
        lemma_stagnation_counts(previous_fitness, stagnant, rest);
    }
}

impl<T: Network> SpeciesInfo<T> {
    /// A species that has recorded no fitness yet.
    pub fn new(id: usize, representative: T, age: usize) -> (info: Self)
        ensures
            info.id == id,
            info.representative == representative,
            info.age == age,
            info.previous_fitness is None,
            info.stagnant == 0,
    {
        Self { id, representative, age, previous_fitness: None, stagnant: 0 }
    }

    /// Makes the species one generation older.
    pub fn add_age(&mut self)
        requires
            old(self).age < usize::MAX,
        ensures
            final(self).age == old(self).age + 1,
            final(self).id == old(self).id,
            final(self).representative == old(self).representative,
            final(self).previous_fitness == old(self).previous_fitness,
            final(self).stagnant == old(self).stagnant,
    {
        self.age += 1;
    }

    /// A copy: the same numbers, and a copy of the representative.
    pub fn duplicate(&self) -> (copy: Self)
        ensures
            copy.id == self.id,
            copy.age == self.age,
            copy.previous_fitness == self.previous_fitness,
            copy.stagnant == self.stagnant,
            copy.representative.genome().nodes() == self.representative.genome().nodes(),
            copy.representative.genome().links() == self.representative.genome().links(),
            copy.representative.genome().inputs() == self.representative.genome().inputs(),
            copy.representative.genome().outputs() == self.representative.genome().outputs(),
            copy.representative.genome().cached() is None,
            copy.representative.rating() == self.representative.rating(),
            copies(&copy.representative, &self.representative),
    {
        Self {
            id: self.id,
            representative: self.representative.duplicate(),
            age: self.age,
            previous_fitness: self.previous_fitness,
            stagnant: self.stagnant,
        }
    }
}

/// A species during one generation: what it carries, and its members, which
/// are genomes of the population, the fittest first.
pub struct Species<'a, T: Network> {
    pub info: SpeciesInfo<T>,
    pub list: Vec<&'a T>,
}

impl<'a, T: Network> Species<'a, T> {
    /// The members, the fittest first.
    pub open spec fn members(&self) -> Seq<&'a T> {
        self.list@
    }

    /// The members as values.
    pub open spec fn values(&self) -> Seq<T> {
        self.list@.map_values(|r: &'a T| *r)
    }

    /// A species without members.
    pub fn new(info: SpeciesInfo<T>) -> (species: Self)
        ensures
            species.info == info,
            species.members().len() == 0,
    {
        Species { list: Vec::new(), info }
    }

    /// What the species carries to the next generation.
    pub fn info(self) -> (info: SpeciesInfo<T>)
        ensures
            info == self.info,
    {
        self.info
    }

    /// Takes `network` in where its distance from the representative is at
    /// most `threshold`. Returns whether it was taken in. `ops` computes the
    /// distance.
    pub fn try_assign<A: Arithmetic>(
        &mut self,
        network: &'a T,
        c1: Scalar,
        c2: Scalar,
        threshold: Scalar,
        ops: &A,
    ) -> (assigned: bool)
        requires
            old(self).info.representative.genome().links().len()
                + network.genome().links().len() <= usize::MAX,
        ensures
            final(self).info == old(self).info,
            final(self).members() == if assigned {
                old(self).members().push(network)
            } else {
                old(self).members()
            },
            accepts(ops, &old(self).info.representative, network, c1, c2, threshold, assigned),
    {
        let metric = self.info.representative.graph().compatibility_metric(
            network.graph(),
            c1,
            c2,
            ops,
        );
        self.assign_within(network, metric, threshold)
    }

    /// Takes `network` in where `metric`, its distance from the
    /// representative, is at most `threshold`. Returns whether it was taken
    /// in.
    pub fn assign_within(&mut self, network: &'a T, metric: Scalar, threshold: Scalar) -> (assigned:
        bool)
        ensures
            assigned == metric.at_most(threshold),
            final(self).info == old(self).info,
            final(self).members() == if assigned {
                old(self).members().push(network)
            } else {
                old(self).members()
            },
    {
        if metric.le(threshold) {
            self.list.push(network);
            true
        } else {
            false
        }
    }

    /// Takes `network` in.
    pub fn force_assign(&mut self, network: &'a T)
        ensures
            final(self).info == old(self).info,
            final(self).members() == old(self).members().push(network),
    {
        self.list.push(network);
    }

    /// Keeps of the members, which stand the fittest first, the share
    /// `survival_rate`, rounded down, and at least one. `ops` computes the
    /// count.
    pub fn kill_worst<A: Arithmetic>(&mut self, survival_rate: Scalar, ops: &A)
        ensures
            final(self).info == old(self).info,
            final(self).members().len() <= old(self).members().len(),
            final(self).members() == old(self).members().take(final(self).members().len() as int),
            old(self).members().len() >= 1 ==> final(self).members().len() >= 1,
            thinned(ops, survival_rate, old(self).members(), final(self).members()),
    {
        let count = ops.from_count(self.list.len());
        let share = ops.times(count, survival_rate);
        let remaining = ops.floor_count(share);
        self.keep_best(remaining);
        proof {
            assert(number_of(ops, old(self).members().len() as usize, count) && product_of(
                ops,
                count,
                survival_rate,
                share,
            ) && floor_of(ops, share, remaining));
            assert(survivors(ops, old(self).members().len() as usize, survival_rate, remaining));
        }
    }

    /// Keeps the first `remaining` members, and at least one.
    pub fn keep_best(&mut self, remaining: usize)
        ensures
            final(self).info == old(self).info,
            final(self).members() == old(self).members().take(kept(
                old(self).members().len(),
                remaining as nat,
            ) as int),
    {
        let mut remaining = remaining;
        if remaining == 0 {
            remaining = 1;
        }
        if remaining < self.list.len() {
            self.list.truncate(remaining);
            assert(self.list@ =~= old(self).list@.take(remaining as int));
        } else {
            assert(self.list@ =~= old(self).list@.take(old(self).list@.len() as int));
        }
    }

    /// Makes a copy of some member the representative.
    pub fn replace_representative(&mut self, rng: &mut StdRng)
        requires
            old(self).members().len() > 0,
        ensures
            final(self).members() == old(self).members(),
            final(self).info.id == old(self).info.id,
            final(self).info.age == old(self).info.age,
            final(self).info.previous_fitness == old(self).info.previous_fitness,
            final(self).info.stagnant == old(self).info.stagnant,
            exists|i: int|
                #![trigger old(self).members()[i]]
                0 <= i < old(self).members().len() && copies(
                    &final(self).info.representative,
                    old(self).members()[i],
                ),
    {
        let index = range_index(rng, self.list.len());
        self.info.representative = self.list[index].duplicate();
        assert(copies(&self.info.representative, old(self).members()[index as int]));
    }

    /// The fitness that the members share: the sum of their fitness values
    /// divided twice by their number, or zero for a species without members.
    /// Nothing where a member has no fitness. `ops` does the arithmetic.
    pub fn adjusted_fitness_average<A: Arithmetic>(&self, ops: &A) -> (fitness: Option<Scalar>)
        ensures
            fitness is Some <==> forall|i: int|
                0 <= i < self.members().len() ==> (#[trigger] self.members()[i]).rating() is Some,
            self.members().len() == 0 ==> fitness == Some(Scalar::zero()),
            fitness matches Some(f) ==> shared(ops, self.members(), f),
    {
        let mut sum = Scalar::zero();
        let len = ops.from_count(self.list.len());
        let mut i: usize = 0;
        while i < self.list.len()
            invariant
                i <= self.list@.len(),
                forall|k: int| 0 <= k < i ==> (#[trigger] self.list@[k]).rating() is Some,
                fitness_sum(ops, self.list@, i as nat, sum),
            decreases self.list@.len() - i,
        {
            match self.list[i].fitness() {
                Some(f) => {
                    let ghost before = sum;
                    sum = ops.plus(sum, f);
                    proof {
                        let next = (i + 1) as nat;
                        assert(fitness_sum(ops, self.list@, (next - 1) as nat, before));
                        assert(sum_of(
                            ops,
                            before,
                            self.list@[next - 1].rating().unwrap(),
                            sum,
                        ));
                        assert(fitness_sum(ops, self.list@, next, sum));
                    }
                },
                None => {
                    return None;
                },
            }
            i += 1;
        }
        if self.list.len() == 0 {
            Some(Scalar::zero())
        } else {
            let once = ops.over(sum, len);
            let twice = ops.over(once, len);
            proof {
                assert(fitness_sum(ops, self.list@, self.list@.len(), sum) && number_of(
                    ops,
                    self.list@.len() as usize,
                    len,
                ) && quotient_of(ops, sum, len, once) && quotient_of(ops, once, len, twice));
            }
            Some(twice)
        }
    }

    /// Computes the fitness that the members share and records it: see
    /// [`Species::adjusted_fitness_average`] and [`Species::record_fitness`]. Where a
    /// member has no fitness, nothing is returned and nothing recorded.
    pub fn update_adjusted_fitness<A: Arithmetic>(&mut self, ops: &A) -> (fitness: Option<Scalar>)
        requires
            old(self).info.stagnant < usize::MAX,
        ensures
            final(self).members() == old(self).members(),
            final(self).info.id == old(self).info.id,
            final(self).info.age == old(self).info.age,
            final(self).info.representative == old(self).info.representative,
            fitness is Some <==> forall|i: int|
                0 <= i < old(self).members().len() ==> (#[trigger] old(
                    self,
                ).members()[i]).rating() is Some,
            fitness matches Some(f) ==> shared(ops, old(self).members(), f),
            match fitness {
                Some(f) => final(self).info.previous_fitness == Some(f) && final(self).info.stagnant
                    == stagnation(
                    old(self).info.previous_fitness,
                    old(self).info.stagnant as nat,
                    f,
                ) && (old(self).members().len() == 0 ==> f == Scalar::zero()),
                None => final(self).info == old(self).info,
            },
    {
        match self.adjusted_fitness_average(ops) {
            Some(fitness) => {
                self.record_fitness(fitness);
                Some(fitness)
            },
            None => None,
        }
    }

    /// Records the adjusted fitness of this generation: the species starts
    /// counting its stagnant generations anew where `fitness` is above the
    /// fitness recorded before (zero where none was), and counts one more
    /// where it is not.
    pub fn record_fitness(&mut self, fitness: Scalar)
        requires
            old(self).info.stagnant < usize::MAX,
        ensures
            final(self).members() == old(self).members(),
            final(self).info.id == old(self).info.id,
            final(self).info.age == old(self).info.age,
            final(self).info.representative == old(self).info.representative,
            final(self).info.previous_fitness == Some(fitness),
            final(self).info.stagnant == stagnation(
                old(self).info.previous_fitness,
                old(self).info.stagnant as nat,
                fitness,
            ),
    {
        let previous = match self.info.previous_fitness {
            Some(f) => f,
            None => Scalar::zero(),
        };
        if previous.lt(fitness) {
            self.info.stagnant = 0;
        } else {
            self.info.stagnant += 1;
        }
        self.info.previous_fitness = Some(fitness);
    }

    /// The number of members.
    pub fn genome_count(&self) -> (count: usize)
        ensures
            count == self.members().len(),
    {
        self.list.len()
    }

    /// A copy of some member.
    pub fn random_genome(&self, rng: &mut StdRng) -> (genome: T)
        requires
            self.members().len() > 0,
        ensures
            exists|i: int|
                #![trigger self.members()[i]]
                0 <= i < self.members().len() && copies(&genome, self.members()[i]),
    {
        let index = range_index(rng, self.list.len());
        let genome = self.list[index].duplicate();
        assert(copies(&genome, self.members()[index as int]));
        genome
    }

    /// A child of two members that differ in their place in the species,
    /// with the given squashing functions. Every member has a fitness. There
    /// is no child where the two members differ in their numbers of inputs
    /// or outputs.
    pub fn mate(&self, rng: &mut StdRng, hidden_func: ActivationKind, output_func: ActivationKind) -> (child:
        Option<T>)
        requires
            self.members().len() >= 2,
            forall|i: int|
                0 <= i < self.members().len() ==> roomy(#[trigger] self.members()[i])
                    && self.members()[i].rating() is Some,
        ensures
            child matches Some(c) ==> c.hidden_kind() == hidden_func && c.output_kind()
                == output_func && exists|i: int, j: int|
                #![trigger self.members()[i], self.members()[j]]
                0 <= i < self.members().len() && 0 <= j < self.members().len() && i != j
                    && offspring_of(self.members()[i], self.members()[j], &c),
            child is None ==> exists|i: int, j: int|
                #![trigger self.members()[i], self.members()[j]]
                0 <= i < self.members().len() && 0 <= j < self.members().len() && i != j && (
                self.members()[i].genome().inputs() != self.members()[j].genome().inputs()
                    || self.members()[i].genome().outputs()
                    != self.members()[j].genome().outputs()),
            (forall|i: int|
                0 <= i < self.members().len() ==> (#[trigger] self.members()[i]).genome().inputs()
                    == self.members()[0].genome().inputs() && self.members()[i].genome().outputs()
                    == self.members()[0].genome().outputs()) ==> child is Some,
    {
        let index1 = uniform_index(rng, self.list.len());
        let drawn = uniform_index(rng, self.list.len() - 1);
        let index2 = if drawn >= index1 { drawn + 1 } else { drawn };
        let parent1 = self.list[index1];
        let parent2 = self.list[index2];
        proof {
            assert(roomy(self.members()[index1 as int]) && roomy(self.members()[index2 as int]));
        }
        let child = parent1.crossover(parent2, hidden_func, output_func, rng);
        proof {
            let a = self.members()[index1 as int];
            let b = self.members()[index2 as int];
            if child is Some {
                assert(offspring_of(a, b, &child.unwrap()));
            } else {
                assert(a.genome().inputs() != b.genome().inputs() || a.genome().outputs()
                    != b.genome().outputs());
            }
        }
        child
    }

    /// Copies of the first `count` members, or of all where there are fewer.
    pub fn elites(&self, count: usize) -> (result: Vec<T>)
        ensures
            result@.len() == if count <= self.members().len() {
                count as int
            } else {
                self.members().len() as int
            },
            forall|i: int|
                0 <= i < result@.len() ==> copies(#[trigger] &result@[i], self.members()[i]),
    {
        let mut result: Vec<T> = Vec::new();
        let limit = if count <= self.list.len() { count } else { self.list.len() };
        let mut i: usize = 0;
        while i < limit
            invariant
                i <= limit,
                limit <= self.list@.len(),
                result@.len() == i,
                forall|k: int| 0 <= k < i ==> copies(#[trigger] &result@[k], self.list@[k]),
            decreases limit - i,
        {
            result.push(self.list[i].duplicate());
            i += 1;
        }
        result
    }

    pub fn age(&self) -> (age: usize)
        ensures
            age == self.info.age,
    {
        self.info.age
    }

    pub fn id(&self) -> (id: usize)
        ensures
            id == self.info.id,
    {
        self.info.id
    }

    pub fn stagnant(&self) -> (stagnant: usize)
        ensures
            stagnant == self.info.stagnant,
    {
        self.info.stagnant
    }
}

/// `sum` is what the fitness values of the first `k` of `members` sum to
/// under `ops`: zero for none; else `ops` adds the fitness of the last to the
/// sum of those before.
pub open spec fn fitness_sum<'a, A: Arithmetic, T: Network>(
    ops: &A,
    members: Seq<&'a T>,
    k: nat,
    sum: Scalar,
) -> bool
    decreases k,
{
    if k == 0 {
        sum == Scalar::zero()
    } else {
        exists|before: Scalar|
            fitness_sum(ops, members, (k - 1) as nat, before) && #[trigger] sum_of(
                ops,
                before,
                members[k - 1].rating().unwrap(),
                sum,
            )
    }
}

/// `fitness` is the fitness that `members` share, as `ops` computes it: zero
/// for no member; else the sum of their fitness values, divided by their
/// number, and divided by their number once more.
pub open spec fn shared<'a, A: Arithmetic, T: Network>(
    ops: &A,
    members: Seq<&'a T>,
    fitness: Scalar,
) -> bool {
    if members.len() == 0 {
        fitness == Scalar::zero()
    } else {
        exists|sum: Scalar, count: Scalar, once: Scalar|
            #![trigger quotient_of(ops, sum, count, once)]
            fitness_sum(ops, members, members.len(), sum) && number_of(
                ops,
                members.len() as usize,
                count,
            ) && quotient_of(ops, sum, count, once) && quotient_of(ops, once, count, fitness)
    }
}

/// The species around `representative` takes `network` in, or does not, as
/// `accepted` says: the distance between the two genomes, which `ops`
/// computes with the weights `c1` and `c2`, is at most `threshold`, or it is
/// not.
pub open spec fn accepts<A: Arithmetic, T: Network>(
    ops: &A,
    representative: &T,
    network: &T,
    c1: Scalar,
    c2: Scalar,
    threshold: Scalar,
    accepted: bool,
) -> bool {
    exists|metric: Scalar| #[trigger]
        representative.genome().measured(&network.genome(), c1, c2, ops, metric) && accepted
            == metric.at_most(threshold)
}

/// `remaining` is the share `survival_rate` of `count` members, rounded
/// down, as `ops` computes it: `ops` turns the count into a number,
/// multiplies it by the rate, and rounds the product down to a count.
pub open spec fn survivors<A: Arithmetic>(
    ops: &A,
    count: usize,
    survival_rate: Scalar,
    remaining: usize,
) -> bool {
    exists|number: Scalar, share: Scalar|
        #![trigger product_of(ops, number, survival_rate, share)]
        number_of(ops, count, number) && product_of(ops, number, survival_rate, share) && floor_of(
            ops,
            share,
            remaining,
        )
}

/// `after` is what is left of the members `before` when the worst are
/// killed: the first of them, as many as the share `survival_rate` comes to
/// under `ops`, and at least one.
pub open spec fn thinned<M, A: Arithmetic>(
    ops: &A,
    survival_rate: Scalar,
    before: Seq<M>,
    after: Seq<M>,
) -> bool {
    exists|remaining: usize| #[trigger]
        survivors(ops, before.len() as usize, survival_rate, remaining) && after == before.take(
            kept(before.len(), remaining as nat) as int,
        )
}

/// How many of `count` members stay when `remaining` are asked for: as many
/// as asked for, but at least one, and no more than there are.
pub open spec fn kept(count: nat, remaining: nat) -> nat {
    let wanted = if remaining == 0 { 1 } else { remaining };
    if wanted < count {
        wanted
    } else {
        count
    }
}

/// `copy` has the nodes, the connections, the fitness and the squashing
/// functions of `network`.
pub open spec fn copies<T: Network>(copy: &T, network: &T) -> bool {
    &&& copy.genome().nodes() == network.genome().nodes()
    &&& copy.genome().links() == network.genome().links()
    &&& copy.genome().inputs() == network.genome().inputs()
    &&& copy.genome().outputs() == network.genome().outputs()
    &&& copy.genome().cached() is None
    &&& copy.rating() == network.rating()
    &&& copy.hidden_kind() == network.hidden_kind()
    &&& copy.output_kind() == network.output_kind()
}

/// `network` is in shape and small enough to be a parent: its child fits
/// into the index space of a genome.
pub open spec fn roomy<T: Network>(network: &T) -> bool {
    &&& network.genome().shaped()
    &&& network.genome().inputs() + network.genome().outputs() + 1 + 2
        * network.genome().links().len() <= u32::MAX
}

/// `child` is a child of `a` and `b`, as [`Network::crossover`] makes one.
pub open spec fn offspring_of<T: Network>(a: &T, b: &T, child: &T) -> bool {
    &&& a.rating() is Some
    &&& b.rating() is Some
    &&& child.rating() is None
    &&& child.genome().shaped()
    &&& a.genome().quiet() && b.genome().quiet() ==> child.genome().quiet()
    &&& exists|picks: Seq<bool>| #[trigger]
        a.genome().begets(
            &b.genome(),
            b.rating().unwrap().at_most(a.rating().unwrap()),
            picks,
            &child.genome(),
        )
    &&& crate::network::crossover::inherits(
        &a.genome(),
        &b.genome(),
        b.rating().unwrap().at_most(a.rating().unwrap()),
        &child.genome(),
    )
}

} // verus!
