//! The innovation ledger of a run.
use vstd::prelude::*;
use std::collections::HashMap;

verus! {

broadcast use vstd::std_specs::hash::group_hash_axioms;

/// The key under which the pair `(source, target)` is recorded.
pub open spec fn pair_key(source: usize, target: usize) -> u128 {
    (source as u128 * 0x1_0000_0000_0000_0000u128 + target as u128) as u128
}

/// Two pairs with one key are one pair.
pub proof fn lemma_pair_key_injective(a: usize, b: usize, c: usize, d: usize)
    requires
        pair_key(a, b) == pair_key(c, d),
    ensures
        a == c,
        b == d,
{
}

/// Hands out the historical markers of a run: node ids, connection
/// innovation numbers and species ids.
///
/// A connection's innovation number belongs to the pair of node ids it joins:
/// whoever asks for the same pair again is given the same number.
pub struct InnovationRecord {
    node_counter: usize,
    connection_counter: usize,
    connection_record: HashMap<u128, usize>,
    species_counter: usize,
}

impl InnovationRecord {
    /// How many node ids are taken: every id below this is in use.
    pub closed spec fn nodes(&self) -> nat {
        self.node_counter as nat
    }

    /// How many innovation numbers are minted: every number below this
    /// belongs to some pair.
    pub closed spec fn connections(&self) -> nat {
        self.connection_counter as nat
    }

    /// How many species ids are taken.
    pub closed spec fn species(&self) -> nat {
        self.species_counter as nat
    }

    /// Whether a connection from node id `source` to node id `target` was
    /// ever asked for.
    pub closed spec fn knows(&self, source: usize, target: usize) -> bool {
        self.connection_record@.contains_key(pair_key(source, target))
    }

    /// The innovation number of the pair, where the ledger knows it.
    pub closed spec fn innovation(&self, source: usize, target: usize) -> usize {
        self.connection_record@[pair_key(source, target)]
    }

    /// The ledger knows every connection of a fresh network with `inputs`
    /// inputs and `outputs` outputs.
    pub open spec fn knows_initial(&self, inputs: nat, outputs: nat) -> bool {
        forall|i: usize, j: usize|
            i < inputs && inputs <= j < inputs + outputs ==> #[trigger] self.knows(i, j)
    }

    /// No connection from one of the first `inputs` node ids to one of the
    /// `outputs` ids after them has a number yet.
    pub open spec fn unknown_initial(&self, inputs: nat, outputs: nat) -> bool {
        forall|a: usize, b: usize|
            a < inputs && inputs <= b < inputs + outputs ==> !#[trigger] self.knows(a, b)
    }

    /// This ledger holds for every pair that is no connection of a fresh
    /// network with `inputs` inputs and `outputs` outputs what `earlier`
    /// holds for it.
    pub open spec fn same_beyond_initial(
        &self,
        earlier: &InnovationRecord,
        inputs: nat,
        outputs: nat,
    ) -> bool {
        forall|a: usize, b: usize|
            #![trigger self.knows(a, b)]
            #![trigger self.innovation(a, b)]
            !(a < inputs && inputs <= b < inputs + outputs) ==> self.knows(a, b) == earlier.knows(
                a,
                b,
            ) && self.innovation(a, b) == earlier.innovation(a, b)
    }

    /// This ledger is `earlier` after the number of the connection from
    /// `source` to `target` was asked for once: a pair that was known keeps
    /// its number and the counter stays; a pair that was not gets the number
    /// the counter stood at, and the counter goes up by one. No other pair
    /// is touched.
    pub open spec fn asked(&self, earlier: &InnovationRecord, source: usize, target: usize) -> bool {
        &&& self.knows(source, target)
        &&& earlier.knows(source, target) ==> self.innovation(source, target)
            == earlier.innovation(source, target) && self.connections() == earlier.connections()
        &&& !earlier.knows(source, target) ==> self.innovation(source, target)
            == earlier.connections() && self.connections() == earlier.connections() + 1
        &&& forall|s: usize, t: usize|
            #![trigger self.knows(s, t)]
            #![trigger self.innovation(s, t)]
            (s != source || t != target) ==> self.knows(s, t) == earlier.knows(s, t)
                && self.innovation(s, t) == earlier.innovation(s, t)
        &&& self.species() == earlier.species()
    }

    /// This ledger is `earlier` after the numbers of two connections were
    /// asked for: first that from `source` to `between`, then that from
    /// `between` to `target`.
    pub open spec fn asked_twice(
        &self,
        earlier: &InnovationRecord,
        source: usize,
        between: usize,
        target: usize,
    ) -> bool {
        exists|half: InnovationRecord| #[trigger]
            half.asked(earlier, source, between) && self.asked(&half, between, target)
    }

    /// Every recorded number was minted, and no number belongs to two pairs.
    pub open spec fn wf(&self) -> bool {
        &&& forall|s: usize, t: usize| #[trigger]
            self.knows(s, t) ==> self.innovation(s, t) < self.connections()
        &&& forall|s: usize, t: usize, u: usize, v: usize|
            #[trigger] self.knows(s, t) && #[trigger] self.knows(u, v) && self.innovation(s, t)
                == self.innovation(u, v) ==> s == u && t == v
    }

    /// `self` is a later state of `earlier`: no counter went back, and every
    /// pair known then is known now, under the same number.
    pub open spec fn extends(&self, earlier: &InnovationRecord) -> bool {
        &&& earlier.nodes() <= self.nodes()
        &&& earlier.connections() <= self.connections()
        &&& earlier.species() <= self.species()
        &&& forall|s: usize, t: usize| #[trigger]
            earlier.knows(s, t) ==> self.knows(s, t) && self.innovation(s, t)
                == earlier.innovation(s, t)
    }


    /// A state with the same pairs and no fewer minted numbers is well formed
    /// where the earlier one was.
    proof fn lemma_same_pairs(&self, earlier: &InnovationRecord)
        requires
            earlier.wf(),
            earlier.connection_record@ == self.connection_record@,
            earlier.connection_counter <= self.connection_counter,
        ensures
            self.wf(),
    {
        assert forall|s: usize, t: usize| #[trigger] self.knows(s, t) implies self.innovation(s, t)
            < self.connections() by {
            assert(earlier.knows(s, t));
        }
        assert forall|s: usize, t: usize, u: usize, v: usize|
            #[trigger] self.knows(s, t) && #[trigger] self.knows(u, v) && self.innovation(s, t)
                == self.innovation(u, v) implies s == u && t == v by {
            assert(earlier.knows(s, t) && earlier.knows(u, v));
        }
    }

    /// Recording a pair that was unknown, under the next number, keeps the
    /// ledger well formed.
    proof fn lemma_minted(&self, earlier: &InnovationRecord, source: usize, target: usize)
        requires
            earlier.wf(),
            !earlier.knows(source, target),
            self.connection_record@ == earlier.connection_record@.insert(
                pair_key(source, target),
                earlier.connection_counter,
            ),
            self.connection_counter == earlier.connection_counter + 1,
        ensures
            self.wf(),
    {
        assert forall|s: usize, t: usize| #[trigger] self.knows(s, t) implies self.innovation(s, t)
            < self.connections() by {
            if pair_key(s, t) != pair_key(source, target) {
                assert(earlier.knows(s, t));
            }
        }
        assert forall|s: usize, t: usize, u: usize, v: usize|
            #[trigger] self.knows(s, t) && #[trigger] self.knows(u, v) && self.innovation(s, t)
                == self.innovation(u, v) implies s == u && t == v by {
            let k = pair_key(source, target);
            if pair_key(s, t) == k && pair_key(u, v) == k {
                lemma_pair_key_injective(s, t, source, target);
                lemma_pair_key_injective(u, v, source, target);
            } else if pair_key(s, t) == k {
                assert(earlier.knows(u, v));
            } else if pair_key(u, v) == k {
                assert(earlier.knows(s, t));
            } else {
                assert(earlier.knows(s, t) && earlier.knows(u, v));
            }
        }
    }

    /// A later state of a later state is a later state.
    pub proof fn lemma_extends_transitive(
        &self,
        middle: &InnovationRecord,
        earlier: &InnovationRecord,
    )
        requires
            self.extends(middle),
            middle.extends(earlier),
        ensures
            self.extends(earlier),
    {
        assert forall|s: usize, t: usize| #[trigger] earlier.knows(s, t) implies self.knows(s, t)
            && self.innovation(s, t) == earlier.innovation(s, t) by {
            assert(middle.knows(s, t));
        }
    }

    /// A ledger for networks with `input_number` inputs and `output_number`
    /// outputs. The ids `0 .. input_number + output_number + 1` are set aside
    /// for the input, output and bias nodes, which every network shares.
    pub fn new(input_number: usize, output_number: usize) -> (ledger: Self)
        requires
            input_number + output_number + 1 <= usize::MAX,
        ensures
            ledger.wf(),
            ledger.nodes() == input_number + output_number + 1,
            ledger.connections() == 0,
            ledger.species() == 0,
            forall|s: usize, t: usize| !ledger.knows(s, t),
    {
        Self {
            node_counter: input_number + output_number + 1,
            connection_counter: 0,
            connection_record: HashMap::new(),
            species_counter: 0,
        }
    }

    /// The node id that will be handed out next.
    pub fn node_counter(&self) -> (n: usize)
        ensures
            n == self.nodes(),
    {
        self.node_counter
    }

    /// The innovation number that will be minted next.
    pub fn connection_counter(&self) -> (n: usize)
        ensures
            n == self.connections(),
    {
        self.connection_counter
    }

    /// The species id that will be handed out next.
    pub fn species_counter(&self) -> (n: usize)
        ensures
            n == self.species(),
    {
        self.species_counter
    }

    /// A node id that was never handed out before.
    pub fn new_node(&mut self) -> (id: usize)
        requires
            old(self).nodes() < usize::MAX,
        ensures
            id == old(self).nodes(),
            final(self).nodes() == old(self).nodes() + 1,
            final(self).connections() == old(self).connections(),
            final(self).species() == old(self).species(),
            forall|s: usize, t: usize|
                final(self).knows(s, t) == old(self).knows(s, t) && final(self).innovation(s, t)
                    == old(self).innovation(s, t),
            final(self).extends(old(self)),
            old(self).wf() ==> final(self).wf(),
    {
        self.node_counter += 1;
        proof {
            if old(self).wf() {
                self.lemma_same_pairs(old(self));
            }
        }
        self.node_counter - 1
    }

    /// The innovation number of the connection from node id `source` to node
    /// id `target`: the recorded one where the pair is known, else a fresh
    /// one, which is recorded.
    pub fn new_connection(&mut self, source: usize, target: usize) -> (innov: usize)
        requires
            old(self).knows(source, target) || old(self).connections() < usize::MAX,
        ensures
            final(self).knows(source, target),
            final(self).innovation(source, target) == innov,
            final(self).asked(old(self), source, target),
            old(self).knows(source, target) ==> innov == old(self).innovation(source, target)
                && final(self).connections() == old(self).connections(),
            !old(self).knows(source, target) ==> innov == old(self).connections()
                && final(self).connections() == old(self).connections() + 1,
            forall|s: usize, t: usize|
                (s != source || t != target) ==> final(self).knows(s, t) == old(self).knows(s, t)
                    && final(self).innovation(s, t) == old(self).innovation(s, t),
            final(self).nodes() == old(self).nodes(),
            final(self).species() == old(self).species(),
            final(self).extends(old(self)),
            old(self).wf() ==> final(self).wf(),
    {
        let key: u128 = (source as u128) * 0x1_0000_0000_0000_0000u128 + (target as u128);
        proof {
            assert forall|s: usize, t: usize| (s != source || t != target) implies pair_key(s, t)
                != key by {
                if pair_key(s, t) == key {
                    lemma_pair_key_injective(s, t, source, target);
                }
            }
        }
        let found = match self.connection_record.get(&key) {
            Some(n) => Some(*n),
            None => None,
        };
        match found {
            Some(n) => {
                proof {
                    if old(self).wf() {
                        self.lemma_same_pairs(old(self));
                    }
                }
                n
            },
            None => {
                let innov = self.connection_counter;
                self.connection_record.insert(key, innov);
                self.connection_counter += 1;
                proof {
                    if old(self).wf() {
                        self.lemma_minted(old(self), source, target);
                    }
                }
                innov
            },
        }
    }

    /// A species id that was never handed out before.
    pub fn new_species(&mut self) -> (id: usize)
        requires
            old(self).species() < usize::MAX,
        ensures
            id == old(self).species(),
            final(self).species() == old(self).species() + 1,
            final(self).nodes() == old(self).nodes(),
            final(self).connections() == old(self).connections(),
            forall|s: usize, t: usize|
                final(self).knows(s, t) == old(self).knows(s, t) && final(self).innovation(s, t)
                    == old(self).innovation(s, t),
            final(self).extends(old(self)),
            old(self).wf() ==> final(self).wf(),
    {
        self.species_counter += 1;
        proof {
            if old(self).wf() {
                self.lemma_same_pairs(old(self));
            }
        }
        self.species_counter - 1
    }
}

} // verus!
