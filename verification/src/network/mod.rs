//! Networks: a genome together with a fitness and the rules by which it may
//! change.
use vstd::prelude::*;
use std::cmp::Ordering;
use rand::rngs::StdRng;
use crate::activations::ActivationKind;
use crate::edge_data::EdgeData;
use crate::innovation_record::InnovationRecord;
use crate::node_kind::NodeKind;
use crate::scalar::{sum_of, Arithmetic, Scalar};
use self::activation::answered;
use self::crossover::inherits;
use self::network_graph::{default_nodes, initial_links, same_wiring, split_links, NetworkGraph};
use self::paths::{cyclic, linked};
use self::removal::{bridges_asked, entering, leaving, without_node};
use self::store::{swap_removed, Link};

pub mod activation;
pub mod alignment;
pub mod assembly;
pub mod crossover;
pub mod feedforward;
pub mod heredity;
pub mod network_graph;
pub mod paths;
pub mod removal;
pub mod store;

verus! {

/// How two fitness values compare: a network without fitness comes before
/// every network with one; two values compare as numbers; and a value that
/// is not a number compares with nothing.
pub open spec fn fitness_order(a: Option<Scalar>, b: Option<Scalar>) -> Option<Ordering> {
    match (a, b) {
        (None, None) => Some(Ordering::Equal),
        (None, Some(_)) => Some(Ordering::Less),
        (Some(_), None) => Some(Ordering::Greater),
        (Some(x), Some(y)) => if x.below(y) {
            Some(Ordering::Less)
        } else if y.below(x) {
            Some(Ordering::Greater)
        } else if x.at_most(y) {
            Some(Ordering::Equal)
        } else {
            None
        },
    }
}

/// Whether a feedforward network may get a connection from node `source` to
/// node `target`: both are nodes of the graph and differ, the first is no
/// output, the second neither an input nor the bias, and no connection leads
/// from the first to the second yet.
pub open spec fn allowed(graph: &NetworkGraph, source: usize, target: usize) -> bool {
    &&& source < graph.nodes().len()
    &&& target < graph.nodes().len()
    &&& source != target
    &&& graph.nodes()[source as int].kind != NodeKind::Output
    &&& graph.nodes()[target as int].kind != NodeKind::Input
    &&& graph.nodes()[target as int].kind != NodeKind::Bias
    &&& !linked(graph.links(), source as int, target as int)
}

/// The connections of `graph` with one more from `source` to `target`, of
/// the given weight, under the number that `ledger` holds for the two ids.
pub open spec fn connected(
    graph: &NetworkGraph,
    source: usize,
    target: usize,
    weight: Scalar,
    ledger: &InnovationRecord,
) -> Seq<Link> {
    graph.links().push(
        Link {
            source: source as int,
            target: target as int,
            data: EdgeData {
                weight,
                disabled: false,
                innov_number: ledger.innovation(
                    graph.nodes()[source as int].id,
                    graph.nodes()[target as int].id,
                ),
            },
        },
    )
}

/// `link` with the weight `weight`.
pub open spec fn reweighed(link: Link, weight: Scalar) -> Link {
    Link { data: EdgeData { weight, ..link.data }, ..link }
}

/// `link` switched off where it is on, and on where it is off.
pub open spec fn toggled(link: Link) -> Link {
    Link { data: EdgeData { disabled: !link.data.disabled, ..link.data }, ..link }
}

/// `after` is `before` with the weight of the connection at `index`
/// perturbed: `ops` adds `delta` to the weight, and the sum is brought into
/// `[min, max]`.
pub open spec fn perturbed<A: Arithmetic>(
    ops: &A,
    before: Seq<Link>,
    after: Seq<Link>,
    index: int,
    delta: Scalar,
    min: Scalar,
    max: Scalar,
) -> bool {
    exists|sum: Scalar| #[trigger]
        sum_of(ops, before[index].data.weight, delta, sum) && after == before.update(
            index,
            reweighed(before[index], sum.clamped(min, max)),
        )
}

/// `weight` lies where clamping to `[low, high]` can leave a number.
pub open spec fn clamped(weight: Scalar, low: Scalar, high: Scalar) -> bool {
    weight == low || weight == high || (!weight.below(low) && !high.below(weight))
}

/// `ledger` is a later state of `earlier` in which no node or species id was
/// handed out, and which is well formed where `earlier` was.
pub open spec fn numbered_on(ledger: &InnovationRecord, earlier: &InnovationRecord) -> bool {
    &&& ledger.extends(earlier)
    &&& ledger.nodes() == earlier.nodes()
    &&& ledger.species() == earlier.species()
    &&& earlier.wf() ==> ledger.wf()
}

/// A network that a population can hold and evolve.
pub trait Network: Sized {
    /// The genome that the network wraps.
    spec fn genome(&self) -> NetworkGraph;

    /// The fitness that the network was given, if any.
    spec fn rating(&self) -> Option<Scalar>;

    /// The squashing function of the hidden nodes.
    spec fn hidden_kind(&self) -> ActivationKind;

    /// The squashing function of the output nodes.
    spec fn output_kind(&self) -> ActivationKind;

    /// A network on a fresh genome, without fitness.
    fn new(
        input_number: usize,
        output_number: usize,
        hidden_func: ActivationKind,
        output_func: ActivationKind,
        innov_record: &mut InnovationRecord,
    ) -> (network: Self)
        requires
            input_number + output_number + 1 <= u32::MAX,
            input_number * output_number <= u32::MAX,
            old(innov_record).knows_initial(input_number as nat, output_number as nat) || old(innov_record).connections() + input_number * output_number <= usize::MAX,
        ensures
            final(innov_record).knows_initial(input_number as nat, output_number as nat),
            old(innov_record).knows_initial(input_number as nat, output_number as nat) ==> final(innov_record).connections() == old(innov_record).connections(),
            final(innov_record).connections() <= old(innov_record).connections() + input_number
                * output_number,
            final(innov_record).same_beyond_initial(
                old(innov_record),
                input_number as nat,
                output_number as nat,
            ),
            old(innov_record).unknown_initial(input_number as nat, output_number as nat) ==> {
                &&& final(innov_record).connections() == old(innov_record).connections()
                    + input_number * output_number
                &&& forall|e: int|
                    0 <= e < input_number * output_number ==> (#[trigger] network.genome().links()[e]).data.innov_number
                        == old(innov_record).connections() + e
            },
            network.rating() is None,
            network.hidden_kind() == hidden_func,
            network.output_kind() == output_func,
            network.genome().wf(),
            network.genome().acyclic(),
            network.genome().inputs() == input_number,
            network.genome().outputs() == output_number,
            network.genome().nodes() == default_nodes(input_number as nat, output_number as nat),
            network.genome().links() == initial_links(
                input_number as nat,
                output_number as nat,
                *final(innov_record),
            ),
            numbered_on(final(innov_record), old(innov_record)),
            old(innov_record).nodes() >= input_number + output_number + 1
                ==> network.genome().registered(final(innov_record)),
    ;

    /// A network on the given genome, without fitness.
    fn from_graph(graph: NetworkGraph, hidden_func: ActivationKind, output_func: ActivationKind) -> (network:
        Self)
        ensures
            network.genome() == graph,
            network.rating() is None,
            network.hidden_kind() == hidden_func,
            network.output_kind() == output_func,
    ;

    /// A copy of the network: the same nodes and connections, the same
    /// fitness.
    fn duplicate(&self) -> (copy: Self)
        ensures
            copy.genome().nodes() == self.genome().nodes(),
            copy.genome().links() == self.genome().links(),
            copy.genome().inputs() == self.genome().inputs(),
            copy.genome().outputs() == self.genome().outputs(),
            copy.genome().cached() is None,
            copy.rating() == self.rating(),
            copy.hidden_kind() == self.hidden_kind(),
            copy.output_kind() == self.output_kind(),
    ;

    /// Feeds `inputs` to the input nodes and one to the bias, lets the nodes
    /// fire in topological order, and returns what the output nodes report:
    /// see [`answered`]. Returns nothing where `inputs` has not one value for
    /// each input node. An output that nothing reached reports zero. The
    /// genome is left as it was found. `ops` does the arithmetic.
    fn activate<A: Arithmetic>(&mut self, inputs: &[Scalar], ops: &A) -> (outputs: Option<
        Vec<Scalar>,
    >)
        requires
            old(self).genome().wf(),
        ensures
            outputs is None <==> inputs@.len() != old(self).genome().inputs(),
            outputs matches Some(v) ==> v@.len() == old(self).genome().outputs(),
            outputs matches Some(v) ==> forall|k: int|
                0 <= k < old(self).genome().outputs() && !old(self).genome().lit(
                    old(self).genome().inputs() + k,
                ) ==> #[trigger] v@[k] == Scalar::zero(),
            outputs matches Some(v) ==> answered(
                ops,
                old(self).genome(),
                old(self).hidden_kind(),
                old(self).output_kind(),
                inputs@,
                v@,
            ),
            final(self).genome().wf(),
            final(self).genome().nodes() == old(self).genome().nodes(),
            final(self).genome().links() == old(self).genome().links(),
            final(self).genome().inputs() == old(self).genome().inputs(),
            final(self).genome().outputs() == old(self).genome().outputs(),
            final(self).rating() == old(self).rating(),
            final(self).hidden_kind() == old(self).hidden_kind(),
            final(self).output_kind() == old(self).output_kind(),
    ;

    fn graph(&self) -> (graph: &NetworkGraph)
        ensures
            *graph == self.genome(),
    ;

    fn graph_mut(&mut self) -> (graph: &mut NetworkGraph)
        ensures
            *graph == old(self).genome(),
            final(self).genome() == *final(graph),
            final(self).rating() == old(self).rating(),
            final(self).hidden_kind() == old(self).hidden_kind(),
            final(self).output_kind() == old(self).output_kind(),
    ;

    /// Joins node `source` to node `target` by a new connection, where a
    /// feedforward network may have it: where it is [`allowed`] and closes no
    /// cycle. Returns whether the connection was added; where it was not, no
    /// node and no connection has changed.
    fn mutate_add_connection(
        &mut self,
        source: usize,
        target: usize,
        weight: Scalar,
        innov_record: &mut InnovationRecord,
    ) -> (applied: bool)
        requires
            old(self).genome().shaped(),
            old(self).genome().links().len() < u32::MAX,
            old(innov_record).connections() < usize::MAX,
        ensures
            applied <==> allowed(&old(self).genome(), source, target) && !cyclic(
                connected(&old(self).genome(), source, target, weight, final(innov_record)),
            ),
            final(self).genome().links() == if applied {
                connected(&old(self).genome(), source, target, weight, final(innov_record))
            } else {
                old(self).genome().links()
            },
            final(self).genome().nodes() == old(self).genome().nodes(),
            final(self).genome().inputs() == old(self).genome().inputs(),
            final(self).genome().outputs() == old(self).genome().outputs(),
            final(self).genome().shaped(),
            old(self).genome().acyclic() ==> final(self).genome().acyclic(),
            final(self).rating() == old(self).rating(),
            final(self).hidden_kind() == old(self).hidden_kind(),
            final(self).output_kind() == old(self).output_kind(),
            numbered_on(final(innov_record), old(innov_record)),
            final(innov_record).connections() <= old(innov_record).connections() + 1,
            allowed(&old(self).genome(), source, target) ==> final(innov_record).asked(
                old(innov_record),
                old(self).genome().nodes()[source as int].id,
                old(self).genome().nodes()[target as int].id,
            ),
            !allowed(&old(self).genome(), source, target) ==> *final(innov_record) == *old(
                innov_record,
            ),
            old(self).genome().registered(old(innov_record)) ==> final(self).genome().registered(
                final(innov_record),
            ),
    ;

    /// Takes the connection at `index` out; the last connection takes over
    /// its index. Returns whether there was such a connection.
    fn mutate_remove_connection(&mut self, index: usize) -> (applied: bool)
        requires
            old(self).genome().shaped(),
        ensures
            applied == (index < old(self).genome().links().len()),
            final(self).genome().links() == if applied {
                swap_removed(old(self).genome().links(), index as int)
            } else {
                old(self).genome().links()
            },
            final(self).genome().nodes() == old(self).genome().nodes(),
            final(self).genome().inputs() == old(self).genome().inputs(),
            final(self).genome().outputs() == old(self).genome().outputs(),
            final(self).genome().shaped(),
            old(self).genome().acyclic() ==> final(self).genome().acyclic(),
            final(self).rating() == old(self).rating(),
            final(self).hidden_kind() == old(self).hidden_kind(),
            final(self).output_kind() == old(self).output_kind(),
            forall|ledger: InnovationRecord| #[trigger]
                old(self).genome().registered(&ledger) ==> final(self).genome().registered(&ledger),
    {
        let graph = self.graph_mut();
        let applied = index < graph.edge_count();
        graph.remove_connetion(index);
        applied
    }

    /// Switches the connection at `index` off where it is on, and on where
    /// it is off. Returns whether there was such a connection.
    fn mutate_toggle_connection(&mut self, index: usize) -> (applied: bool)
        requires
            old(self).genome().shaped(),
        ensures
            applied == (index < old(self).genome().links().len()),
            final(self).genome().links() == if applied {
                old(self).genome().links().update(
                    index as int,
                    Link {
                        data: EdgeData {
                            disabled: !old(self).genome().links()[index as int].data.disabled,
                            ..old(self).genome().links()[index as int].data
                        },
                        ..old(self).genome().links()[index as int]
                    },
                )
            } else {
                old(self).genome().links()
            },
            final(self).genome().nodes() == old(self).genome().nodes(),
            final(self).genome().inputs() == old(self).genome().inputs(),
            final(self).genome().outputs() == old(self).genome().outputs(),
            final(self).genome().shaped(),
            old(self).genome().acyclic() ==> final(self).genome().acyclic(),
            final(self).rating() == old(self).rating(),
            final(self).hidden_kind() == old(self).hidden_kind(),
            final(self).output_kind() == old(self).output_kind(),
            forall|ledger: InnovationRecord| #[trigger]
                old(self).genome().registered(&ledger) ==> final(self).genome().registered(&ledger),
    {
        let graph = self.graph_mut();
        if index >= graph.edge_count() {
            return false;
        }
        let ghost before = *graph;
        let edge = graph.edge_mut(index);
        let disabled = edge.is_disabled();
        edge.set_disabled(!disabled);
        proof {
            before.lemma_rewired(graph);
        }
        true
    }

    /// Splits the connection at `index` by a new hidden node. Returns whether
    /// there was such a connection.
    fn mutate_add_node(&mut self, index: usize, innov_record: &mut InnovationRecord) -> (applied:
        bool)
        requires
            old(self).genome().shaped(),
            old(self).genome().nodes().len() < u32::MAX,
            old(self).genome().links().len() + 2 <= u32::MAX,
            old(innov_record).nodes() < usize::MAX,
            old(innov_record).connections() + 2 <= usize::MAX,
        ensures
            applied == (index < old(self).genome().links().len()),
            applied ==> final(self).genome().nodes() == old(self).genome().nodes().push(
                crate::node_data::NodeData {
                    kind: NodeKind::Hidden,
                    id: old(innov_record).nodes() as usize,
                    input_sum: Scalar::zero(),
                    activated: false,
                },
            ) && final(self).genome().links() == split_links(
                old(self).genome().links(),
                index as int,
                old(self).genome().nodes().len() as int,
                final(innov_record).innovation(
                    old(self).genome().source_id(index as int),
                    old(innov_record).nodes() as usize,
                ),
                final(innov_record).innovation(
                    old(innov_record).nodes() as usize,
                    old(self).genome().target_id(index as int),
                ),
            ) && final(innov_record).nodes() == old(innov_record).nodes() + 1
                && final(innov_record).asked_twice(
                old(innov_record),
                old(self).genome().source_id(index as int),
                old(innov_record).nodes() as usize,
                old(self).genome().target_id(index as int),
            ),
            !applied ==> final(self).genome().nodes() == old(self).genome().nodes() && final(self).genome().links() == old(self).genome().links() && *final(innov_record) == *old(innov_record),
            final(self).genome().inputs() == old(self).genome().inputs(),
            final(self).genome().outputs() == old(self).genome().outputs(),
            final(self).genome().shaped(),
            old(self).genome().quiet() ==> final(self).genome().quiet(),
            old(self).genome().acyclic() ==> final(self).genome().acyclic(),
            final(self).rating() == old(self).rating(),
            final(self).hidden_kind() == old(self).hidden_kind(),
            final(self).output_kind() == old(self).output_kind(),
            final(innov_record).extends(old(innov_record)),
            final(innov_record).connections() <= old(innov_record).connections() + 2,
            final(innov_record).species() == old(innov_record).species(),
            old(innov_record).wf() ==> final(innov_record).wf(),
            old(self).genome().registered(old(innov_record)) ==> final(self).genome().registered(
                final(innov_record),
            ),
    {
        let graph = self.graph_mut();
        if index >= graph.edge_count() {
            return false;
        }
        graph.add_node(index, innov_record);
        true
    }

    /// Takes the node at `index` out where it is a hidden node, bridging the
    /// ways through it. Returns whether it was one.
    fn mutate_remove_node(&mut self, index: usize, innov_record: &mut InnovationRecord) -> (applied:
        bool)
        requires
            old(self).genome().shaped(),
            old(self).genome().links().len() + entering(
                old(self).genome().links(),
                index as int,
                old(self).genome().links().len(),
            ).len() * leaving(
                old(self).genome().links(),
                index as int,
                old(self).genome().links().len(),
            ).len() <= u32::MAX,
            old(innov_record).connections() + entering(
                old(self).genome().links(),
                index as int,
                old(self).genome().links().len(),
            ).len() * leaving(
                old(self).genome().links(),
                index as int,
                old(self).genome().links().len(),
            ).len() <= usize::MAX,
        ensures
            applied == (index < old(self).genome().nodes().len() && old(self).genome().nodes()[index as int].kind == NodeKind::Hidden),
            applied ==> final(self).genome().nodes() == swap_removed(
                old(self).genome().nodes(),
                index as int,
            ) && final(self).genome().links() == without_node(
                old(self).genome().nodes(),
                old(self).genome().links(),
                index as int,
                *final(innov_record),
            ) && bridges_asked(
                *old(innov_record),
                *final(innov_record),
                old(self).genome().nodes(),
                old(self).genome().links(),
                index as int,
                entering(
                    old(self).genome().links(),
                    index as int,
                    old(self).genome().links().len(),
                ).len() * leaving(
                    old(self).genome().links(),
                    index as int,
                    old(self).genome().links().len(),
                ).len(),
            ),
            !applied ==> final(self).genome().nodes() == old(self).genome().nodes() && final(self).genome().links() == old(self).genome().links() && *final(innov_record) == *old(innov_record),
            final(self).genome().inputs() == old(self).genome().inputs(),
            final(self).genome().outputs() == old(self).genome().outputs(),
            final(self).genome().shaped(),
            old(self).genome().quiet() ==> final(self).genome().quiet(),
            old(self).genome().acyclic() ==> final(self).genome().acyclic(),
            final(self).rating() == old(self).rating(),
            final(self).hidden_kind() == old(self).hidden_kind(),
            final(self).output_kind() == old(self).output_kind(),
            numbered_on(final(innov_record), old(innov_record)),
            final(innov_record).connections() <= old(innov_record).connections() + entering(
                old(self).genome().links(),
                index as int,
                old(self).genome().links().len(),
            ).len() * leaving(
                old(self).genome().links(),
                index as int,
                old(self).genome().links().len(),
            ).len(),
            old(self).genome().registered(old(innov_record)) ==> final(self).genome().registered(
                final(innov_record),
            ),
    {
        let graph = self.graph_mut();
        if index >= graph.node_count() {
            return false;
        }
        if graph.node(index).kind() == NodeKind::Hidden {
            graph.remove_node(index, innov_record);
            true
        } else {
            false
        }
    }

    /// Gives the connection at `index` the weight `weight`. Returns whether
    /// there was such a connection.
    fn mutate_assign_weight(&mut self, index: usize, weight: Scalar) -> (applied: bool)
        requires
            old(self).genome().shaped(),
        ensures
            applied == (index < old(self).genome().links().len()),
            final(self).genome().links() == if applied {
                old(self).genome().links().update(
                    index as int,
                    Link {
                        data: EdgeData { weight, ..old(self).genome().links()[index as int].data },
                        ..old(self).genome().links()[index as int]
                    },
                )
            } else {
                old(self).genome().links()
            },
            final(self).genome().nodes() == old(self).genome().nodes(),
            final(self).genome().inputs() == old(self).genome().inputs(),
            final(self).genome().outputs() == old(self).genome().outputs(),
            final(self).genome().shaped(),
            old(self).genome().acyclic() ==> final(self).genome().acyclic(),
            final(self).rating() == old(self).rating(),
            final(self).hidden_kind() == old(self).hidden_kind(),
            final(self).output_kind() == old(self).output_kind(),
            forall|ledger: InnovationRecord| #[trigger]
                old(self).genome().registered(&ledger) ==> final(self).genome().registered(&ledger),
    {
        let graph = self.graph_mut();
        if index >= graph.edge_count() {
            return false;
        }
        let ghost before = *graph;
        let edge = graph.edge_mut(index);
        edge.set_weight(weight);
        proof {
            before.lemma_rewired(graph);
        }
        true
    }

    /// Adds `delta` to the weight of the connection at `index` and brings
    /// the sum into `[min, max]`. Returns whether there was such a
    /// connection. `ops` does the sum.
    fn mutate_perturb_weight<A: Arithmetic>(
        &mut self,
        index: usize,
        delta: Scalar,
        min: Scalar,
        max: Scalar,
        ops: &A,
    ) -> (applied: bool)
        requires
            old(self).genome().shaped(),
        ensures
            applied == (index < old(self).genome().links().len()),
            applied ==> perturbed(
                ops,
                old(self).genome().links(),
                final(self).genome().links(),
                index as int,
                delta,
                min,
                max,
            ),
            applied ==> same_wiring(old(self).genome().links(), final(self).genome().links())
                && clamped(final(self).genome().links()[index as int].data.weight, min, max)
                && forall|e: int|
                0 <= e < old(self).genome().links().len() && e != index ==> #[trigger] final(self).genome().links()[e] == old(self).genome().links()[e],
            !applied ==> final(self).genome().links() == old(self).genome().links(),
            final(self).genome().nodes() == old(self).genome().nodes(),
            final(self).genome().inputs() == old(self).genome().inputs(),
            final(self).genome().outputs() == old(self).genome().outputs(),
            final(self).genome().shaped(),
            old(self).genome().acyclic() ==> final(self).genome().acyclic(),
            final(self).rating() == old(self).rating(),
            final(self).hidden_kind() == old(self).hidden_kind(),
            final(self).output_kind() == old(self).output_kind(),
            forall|ledger: InnovationRecord| #[trigger]
                old(self).genome().registered(&ledger) ==> final(self).genome().registered(&ledger),
    {
        let graph = self.graph_mut();
        if index >= graph.edge_count() {
            return false;
        }
        let ghost before = *graph;
        let edge = graph.edge_mut(index);
        let sum = ops.plus(edge.get_weight(), delta);
        let weight = sum.clamp(min, max);
        edge.set_weight(weight);
        proof {
            before.lemma_rewired(graph);
            assert(sum_of(ops, before.links()[index as int].data.weight, delta, sum)
                && graph.links() == before.links().update(
                index as int,
                reweighed(before.links()[index as int], sum.clamped(min, max)),
            ));
        }
        true
    }

    /// A child of this network and `other`, without fitness and with the
    /// given squashing functions: the child of their genomes, where this
    /// network counts as the fitter parent unless its fitness is below that
    /// of `other`. Both parents have a fitness. There is no child where they
    /// differ in their numbers of inputs or outputs.
    fn crossover(
        &self,
        other: &Self,
        hidden_func: ActivationKind,
        output_func: ActivationKind,
        rng: &mut StdRng,
    ) -> (child: Option<Self>)
        requires
            self.rating() is Some,
            other.rating() is Some,
            self.genome().shaped(),
            other.genome().shaped(),
            self.genome().inputs() + self.genome().outputs() + 1 + 2 * self.genome().links().len()
                <= u32::MAX,
            other.genome().inputs() + other.genome().outputs() + 1 + 2
                * other.genome().links().len() <= u32::MAX,
        ensures
            child is None <==> self.genome().inputs() != other.genome().inputs()
                || self.genome().outputs() != other.genome().outputs(),
            child matches Some(c) ==> c.rating() is None && c.hidden_kind() == hidden_func
                && c.output_kind() == output_func && c.genome().shaped() && (
            self.genome().quiet() && other.genome().quiet() ==> c.genome().quiet()) && (exists|
                picks: Seq<bool>,
            | #[trigger]
                self.genome().begets(
                    &other.genome(),
                    other.rating().unwrap().at_most(self.rating().unwrap()),
                    picks,
                    &c.genome(),
                )) && inherits(
                &self.genome(),
                &other.genome(),
                other.rating().unwrap().at_most(self.rating().unwrap()),
                &c.genome(),
            ),
    {
        let my_fitness = self.fitness().unwrap();
        let other_fitness = other.fitness().unwrap();
        let more_fit = other_fitness.le(my_fitness);
        match self.graph().crossover(other.graph(), more_fit, rng) {
            Some(new_graph) => Some(Self::from_graph(new_graph, hidden_func, output_func)),
            None => None,
        }
    }

    /// Gives the network the fitness `fitness`.
    fn evaluate(&mut self, fitness: Scalar)
        ensures
            final(self).rating() == Some(fitness),
            final(self).genome() == old(self).genome(),
            final(self).hidden_kind() == old(self).hidden_kind(),
            final(self).output_kind() == old(self).output_kind(),
    ;

    fn fitness(&self) -> (fitness: Option<Scalar>)
        ensures
            fitness == self.rating(),
    ;

    /// Orders two networks by fitness: see [`fitness_order`].
    fn compare(&self, other: &Self) -> (order: Option<Ordering>)
        ensures
            order == fitness_order(self.rating(), other.rating()),
    {
        match (self.fitness(), other.fitness()) {
            (None, None) => Some(Ordering::Equal),
            (None, Some(_)) => Some(Ordering::Less),
            (Some(_), None) => Some(Ordering::Greater),
            (Some(a), Some(b)) => {
                if a.lt(b) {
                    Some(Ordering::Less)
                } else if b.lt(a) {
                    Some(Ordering::Greater)
                } else if a.le(b) {
                    Some(Ordering::Equal)
                } else {
                    None
                }
            },
        }
    }
}

} // verus!
