//! The feedforward network.
use vstd::prelude::*;
use crate::activations::ActivationKind;
use crate::innovation_record::InnovationRecord;
use crate::network::activation::{answered, carries, loaded, ran, reported, same_build, sparked};
use crate::network::network_graph::{kind_at, NetworkGraph};
use crate::node_kind::NodeKind;
use crate::network::Network;
use crate::scalar::{Arithmetic, Scalar};

verus! {

/// A genome that is activated from its inputs to its outputs, together with
/// the fitness it was last given and the squashing functions of its hidden
/// and output nodes.
#[derive(Debug)]
pub struct Feedforward {
    pub(crate) graph: NetworkGraph,
    pub(crate) fitness: Option<Scalar>,
    pub(crate) hidden_func: ActivationKind,
    pub(crate) output_func: ActivationKind,
}

impl Clone for Feedforward {
    /// A copy: the same nodes and connections, the same fitness, the same
    /// squashing functions.
    fn clone(&self) -> (copy: Self)
        ensures
            copy.genome().nodes() == self.genome().nodes(),
            copy.genome().links() == self.genome().links(),
            copy.genome().inputs() == self.genome().inputs(),
            copy.genome().outputs() == self.genome().outputs(),
            copy.genome().cached() is None,
            copy.rating() == self.rating(),
            copy.hidden_kind() == self.hidden_kind(),
            copy.output_kind() == self.output_kind(),
    {
        Self {
            graph: self.graph.clone(),
            fitness: self.fitness,
            hidden_func: self.hidden_func,
            output_func: self.output_func,
        }
    }
}

impl Network for Feedforward {
    closed spec fn genome(&self) -> NetworkGraph {
        self.graph
    }

    closed spec fn rating(&self) -> Option<Scalar> {
        self.fitness
    }

    closed spec fn hidden_kind(&self) -> ActivationKind {
        self.hidden_func
    }

    closed spec fn output_kind(&self) -> ActivationKind {
        self.output_func
    }

    fn new(
        input_number: usize,
        output_number: usize,
        hidden_func: ActivationKind,
        output_func: ActivationKind,
        innov_record: &mut InnovationRecord,
    ) -> (network: Self) {
        Self {
            graph: NetworkGraph::new(input_number, output_number, innov_record),
            fitness: None,
            hidden_func,
            output_func,
        }
    }

    fn from_graph(graph: NetworkGraph, hidden_func: ActivationKind, output_func: ActivationKind) -> (network:
        Self) {
        Self { graph, fitness: None, hidden_func, output_func }
    }

    fn duplicate(&self) -> (copy: Self) {
        self.clone()
    }

    fn activate<A: Arithmetic>(&mut self, inputs: &[Scalar], ops: &A) -> (outputs: Option<
        Vec<Scalar>,
    >) {
        let input_number = self.graph.input_number();
        if inputs.len() != input_number {
            return None;
        }
        let ghost calm = old(self).graph.nodes();
        let mut i: usize = 0;
        while i < input_number
            invariant
                i <= input_number,
                input_number == inputs@.len(),
                input_number == old(self).graph.inputs(),
                calm == old(self).graph.nodes(),
                self.graph.shaped(),
                same_build(&old(self).graph, &self.graph),
                self.fitness == old(self).fitness,
                self.hidden_func == old(self).hidden_func,
                self.output_func == old(self).output_func,
                forall|t: int| i <= t < calm.len() ==> #[trigger] self.graph.nodes()[t] == calm[t],
                forall|t: int|
                    0 <= t < i ==> calm[t].took(ops, inputs@[t], #[trigger] self.graph.nodes()[t]),
            decreases input_number - i,
        {
            let ghost before = self.graph.nodes();
            let node_data = self.graph.node_mut(i);
            node_data.add_input(inputs[i], ops);
            proof {
                assert forall|t: int| 0 <= t < i + 1 implies calm[t].took(
                    ops,
                    inputs@[t],
                    #[trigger] self.graph.nodes()[t],
                ) by {
                    if t < i {
                        assert(self.graph.nodes()[t] == before[t]);
                    }
                }
            }
            i += 1;
        }
        let ghost primed = self.graph.nodes();
        let bias_node = self.graph.bias_node_mut();
        bias_node.add_input(Scalar::one(), ops);
        let ghost fed = self.graph.nodes();
        let ghost links = self.graph.links();
        proof {
            let bias = (old(self).graph.inputs() + old(self).graph.outputs()) as int;
            assert forall|t: int| 0 <= t < inputs@.len() implies calm[t].took(
                ops,
                inputs@[t],
                #[trigger] fed[t],
            ) by {
                assert(fed[t] == primed[t]);
            }
            assert(primed[bias] == calm[bias]);
            assert(loaded(ops, calm, inputs@, bias, fed));
        }
        self.graph.activate_topo(self.hidden_func, self.output_func, ops);
        let result = self.graph.activate_output(self.output_func, ops);
        proof {
            let after = self.graph.nodes();
            assert(ran(ops, links, self.hidden_func, self.output_func, fed, after));
            assert(reported(ops, after, old(self).graph.inputs(), self.output_func, result@));
            assert(answered(
                ops,
                old(self).graph,
                old(self).hidden_func,
                old(self).output_func,
                inputs@,
                result@,
            ));
            let inputs_count = old(self).graph.inputs();
            let outputs_count = old(self).graph.outputs();
            assert forall|k: int|
                0 <= k < outputs_count && !old(self).graph.lit(inputs_count + k) implies #[trigger] result@[k]
                == Scalar::zero() by {
                let t = inputs_count + k;
                assert(fed[t] == calm[t]);
                assert(calm[t].quiet());
                if sparked(fed, links, t) {
                    let s = choose|s: int|
                        0 <= s < fed.len() && (#[trigger] fed[s]).fires() && carries(links, s, t);
                    assert(fed[s].kind == calm[s].kind);
                    if fed[s].kind == NodeKind::Hidden {
                        assert(calm[s].kind == kind_at(inputs_count, outputs_count, s));
                        assert(fed[s] == calm[s]);
                        assert(calm[s].quiet());
                    }
                    assert(old(self).graph.lit(t));
                }
                assert(!self.graph.nodes()[t].activated);
            }
        }
        self.graph.clear_sum();
        proof {
            assert(self.graph.nodes() =~= old(self).graph.nodes());
        }
        Some(result)
    }

    fn graph(&self) -> (graph: &NetworkGraph) {
        &self.graph
    }

    fn graph_mut(&mut self) -> (graph: &mut NetworkGraph) {
        &mut self.graph
    }

    fn mutate_add_connection(
        &mut self,
        source: usize,
        target: usize,
        weight: Scalar,
        innov_record: &mut InnovationRecord,
    ) -> (applied: bool) {
        let count = self.graph.node_count();
        if source >= count || target >= count {
            return false;
        }
        let source_kind = self.graph.node(source).kind();
        let target_kind = self.graph.node(target).kind();
        if source == target || source_kind == NodeKind::Output || target_kind
            == NodeKind::Input || target_kind == NodeKind::Bias
            || self.graph.has_connection(source, target) {
            return false;
        }
        let new_edge_index = self.graph.add_connection(source, target, weight, innov_record);
        if self.graph.has_cycle() {
            self.graph.remove_connetion(new_edge_index);
            proof {
                assert(self.graph.links() =~= old(self).graph.links());
                assert forall|ledger: InnovationRecord| #[trigger]
                    old(self).graph.registered(&ledger) implies self.graph.registered(&ledger) by {}
            }
            return false;
        }
        true
    }

    fn evaluate(&mut self, fitness: Scalar) {
        self.fitness = Some(fitness);
    }

    fn fitness(&self) -> (fitness: Option<Scalar>) {
        self.fitness
    }
}

} // verus!
