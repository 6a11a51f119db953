//! A plain network: inputs, outputs and hidden nodes, without bias and
//! without historical markers.
use vstd::prelude::*;
use petgraph::graph::Graph;
use petgraph::Directed;
use rand::rngs::StdRng;
use crate::edge_data::EdgeData;
use crate::network::network_graph::{same_wiring, switched_off};
use crate::network::paths::bounded;
use crate::network::store;
use crate::network::store::{edge_seq, node_seq, Link};
use crate::node_data::NodeData;
use crate::node_kind::NodeKind;
use crate::scalar::{sampled, Arithmetic, Scalar};

verus! {

/// The node at index `i` of a fresh plain network: an input or an output,
/// under its index as id.
pub open spec fn plain_node(inputs: nat, i: int) -> NodeData {
    NodeData {
        kind: if i < inputs {
            NodeKind::Input
        } else {
            NodeKind::Output
        },
        id: i as usize,
        input_sum: Scalar::zero(),
        activated: false,
    }
}

/// The connection at index `e` of a fresh plain network: from input
/// `e / outputs` to output `e % outputs`, with weight zero.
pub open spec fn plain_link(inputs: nat, outputs: nat, e: int) -> Link {
    Link {
        source: e / (outputs as int),
        target: inputs + e % (outputs as int),
        data: EdgeData { weight: Scalar::zero(), disabled: false, innov_number: 0 },
    }
}

/// A network of inputs, outputs and hidden nodes.
pub struct NetworkInternal {
    graph: Graph<NodeData, EdgeData, Directed, u32>,
    input_number: usize,
    output_number: usize,
}

impl NetworkInternal {
    /// The nodes, by node index.
    pub closed spec fn nodes(&self) -> Seq<NodeData> {
        node_seq(self.graph)
    }

    /// The connections, by edge index.
    pub closed spec fn links(&self) -> Seq<Link> {
        edge_seq(self.graph)
    }

    /// The number of input nodes.
    pub closed spec fn inputs(&self) -> nat {
        self.input_number as nat
    }

    /// The number of output nodes.
    pub closed spec fn outputs(&self) -> nat {
        self.output_number as nat
    }

    /// The network fits its container, and every connection joins two of its
    /// nodes.
    pub open spec fn wf(&self) -> bool {
        &&& self.nodes().len() <= u32::MAX
        &&& self.links().len() <= u32::MAX
        &&& bounded(self.links(), self.nodes().len())
    }

    /// The input nodes, then the output nodes, and one connection of weight
    /// zero from every input to every output.
    pub fn new(input_number: usize, output_number: usize) -> (network: Self)
        requires
            input_number + output_number <= u32::MAX,
            input_number * output_number <= u32::MAX,
        ensures
            network.wf(),
            network.inputs() == input_number,
            network.outputs() == output_number,
            network.nodes() == Seq::new(
                (input_number + output_number) as nat,
                |i: int| plain_node(input_number as nat, i),
            ),
            network.links() == Seq::new(
                (input_number * output_number) as nat,
                |e: int| plain_link(input_number as nat, output_number as nat, e),
            ),
    {
        let mut graph = store::empty_graph();
        let ghost inputs = input_number as nat;
        let ghost outputs = output_number as nat;
        let ghost wanted = Seq::new((inputs + outputs) as nat, |i: int| plain_node(inputs, i));
        let mut n: usize = 0;
        while n < input_number
            invariant
                n <= input_number,
                inputs == input_number,
                outputs == output_number,
                input_number + output_number <= u32::MAX,
                wanted == Seq::new((inputs + outputs) as nat, |i: int| plain_node(inputs, i)),
                node_seq(graph) == wanted.take(n as int),
                edge_seq(graph) == Seq::<Link>::empty(),
            decreases input_number - n,
        {
            store::add_node(&mut graph, NodeData::new(NodeKind::Input, n));
            assert(wanted.take(n as int).push(wanted[n as int]) == wanted.take(n + 1));
            n += 1;
        }
        let mut m: usize = 0;
        while m < output_number
            invariant
                m <= output_number,
                inputs == input_number,
                outputs == output_number,
                input_number + output_number <= u32::MAX,
                wanted == Seq::new((inputs + outputs) as nat, |i: int| plain_node(inputs, i)),
                node_seq(graph) == wanted.take(input_number + m),
                edge_seq(graph) == Seq::<Link>::empty(),
            decreases output_number - m,
        {
            store::add_node(&mut graph, NodeData::new(NodeKind::Output, input_number + m));
            assert(wanted.take(input_number + m).push(wanted[input_number + m]) == wanted.take(
                input_number + m + 1,
            ));
            m += 1;
        }
        assert(wanted.take(input_number + output_number) == wanted);
        let mut i: usize = 0;
        while i < input_number
            invariant
                i <= input_number,
                inputs == input_number,
                outputs == output_number,
                input_number + output_number <= u32::MAX,
                input_number * output_number <= u32::MAX,
                node_seq(graph) == wanted,
                wanted.len() == inputs + outputs,
                edge_seq(graph).len() == i * output_number,
                forall|e: int|
                    0 <= e < edge_seq(graph).len() ==> #[trigger] edge_seq(graph)[e] == plain_link(
                        inputs,
                        outputs,
                        e,
                    ),
            decreases input_number - i,
        {
            let mut j: usize = 0;
            while j < output_number
                invariant
                    i < input_number,
                    j <= output_number,
                    inputs == input_number,
                    outputs == output_number,
                    input_number + output_number <= u32::MAX,
                    input_number * output_number <= u32::MAX,
                    node_seq(graph) == wanted,
                    wanted.len() == inputs + outputs,
                    edge_seq(graph).len() == i * output_number + j,
                    forall|e: int|
                        0 <= e < edge_seq(graph).len() ==> #[trigger] edge_seq(graph)[e]
                            == plain_link(inputs, outputs, e),
                decreases output_number - j,
            {
                proof {
                    assert(i * output_number + j < input_number * output_number) by (nonlinear_arith)
                        requires
                            i < input_number,
                            j < output_number,
                    ;
                    vstd::arithmetic::div_mod::lemma_fundamental_div_mod_converse(
                        i * output_number + j,
                        output_number as int,
                        i as int,
                        j as int,
                    );
                }
                let ghost earlier = edge_seq(graph);
                let edge_data = EdgeData { weight: Scalar::zero(), disabled: false, innov_number: 0 };
                store::add_edge(&mut graph, i, input_number + j, edge_data);
                proof {
                    assert forall|e: int| 0 <= e < edge_seq(graph).len() implies #[trigger] edge_seq(
                        graph,
                    )[e] == plain_link(inputs, outputs, e) by {
                        if e < earlier.len() {
                            assert(edge_seq(graph)[e] == earlier[e]);
                        }
                    }
                }
                j += 1;
            }
            proof {
                assert(i * output_number + output_number == (i + 1) * output_number)
                    by (nonlinear_arith);
            }
            i += 1;
        }
        proof {
            let links = edge_seq(graph);
            assert(links =~= Seq::new(
                (input_number * output_number) as nat,
                |e: int| plain_link(inputs, outputs, e),
            ));
            assert forall|e: int| #![trigger links[e]] 0 <= e < links.len() implies 0
                <= links[e].source < wanted.len() && 0 <= links[e].target < wanted.len() by {
                assert(links[e] == plain_link(inputs, outputs, e));
                assert(outputs > 0) by (nonlinear_arith)
                    requires
                        0 <= e < inputs * outputs,
                ;
                assert(0 <= e / (outputs as int) < inputs) by (nonlinear_arith)
                    requires
                        0 <= e < inputs * outputs,
                        outputs > 0,
                ;
                assert(0 <= e % (outputs as int) < outputs);
            }
        }
        Self { graph, input_number, output_number }
    }

    /// The number of nodes.
    pub fn node_count(&self) -> (n: usize)
        ensures
            n == self.nodes().len(),
    {
        store::node_count(&self.graph)
    }

    /// The number of connections.
    pub fn edge_count(&self) -> (n: usize)
        ensures
            n == self.links().len(),
    {
        store::edge_count(&self.graph)
    }

    /// The node at `index`.
    pub fn node(&self, index: usize) -> (data: NodeData)
        requires
            self.wf(),
            index < self.nodes().len(),
        ensures
            data == self.nodes()[index as int],
    {
        store::node_at(&self.graph, index)
    }

    /// The connection at `index`: where it starts, where it ends, and its
    /// gene.
    pub fn edge(&self, index: usize) -> (link: (usize, usize, EdgeData))
        requires
            index < self.links().len(),
        ensures
            link.0 == self.links()[index as int].source,
            link.1 == self.links()[index as int].target,
            link.2 == self.links()[index as int].data,
    {
        store::link_at(&self.graph, index)
    }

    /// Gives every connection a weight sampled by `ops` from `[-1, 1)`.
    pub fn randomize_weights<A: Arithmetic>(&mut self, ops: &A, rng: &mut StdRng)
        requires
            old(self).wf(),
        ensures
            final(self).wf(),
            same_wiring(old(self).links(), final(self).links()),
            forall|e: int|
                0 <= e < final(self).links().len() ==> sampled(
                    ops,
                    Scalar::one().negated(),
                    Scalar::one(),
                    (#[trigger] final(self).links()[e]).data.weight,
                ),
            final(self).nodes() == old(self).nodes(),
            final(self).inputs() == old(self).inputs(),
            final(self).outputs() == old(self).outputs(),
    {
        let low = Scalar::one().negate();
        let high = Scalar::one();
        let count = store::edge_count(&self.graph);
        let mut i: usize = 0;
        while i < count
            invariant
                i <= count,
                count == old(self).links().len(),
                self.wf(),
                same_wiring(old(self).links(), self.links()),
                low == Scalar::one().negated(),
                high == Scalar::one(),
                forall|e: int|
                    0 <= e < i ==> sampled(ops, low, high, (#[trigger] self.links()[e]).data.weight),
                self.nodes() == old(self).nodes(),
                self.inputs() == old(self).inputs(),
                self.outputs() == old(self).outputs(),
            decreases count - i,
        {
            let ghost before = self.links();
            let weight = ops.uniform(low, high, rng);
            assert(sampled(ops, low, high, weight));
            let edge = store::edge_mut(&mut self.graph, i);
            edge.set_weight(weight);
            proof {
                assert forall|e: int| 0 <= e < i + 1 implies sampled(
                    ops,
                    low,
                    high,
                    (#[trigger] self.links()[e]).data.weight,
                ) by {
                    if e < i {
                        assert(self.links()[e] == before[e]);
                    }
                }
            }
            i += 1;
        }
    }

    /// Splits the connection at `edge` by a new hidden node: the connection
    /// is switched off, and two new ones lead through the new node, the
    /// first with the weight of the old connection and the second with weight
    /// one.
    pub fn add_hidden_node(&mut self, edge: usize)
        requires
            old(self).wf(),
            edge < old(self).links().len(),
            old(self).nodes().len() < u32::MAX,
            old(self).links().len() + 2 <= u32::MAX,
        ensures
            final(self).wf(),
            final(self).inputs() == old(self).inputs(),
            final(self).outputs() == old(self).outputs(),
            final(self).nodes() == old(self).nodes().push(
                (NodeData {
                    kind: NodeKind::Hidden,
                    id: old(self).nodes().len() as usize,
                    input_sum: Scalar::zero(),
                    activated: false,
                }),
            ),
            final(self).links() == old(self).links().update(
                edge as int,
                switched_off(old(self).links()[edge as int]),
            ).push(
                (Link {
                    source: old(self).links()[edge as int].source,
                    target: old(self).nodes().len() as int,
                    data: EdgeData {
                        weight: old(self).links()[edge as int].data.weight,
                        disabled: false,
                        innov_number: 0,
                    },
                }),
            ).push(
                (Link {
                    source: old(self).nodes().len() as int,
                    target: old(self).links()[edge as int].target,
                    data: EdgeData { weight: Scalar::one(), disabled: false, innov_number: 0 },
                }),
            ),
    {
        let link = store::link_at(&self.graph, edge);
        let previous_weight = link.2.get_weight();
        {
            let edge_data = store::edge_mut(&mut self.graph, edge);
            edge_data.set_disabled(true);
        }
        let count = store::node_count(&self.graph);
        let new_node_index = store::add_node(&mut self.graph, NodeData::new(NodeKind::Hidden, count));
        store::add_edge(
            &mut self.graph,
            link.0,
            new_node_index,
            EdgeData { weight: previous_weight, disabled: false, innov_number: 0 },
        );
        store::add_edge(
            &mut self.graph,
            new_node_index,
            link.1,
            EdgeData { weight: Scalar::one(), disabled: false, innov_number: 0 },
        );
    }
}

} // verus!
