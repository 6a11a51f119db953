//! The genome: a directed graph of node genes joined by connection genes.
use vstd::prelude::*;
use vstd::arithmetic::div_mod::lemma_fundamental_div_mod_converse;
use petgraph::graph::Graph;
use petgraph::Directed;
use rand::rngs::StdRng;
use crate::edge_data::EdgeData;
use crate::innovation_record::InnovationRecord;
use crate::network::paths::{
    bounded, cyclic, is_walk, lemma_fewer_links_acyclic, lemma_split_acyclic,
    lemma_topological_acyclic, linked, topological,
};
use crate::network::store;
use crate::network::store::{edge_seq, node_seq, renamed, swap_removed, touches, Link};
use crate::node_data::NodeData;
use crate::node_kind::NodeKind;
use crate::random::uniform_index;
use crate::scalar::{sampled, Arithmetic, Scalar};

verus! {

/// The kind of the node at index `i` of a network with `inputs` inputs and
/// `outputs` outputs: inputs first, then outputs, then the bias, then hidden
/// nodes.
pub open spec fn kind_at(inputs: nat, outputs: nat, i: int) -> NodeKind {
    if i < inputs {
        NodeKind::Input
    } else if i < inputs + outputs {
        NodeKind::Output
    } else if i == inputs + outputs {
        NodeKind::Bias
    } else {
        NodeKind::Hidden
    }
}

/// The nodes every network with `inputs` inputs and `outputs` outputs starts
/// from. The id of each is its index.
pub open spec fn default_nodes(inputs: nat, outputs: nat) -> Seq<NodeData> {
    Seq::new(
        inputs + outputs + 1,
        |i: int|
            NodeData {
                kind: kind_at(inputs, outputs, i),
                id: i as usize,
                input_sum: Scalar::zero(),
                activated: false,
            },
    )
}

/// The connection from input `e / outputs` to output `e % outputs`, with
/// weight one and the number that `ledger` holds for the pair.
pub open spec fn initial_link(inputs: nat, outputs: nat, ledger: InnovationRecord, e: int) -> Link {
    let source = e / (outputs as int);
    let target = inputs + e % (outputs as int);
    Link {
        source,
        target,
        data: EdgeData {
            weight: Scalar::one(),
            disabled: false,
            innov_number: ledger.innovation(
                #[verifier::truncate]
                (source as usize),
                #[verifier::truncate]
                (target as usize),
            ),
        },
    }
}

/// The connection at `e` is the one a fresh network has there, and `ledger`
/// knows the pair of ids it joins.
pub open spec fn placed(
    links: Seq<Link>,
    inputs: nat,
    outputs: nat,
    ledger: InnovationRecord,
    e: int,
) -> bool {
    let link = initial_link(inputs, outputs, ledger, e);
    links[e] == link && ledger.knows(
        #[verifier::truncate]
        (link.source as usize),
        #[verifier::truncate]
        (link.target as usize),
    )
}

/// The connections of a fresh network: one from every input to every output,
/// input by input.
pub open spec fn initial_links(inputs: nat, outputs: nat, ledger: InnovationRecord) -> Seq<Link> {
    Seq::new(inputs * outputs, |e: int| initial_link(inputs, outputs, ledger, e))
}

/// Once a ledger knows the connections of a fresh network, they keep their
/// numbers in every later state of it.
pub proof fn lemma_initial_links_later(
    inputs: nat,
    outputs: nat,
    earlier: InnovationRecord,
    later: InnovationRecord,
)
    requires
        inputs + outputs <= usize::MAX,
        earlier.knows_initial(inputs, outputs),
        later.extends(&earlier),
    ensures
        initial_links(inputs, outputs, later) == initial_links(inputs, outputs, earlier),
{
    assert forall|e: int| 0 <= e < inputs * outputs implies initial_link(inputs, outputs, later, e)
        == initial_link(inputs, outputs, earlier, e) by {
        assert(outputs > 0) by (nonlinear_arith)
            requires
                0 <= e < inputs * outputs,
        ;
        assert(0 <= e / (outputs as int) < inputs) by (nonlinear_arith)
            requires
                0 <= e < inputs * outputs,
                outputs > 0,
        ;
        assert(0 <= e % (outputs as int) < outputs);
        let a = (e / (outputs as int)) as usize;
        let b = (inputs + e % (outputs as int)) as usize;
        assert(earlier.knows(a, b));
    }
    assert(initial_links(inputs, outputs, later) =~= initial_links(inputs, outputs, earlier));
}

/// `link` switched off.
pub open spec fn switched_off(link: Link) -> Link {
    Link { data: EdgeData { disabled: true, ..link.data }, ..link }
}

/// The connections after the one at `edge` was split by the new node `node`:
/// the old one switched off, then one into the new node with the old weight,
/// then one out of it with weight one. `first` and `second` are the
/// innovation numbers of the two new connections.
pub open spec fn split_links(
    links: Seq<Link>,
    edge: int,
    node: int,
    first: usize,
    second: usize,
) -> Seq<Link> {
    links.update(edge, switched_off(links[edge])).push(
        Link {
            source: links[edge].source,
            target: node,
            data: EdgeData {
                weight: links[edge].data.weight,
                disabled: false,
                innov_number: first,
            },
        },
    ).push(
        Link {
            source: node,
            target: links[edge].target,
            data: EdgeData { weight: Scalar::one(), disabled: false, innov_number: second },
        },
    )
}

/// `b` has the connections of `a` in the same places, between the same
/// nodes, switched on or off alike and under the same innovation numbers;
/// only weights may differ.
pub open spec fn same_wiring(a: Seq<Link>, b: Seq<Link>) -> bool {
    &&& a.len() == b.len()
    &&& forall|e: int|
        0 <= e < a.len() ==> #[trigger] b[e] == (Link {
            data: EdgeData { weight: b[e].data.weight, ..a[e].data },
            ..a[e]
        })
}

/// A genome.
///
/// Node and edge indices are local to one genome and change when something is
/// removed; what two genomes have in common is told by the ids of their nodes
/// and the innovation numbers of their connections.
#[derive(Debug)]
pub struct NetworkGraph {
    pub(crate) graph: Graph<NodeData, EdgeData, Directed, u32>,
    pub(crate) input_number: usize,
    pub(crate) output_number: usize,
    pub(crate) order: Option<Vec<usize>>,
}

impl NetworkGraph {
    /// The node genes, by node index.
    pub closed spec fn nodes(&self) -> Seq<NodeData> {
        node_seq(self.graph)
    }

    /// The connections, by edge index.
    pub closed spec fn links(&self) -> Seq<Link> {
        edge_seq(self.graph)
    }

    /// The number of input nodes.
    pub closed spec fn inputs(&self) -> nat {
        self.input_number as nat
    }

    /// The number of output nodes.
    pub closed spec fn outputs(&self) -> nat {
        self.output_number as nat
    }

    /// The topological order kept from an earlier activation, if any.
    pub closed spec fn cached(&self) -> Option<Seq<usize>> {
        match self.order {
            Some(o) => Some(o@),
            None => None,
        }
    }

    /// The id of the node that connection `e` leaves.
    pub open spec fn source_id(&self, e: int) -> usize {
        self.nodes()[self.links()[e].source].id
    }

    /// The id of the node that connection `e` enters.
    pub open spec fn target_id(&self, e: int) -> usize {
        self.nodes()[self.links()[e].target].id
    }

    /// The shape every genome keeps: the input, output and bias nodes stand
    /// first, each under the id that equals its index; all later nodes are
    /// hidden; every connection joins two nodes of the graph; and an order
    /// that is kept is a topological order of the graph as it is.
    pub open spec fn shaped(&self) -> bool {
        &&& self.inputs() + self.outputs() + 1 <= self.nodes().len() <= u32::MAX
        &&& self.links().len() <= u32::MAX
        &&& bounded(self.links(), self.nodes().len())
        &&& forall|i: int|
            0 <= i < self.nodes().len() ==> (#[trigger] self.nodes()[i]).kind == kind_at(
                self.inputs(),
                self.outputs(),
                i,
            )
        &&& forall|i: int|
            0 <= i <= self.inputs() + self.outputs() ==> (#[trigger] self.nodes()[i]).id == i
        &&& self.cached() matches Some(o) ==> topological(o, self.nodes().len(), self.links())
    }

    /// No node holds anything from an activation pass.
    pub open spec fn quiet(&self) -> bool {
        forall|i: int| 0 <= i < self.nodes().len() ==> (#[trigger] self.nodes()[i]).quiet()
    }

    /// The genome as it stands between two calls: in shape, and quiet.
    pub open spec fn wf(&self) -> bool {
        self.shaped() && self.quiet()
    }

    /// No two nodes carry the same id.
    pub open spec fn marked(&self) -> bool {
        forall|i: int, j: int|
            0 <= i < j < self.nodes().len() ==> (#[trigger] self.nodes()[i]).id != (
            #[trigger] self.nodes()[j]).id
    }

    /// The genome belongs to the run that `ledger` records: its node ids
    /// differ and were handed out by the ledger, and every connection carries
    /// the innovation number that the ledger holds for the ids it joins.
    pub open spec fn registered(&self, ledger: &InnovationRecord) -> bool {
        &&& self.marked()
        &&& forall|i: int|
            0 <= i < self.nodes().len() ==> (#[trigger] self.nodes()[i]).id < ledger.nodes()
        &&& forall|e: int|
            #![trigger self.links()[e]]
            0 <= e < self.links().len() ==> ledger.knows(self.source_id(e), self.target_id(e))
                && ledger.innovation(self.source_id(e), self.target_id(e))
                == self.links()[e].data.innov_number
    }

    /// The graph has no cycle.
    pub open spec fn acyclic(&self) -> bool {
        !cyclic(self.links())
    }

    /// A genome whose connections changed only in weight or in being switched
    /// on or off is in shape, free of cycles and in its run as before.
    pub proof fn lemma_rewired(&self, after: &NetworkGraph)
        requires
            self.shaped(),
            after.nodes() == self.nodes(),
            after.inputs() == self.inputs(),
            after.outputs() == self.outputs(),
            after.cached() == self.cached(),
            after.links().len() == self.links().len(),
            forall|e: int|
                0 <= e < self.links().len() ==> (#[trigger] after.links()[e]).source
                    == self.links()[e].source && after.links()[e].target == self.links()[e].target
                    && after.links()[e].data.innov_number == self.links()[e].data.innov_number,
        ensures
            after.shaped(),
            self.acyclic() ==> after.acyclic(),
            forall|ledger: InnovationRecord| #[trigger]
                self.registered(&ledger) ==> after.registered(&ledger),
    {
        if self.acyclic() {
            assert forall|e: int| #![trigger after.links()[e]] 0 <= e < after.links().len() implies linked(
                self.links(),
                after.links()[e].source,
                after.links()[e].target,
            ) by {
                assert(self.links()[e].source == after.links()[e].source);
            }
            lemma_fewer_links_acyclic(after.links(), self.links());
        }
        assert forall|ledger: InnovationRecord| #[trigger] self.registered(&ledger) implies after.registered(
            &ledger,
        ) by {
            assert forall|e: int|
                #![trigger after.links()[e]]
                0 <= e < after.links().len() implies ledger.knows(
                after.source_id(e),
                after.target_id(e),
            ) && ledger.innovation(after.source_id(e), after.target_id(e))
                == after.links()[e].data.innov_number by {
                assert(self.links()[e].source == after.links()[e].source);
                assert(after.source_id(e) == self.source_id(e));
            }
        }
        match self.cached() {
            Some(o) => {
                assert forall|e: int, j: int, k: int|
                    #![trigger after.links()[e], o[j], o[k]]
                    0 <= e < after.links().len() && 0 <= j < o.len() && 0 <= k < o.len() && o[j]
                        == after.links()[e].source && o[k] == after.links()[e].target implies j
                    < k by {
                    assert(self.links()[e].source == after.links()[e].source);
                }
            },
            None => {},
        }
    }

    /// A genome that belongs to a run still belongs to it after the ledger
    /// has moved on.
    pub proof fn lemma_registered_later(&self, earlier: &InnovationRecord, later: &InnovationRecord)
        requires
            self.shaped(),
            self.registered(earlier),
            later.extends(earlier),
        ensures
            self.registered(later),
    {
        assert forall|e: int| #![trigger self.links()[e]] 0 <= e < self.links().len() implies later.knows(
            self.source_id(e),
            self.target_id(e),
        ) && later.innovation(self.source_id(e), self.target_id(e))
            == self.links()[e].data.innov_number by {
            assert(earlier.knows(self.source_id(e), self.target_id(e)));
        }
    }

    /// The input, output and bias nodes of a network, without any connection.
    pub fn new_disconnected(input_number: usize, output_number: usize) -> (network: Self)
        requires
            input_number + output_number + 1 <= u32::MAX,
        ensures
            network.wf(),
            network.marked(),
            network.inputs() == input_number,
            network.outputs() == output_number,
            network.nodes() == default_nodes(input_number as nat, output_number as nat),
            network.links() == Seq::<Link>::empty(),
            network.cached() is None,
    {
        let mut graph = store::empty_graph();
        let ghost wanted = default_nodes(input_number as nat, output_number as nat);
        let mut i: usize = 0;
        while i < input_number
            invariant
                i <= input_number,
                input_number + output_number + 1 <= u32::MAX,
                node_seq(graph) == wanted.take(i as int),
                edge_seq(graph) == Seq::<Link>::empty(),
                wanted == default_nodes(input_number as nat, output_number as nat),
            decreases input_number - i,
        {
            store::add_node(&mut graph, NodeData::new(NodeKind::Input, i));
            assert(wanted.take(i as int).push(wanted[i as int]) == wanted.take(i + 1));
            i += 1;
        }
        let mut j: usize = 0;
        while j < output_number
            invariant
                j <= output_number,
                input_number + output_number + 1 <= u32::MAX,
                node_seq(graph) == wanted.take(input_number + j),
                edge_seq(graph) == Seq::<Link>::empty(),
                wanted == default_nodes(input_number as nat, output_number as nat),
            decreases output_number - j,
        {
            store::add_node(&mut graph, NodeData::new(NodeKind::Output, input_number + j));
            assert(wanted.take(input_number + j).push(wanted[input_number + j]) == wanted.take(
                input_number + j + 1,
            ));
            j += 1;
        }
        store::add_node(&mut graph, NodeData::new(NodeKind::Bias, input_number + output_number));
        assert(wanted.take(input_number + output_number).push(
            wanted[input_number + output_number],
        ) == wanted);
        Self { graph, input_number, output_number, order: None }
    }

    /// A fresh genome: the input, output and bias nodes, and one connection of
    /// weight one from every input to every output. The bias is joined to
    /// nothing.
    pub fn new(input_number: usize, output_number: usize, innov_record: &mut InnovationRecord) -> (network:
        Self)
        requires
            input_number + output_number + 1 <= u32::MAX,
            input_number * output_number <= u32::MAX,
            old(innov_record).knows_initial(input_number as nat, output_number as nat) || old(innov_record).connections() + input_number * output_number <= usize::MAX,
        ensures
            final(innov_record).knows_initial(input_number as nat, output_number as nat),
            old(innov_record).knows_initial(input_number as nat, output_number as nat) ==> final(innov_record).connections() == old(innov_record).connections(),
            final(innov_record).connections() <= old(innov_record).connections() + input_number
                * output_number,
            final(innov_record).same_beyond_initial(
                old(innov_record),
                input_number as nat,
                output_number as nat,
            ),
            old(innov_record).unknown_initial(input_number as nat, output_number as nat) ==> {
                &&& final(innov_record).connections() == old(innov_record).connections()
                    + input_number * output_number
                &&& forall|e: int|
                    0 <= e < input_number * output_number ==> (#[trigger] network.links()[e]).data.innov_number
                        == old(innov_record).connections() + e
            },
            network.wf(),
            network.acyclic(),
            network.inputs() == input_number,
            network.outputs() == output_number,
            network.nodes() == default_nodes(input_number as nat, output_number as nat),
            network.links() == initial_links(
                input_number as nat,
                output_number as nat,
                *final(innov_record),
            ),
            network.cached() is None,
            final(innov_record).extends(old(innov_record)),
            final(innov_record).nodes() == old(innov_record).nodes(),
            final(innov_record).species() == old(innov_record).species(),
            old(innov_record).wf() ==> final(innov_record).wf(),
            old(innov_record).nodes() >= input_number + output_number + 1 ==> network.registered(
                final(innov_record),
            ),
    {
        let mut network = NetworkGraph::new_disconnected(input_number, output_number);
        let ghost inputs = input_number as nat;
        let ghost outputs = output_number as nat;
        let mut i: usize = 0;
        while i < input_number
            invariant
                i <= input_number,
                inputs == input_number,
                outputs == output_number,
                input_number + output_number + 1 <= u32::MAX,
                input_number * output_number <= u32::MAX,
                old(innov_record).knows_initial(inputs, outputs) || old(innov_record).connections()
                    + input_number * output_number <= usize::MAX,
                old(innov_record).knows_initial(inputs, outputs) ==> innov_record.connections()
                    == old(innov_record).connections(),
                network.input_number == input_number,
                network.output_number == output_number,
                network.order is None,
                network.nodes() == default_nodes(inputs, outputs),
                network.links().len() == i * output_number,
                innov_record.connections() <= old(innov_record).connections() + i * output_number,
                innov_record.same_beyond_initial(old(innov_record), inputs, outputs),
                old(innov_record).unknown_initial(inputs, outputs) ==> {
                    &&& innov_record.connections() == old(innov_record).connections()
                        + network.links().len()
                    &&& forall|e: int|
                        0 <= e < network.links().len() ==> (#[trigger] network.links()[e]).data.innov_number
                            == old(innov_record).connections() + e
                    &&& forall|a: usize, b: usize|
                        i <= a < inputs && inputs <= b < inputs + outputs ==> !#[trigger] innov_record.knows(
                            a,
                            b,
                        )
                },
                forall|e: int|
                    0 <= e < network.links().len() ==> #[trigger] placed(
                        network.links(),
                        inputs,
                        outputs,
                        *innov_record,
                        e,
                    ),
                innov_record.extends(old(innov_record)),
                innov_record.nodes() == old(innov_record).nodes(),
                innov_record.species() == old(innov_record).species(),
                old(innov_record).wf() ==> innov_record.wf(),
            decreases input_number - i,
        {
            let mut j: usize = 0;
            while j < output_number
                invariant
                    i < input_number,
                    j <= output_number,
                    inputs == input_number,
                    outputs == output_number,
                    input_number + output_number + 1 <= u32::MAX,
                    input_number * output_number <= u32::MAX,
                    old(innov_record).knows_initial(inputs, outputs) || old(innov_record).connections()
                    + input_number * output_number <= usize::MAX,
                old(innov_record).knows_initial(inputs, outputs) ==> innov_record.connections()
                    == old(innov_record).connections(),
                    network.input_number == input_number,
                    network.output_number == output_number,
                    network.order is None,
                    network.nodes() == default_nodes(inputs, outputs),
                    network.links().len() == i * output_number + j,
                    innov_record.connections() <= old(innov_record).connections() + i
                        * output_number + j,
                    innov_record.same_beyond_initial(old(innov_record), inputs, outputs),
                    old(innov_record).unknown_initial(inputs, outputs) ==> {
                        &&& innov_record.connections() == old(innov_record).connections()
                            + network.links().len()
                        &&& forall|e: int|
                            0 <= e < network.links().len() ==> (#[trigger] network.links()[e]).data.innov_number
                                == old(innov_record).connections() + e
                        &&& forall|a: usize, b: usize|
                            (i < a || (i == a && inputs + j <= b)) && a < inputs && inputs <= b
                                < inputs + outputs ==> !#[trigger] innov_record.knows(a, b)
                    },
                    forall|e: int|
                        0 <= e < network.links().len() ==> #[trigger] placed(
                            network.links(),
                            inputs,
                            outputs,
                            *innov_record,
                            e,
                        ),
                    innov_record.extends(old(innov_record)),
                    innov_record.nodes() == old(innov_record).nodes(),
                    innov_record.species() == old(innov_record).species(),
                    old(innov_record).wf() ==> innov_record.wf(),
                decreases output_number - j,
            {
                proof {
                    assert(i * output_number + j < input_number * output_number) by (nonlinear_arith)
                        requires
                            i < input_number,
                            j < output_number,
                    ;
                    lemma_fundamental_div_mod_converse(
                        i * output_number + j,
                        output_number as int,
                        i as int,
                        j as int,
                    );
                }
                proof {
                    if old(innov_record).knows_initial(inputs, outputs) {
                        assert(old(innov_record).knows(i, (input_number + j) as usize));
                        assert(innov_record.knows(i, (input_number + j) as usize));
                    }
                }
                let ghost before = *innov_record;
                let ghost earlier = network.links();
                let innov_number = innov_record.new_connection(i, input_number + j);
                let edge_data = EdgeData::new(Scalar::one(), innov_number);
                store::add_edge(&mut network.graph, i, input_number + j, edge_data);
                proof {
                    assert forall|e: int| 0 <= e < network.links().len() implies #[trigger] placed(
                        network.links(),
                        inputs,
                        outputs,
                        *innov_record,
                        e,
                    ) by {
                        if e < earlier.len() {
                            assert(placed(earlier, inputs, outputs, before, e));
                        }
                    }
                    if old(innov_record).unknown_initial(inputs, outputs) {
                        assert(!before.knows(i, (input_number + j) as usize));
                        assert forall|e: int| 0 <= e < network.links().len() implies (
                        #[trigger] network.links()[e]).data.innov_number == old(
                            innov_record,
                        ).connections() + e by {
                            if e < earlier.len() {
                                assert(network.links()[e] == earlier[e]);
                            }
                        }
                    }
                }
                j += 1;
            }
            proof {
                assert(i * output_number + output_number == (i + 1) * output_number)
                    by (nonlinear_arith);
            }
            i += 1;
        }
        proof {
            let ledger = *innov_record;
            assert(network.inputs() == inputs && network.outputs() == outputs);
            assert forall|a: usize, b: usize| a < inputs && inputs <= b < inputs + outputs implies #[trigger] ledger.knows(
                a,
                b,
            ) by {
                let e = a * outputs + (b - inputs);
                assert(0 <= e < inputs * outputs) by (nonlinear_arith)
                    requires
                        0 <= a < inputs,
                        0 <= b - inputs < outputs,
                        e == a * outputs + (b - inputs),
                ;
                lemma_fundamental_div_mod_converse(e, outputs as int, a as int, b - inputs);
                assert(placed(network.links(), inputs, outputs, ledger, e));
            }
            assert forall|e: int| 0 <= e < network.links().len() implies network.links()[e]
                == initial_link(inputs, outputs, ledger, e) by {
                assert(placed(network.links(), inputs, outputs, ledger, e));
            }
            assert(network.links() =~= initial_links(inputs, outputs, ledger));
            network.lemma_initial_links(ledger);
        }
        network
    }

    /// A genome whose connections all lead from an input to an output is in
    /// shape, has no cycle, and belongs to the run of the ledger that
    /// numbered them.
    proof fn lemma_initial_links(&self, ledger: InnovationRecord)
        requires
            self.inputs() + self.outputs() + 1 <= u32::MAX,
            self.inputs() * self.outputs() <= u32::MAX,
            self.cached() is None,
            self.nodes() == default_nodes(self.inputs(), self.outputs()),
            self.links() == initial_links(self.inputs(), self.outputs(), ledger),
            forall|e: int|
                0 <= e < self.links().len() ==> #[trigger] placed(
                    self.links(),
                    self.inputs(),
                    self.outputs(),
                    ledger,
                    e,
                ),
        ensures
            self.wf(),
            self.acyclic(),
            ledger.nodes() >= self.inputs() + self.outputs() + 1 ==> self.registered(&ledger),
    {
        let inputs = self.inputs();
        let outputs = self.outputs();
        let links = self.links();
        assert forall|e: int| #![trigger links[e]] 0 <= e < links.len() implies 0 <= links[e].source
            < inputs && inputs <= links[e].target < inputs + outputs by {
            assert(placed(links, inputs, outputs, ledger, e));
            assert(0 <= e < inputs * outputs);
            assert(outputs > 0) by (nonlinear_arith)
                requires
                    0 <= e < inputs * outputs,
            ;
            assert(0 <= e / (outputs as int) < inputs) by (nonlinear_arith)
                requires
                    0 <= e < inputs * outputs,
                    outputs > 0,
            ;
            assert(0 <= e % (outputs as int) < outputs);
        }
        if ledger.nodes() >= inputs + outputs + 1 {
            assert forall|e: int| #![trigger self.links()[e]] 0 <= e < self.links().len() implies ledger.knows(
                self.source_id(e),
                self.target_id(e),
            ) && ledger.innovation(self.source_id(e), self.target_id(e))
                == self.links()[e].data.innov_number by {
                assert(placed(links, inputs, outputs, ledger, e));
                assert(0 <= links[e].source < inputs && inputs <= links[e].target < inputs + outputs);
            }
        }
        if cyclic(links) {
            let p = choose|p: Seq<int>| #[trigger] is_walk(links, p) && p.first() == p.last();
            assert(linked(links, p[0], p[1]));
            if p.len() == 2 {
                assert(p[0] == p[1]);
            } else {
                assert(linked(links, p[1], p[2]));
            }
        }
    }

    /// The number of nodes.
    pub fn node_count(&self) -> (n: usize)
        ensures
            n == self.nodes().len(),
    {
        store::node_count(&self.graph)
    }

    /// The number of connections.
    pub fn edge_count(&self) -> (n: usize)
        ensures
            n == self.links().len(),
    {
        store::edge_count(&self.graph)
    }

    /// The number of input nodes.
    pub fn input_number(&self) -> (n: usize)
        ensures
            n == self.inputs(),
    {
        self.input_number
    }

    /// The number of output nodes.
    pub fn output_number(&self) -> (n: usize)
        ensures
            n == self.outputs(),
    {
        self.output_number
    }

    /// The gene of the node at `index`.
    pub fn node(&self, index: usize) -> (data: NodeData)
        requires
            index < self.nodes().len(),
            self.nodes().len() <= u32::MAX,
        ensures
            data == self.nodes()[index as int],
    {
        store::node_at(&self.graph, index)
    }

    /// The gene of the connection at `index`.
    pub fn edge(&self, index: usize) -> (data: EdgeData)
        requires
            index < self.links().len(),
        ensures
            data == self.links()[index as int].data,
    {
        store::link_at(&self.graph, index).2
    }

    /// The gene of the connection at `index`, to be changed in place.
    pub fn edge_mut(&mut self, index: usize) -> (data: &mut EdgeData)
        requires
            index < old(self).links().len(),
            old(self).links().len() <= u32::MAX,
        ensures
            *data == old(self).links()[index as int].data,
            final(self).links() == old(self).links().update(
                index as int,
                (Link { data: *final(data), ..old(self).links()[index as int] }),
            ),
            final(self).nodes() == old(self).nodes(),
            final(self).inputs() == old(self).inputs(),
            final(self).outputs() == old(self).outputs(),
            final(self).cached() == old(self).cached(),
    {
        store::edge_mut(&mut self.graph, index)
    }

    /// The indices of the two nodes that the connection at `index` joins:
    /// where it starts, then where it ends.
    pub fn edge_endpoints(&self, index: usize) -> (ends: (usize, usize))
        requires
            index < self.links().len(),
        ensures
            ends.0 == self.links()[index as int].source,
            ends.1 == self.links()[index as int].target,
    {
        let link = store::link_at(&self.graph, index);
        (link.0, link.1)
    }

    /// The index of some connection, or nothing where there is none.
    pub fn random_edge(&self, rng: &mut StdRng) -> (edge: Option<usize>)
        ensures
            edge is None <==> self.links().len() == 0,
            edge matches Some(e) ==> e < self.links().len(),
    {
        let count = store::edge_count(&self.graph);
        if count == 0 {
            None
        } else {
            Some(uniform_index(rng, count))
        }
    }

    /// The index of some node.
    pub fn random_node(&self, rng: &mut StdRng) -> (node: usize)
        requires
            self.nodes().len() > 0,
        ensures
            node < self.nodes().len(),
    {
        uniform_index(rng, store::node_count(&self.graph))
    }

    /// Whether some connection leads from node `source` to node `target`.
    pub fn has_connection(&self, source: usize, target: usize) -> (found: bool)
        requires
            self.shaped(),
        ensures
            found == linked(self.links(), source as int, target as int),
    {
        let count = store::node_count(&self.graph);
        if source < count && target < count {
            store::contains_edge(&self.graph, source, target)
        } else {
            false
        }
    }

    /// Whether the graph has a cycle.
    pub fn has_cycle(&self) -> (found: bool)
        ensures
            found == !self.acyclic(),
    {
        store::is_cyclic(&self.graph)
    }

    /// Appends a node. The kept order no longer covers the graph and is
    /// dropped.
    pub(crate) fn push_node(&mut self, data: NodeData) -> (index: usize)
        requires
            old(self).nodes().len() < u32::MAX,
        ensures
            index == old(self).nodes().len(),
            final(self).nodes() == old(self).nodes().push(data),
            final(self).links() == old(self).links(),
            final(self).inputs() == old(self).inputs(),
            final(self).outputs() == old(self).outputs(),
            final(self).cached() is None,
    {
        self.order = None;
        store::add_node(&mut self.graph, data)
    }

    /// Appends a connection. The kept order may no longer fit and is dropped.
    pub(crate) fn push_link(&mut self, source: usize, target: usize, data: EdgeData) -> (index:
        usize)
        requires
            source < old(self).nodes().len(),
            target < old(self).nodes().len(),
            old(self).nodes().len() <= u32::MAX,
            old(self).links().len() < u32::MAX,
        ensures
            index == old(self).links().len(),
            final(self).nodes() == old(self).nodes(),
            final(self).links() == old(self).links().push(
                (Link { source: source as int, target: target as int, data }),
            ),
            final(self).inputs() == old(self).inputs(),
            final(self).outputs() == old(self).outputs(),
            final(self).cached() is None,
    {
        self.order = None;
        store::add_edge(&mut self.graph, source, target, data)
    }

    /// The indices of the connections that leave `node`, each once.
    pub(crate) fn outgoing(&self, node: usize) -> (edges: Vec<usize>)
        requires
            node < self.nodes().len(),
            self.nodes().len() <= u32::MAX,
        ensures
            forall|k: int|
                0 <= k < edges@.len() ==> (#[trigger] edges@[k]) < self.links().len()
                    && self.links()[edges@[k] as int].source == node,
            forall|j: int, k: int| 0 <= j < k < edges@.len() ==> edges@[j] != edges@[k],
            forall|e: int|
                0 <= e < self.links().len() && (#[trigger] self.links()[e]).source == node
                    ==> edges@.contains(e as usize),
    {
        store::outgoing(&self.graph, node)
    }

    /// Makes sure that a topological order of the graph is kept, where the
    /// graph has one. Returns whether it has: whether it is free of cycles.
    pub fn order_nodes(&mut self) -> (ordered: bool)
        requires
            old(self).shaped(),
        ensures
            final(self).shaped(),
            final(self).nodes() == old(self).nodes(),
            final(self).links() == old(self).links(),
            final(self).inputs() == old(self).inputs(),
            final(self).outputs() == old(self).outputs(),
            ordered == old(self).acyclic(),
            ordered ==> final(self).cached() is Some,
    {
        if self.order.is_some() {
            proof {
                lemma_topological_acyclic(
                    self.cached().unwrap(),
                    self.nodes().len(),
                    self.links(),
                );
            }
            return true;
        }
        self.order = store::toposort(&self.graph);
        self.order.is_some()
    }

    /// The node at place `k` of the topological order that is kept.
    pub(crate) fn ordered_node(&self, k: usize) -> (node: usize)
        requires
            self.cached() is Some,
            k < self.cached().unwrap().len(),
        ensures
            node == self.cached().unwrap()[k as int],
    {
        match &self.order {
            Some(order) => order[k],
            None => 0,
        }
    }

    /// Takes a connection out of the container; the last connection takes
    /// over its index.
    pub(crate) fn drop_link(&mut self, index: usize)
        requires
            index < old(self).links().len(),
            old(self).links().len() <= u32::MAX,
        ensures
            final(self).nodes() == old(self).nodes(),
            final(self).links() == swap_removed(old(self).links(), index as int),
            final(self).inputs() == old(self).inputs(),
            final(self).outputs() == old(self).outputs(),
            final(self).cached() is None,
    {
        self.order = None;
        store::remove_edge(&mut self.graph, index)
    }

    /// Takes a node that no connection touches out of the container; the last
    /// node takes over its index.
    pub(crate) fn drop_node(&mut self, index: usize)
        requires
            index < old(self).nodes().len(),
            old(self).nodes().len() <= u32::MAX,
            forall|e: int|
                0 <= e < old(self).links().len() ==> !touches(
                    #[trigger] old(self).links()[e],
                    index as int,
                ),
        ensures
            final(self).nodes() == swap_removed(old(self).nodes(), index as int),
            final(self).links() == old(self).links().map_values(
                |l: Link| renamed(l, old(self).nodes().len() - 1, index as int),
            ),
            final(self).inputs() == old(self).inputs(),
            final(self).outputs() == old(self).outputs(),
            final(self).cached() is None,
    {
        proof {
            assert forall|e: int| 0 <= e < edge_seq(self.graph).len() implies !touches(
                #[trigger] edge_seq(self.graph)[e],
                index as int,
            ) by {
                assert(!touches(self.links()[e], index as int));
            }
        }
        self.order = None;
        store::remove_node(&mut self.graph, index)
    }

    /// The gene of the node at `index`, to be changed in place. A caller that
    /// changes the kind or the id answers for the shape of the genome.
    pub fn node_mut(&mut self, index: usize) -> (data: &mut NodeData)
        requires
            index < old(self).nodes().len(),
            old(self).nodes().len() <= u32::MAX,
        ensures
            *data == old(self).nodes()[index as int],
            final(self).nodes() == old(self).nodes().update(index as int, *final(data)),
            final(self).links() == old(self).links(),
            final(self).inputs() == old(self).inputs(),
            final(self).outputs() == old(self).outputs(),
            final(self).cached() == old(self).cached(),
    {
        store::node_mut(&mut self.graph, index)
    }

    /// The genes of the input nodes, in their order.
    pub fn input_nodes_mut(&mut self) -> (nodes: Vec<NodeData>)
        requires
            old(self).shaped(),
        ensures
            nodes@ == old(self).nodes().take(old(self).inputs() as int),
            *final(self) == *old(self),
    {
        let mut nodes: Vec<NodeData> = Vec::new();
        let mut i: usize = 0;
        while i < self.input_number
            invariant
                i <= self.input_number,
                *self == *old(self),
                self.shaped(),
                nodes@ == self.nodes().take(i as int),
            decreases self.input_number - i,
        {
            nodes.push(store::node_at(&self.graph, i));
            assert(nodes@ =~= self.nodes().take(i + 1));
            i += 1;
        }
        nodes
    }

    /// The gene of the bias node, to be changed in place.
    pub fn bias_node_mut(&mut self) -> (data: &mut NodeData)
        requires
            old(self).shaped(),
        ensures
            *data == old(self).nodes()[(old(self).inputs() + old(self).outputs()) as int],
            final(self).nodes() == old(self).nodes().update(
                (old(self).inputs() + old(self).outputs()) as int,
                *final(data),
            ),
            final(self).links() == old(self).links(),
            final(self).inputs() == old(self).inputs(),
            final(self).outputs() == old(self).outputs(),
            final(self).cached() == old(self).cached(),
    {
        store::node_mut(&mut self.graph, self.input_number + self.output_number)
    }

    /// Forgets what the nodes have gathered in an activation pass.
    pub fn clear_sum(&mut self)
        requires
            old(self).shaped(),
        ensures
            final(self).wf(),
            final(self).nodes().len() == old(self).nodes().len(),
            forall|i: int|
                0 <= i < old(self).nodes().len() ==> #[trigger] final(self).nodes()[i] == (NodeData {
                    input_sum: Scalar::zero(),
                    activated: false,
                    ..old(self).nodes()[i]
                }),
            final(self).links() == old(self).links(),
            final(self).inputs() == old(self).inputs(),
            final(self).outputs() == old(self).outputs(),
            final(self).cached() == old(self).cached(),
    {
        let count = store::node_count(&self.graph);
        let mut i: usize = 0;
        while i < count
            invariant
                i <= count,
                count == old(self).nodes().len(),
                self.shaped(),
                self.nodes().len() == old(self).nodes().len(),
                forall|k: int|
                    0 <= k < i ==> #[trigger] self.nodes()[k] == (NodeData {
                        input_sum: Scalar::zero(),
                        activated: false,
                        ..old(self).nodes()[k]
                    }),
                forall|k: int|
                    i <= k < count ==> #[trigger] self.nodes()[k] == old(self).nodes()[k],
                self.links() == old(self).links(),
                self.inputs() == old(self).inputs(),
                self.outputs() == old(self).outputs(),
                self.cached() == old(self).cached(),
            decreases count - i,
        {
            let node = store::node_mut(&mut self.graph, i);
            node.clear_sum();
            i += 1;
        }
    }

    /// Gives every connection a weight sampled by `ops` from `[low, high)`.
    pub fn randomize_weights<A: Arithmetic>(
        &mut self,
        low: Scalar,
        high: Scalar,
        ops: &A,
        rng: &mut StdRng,
    )
        requires
            old(self).shaped(),
        ensures
            final(self).shaped(),
            same_wiring(old(self).links(), final(self).links()),
            forall|e: int|
                0 <= e < final(self).links().len() ==> sampled(
                    ops,
                    low,
                    high,
                    (#[trigger] final(self).links()[e]).data.weight,
                ),
            final(self).nodes() == old(self).nodes(),
            final(self).inputs() == old(self).inputs(),
            final(self).outputs() == old(self).outputs(),
            final(self).cached() == old(self).cached(),
    {
        let count = store::edge_count(&self.graph);
        let mut i: usize = 0;
        while i < count
            invariant
                i <= count,
                count == old(self).links().len(),
                self.shaped(),
                same_wiring(old(self).links(), self.links()),
                forall|e: int|
                    0 <= e < i ==> sampled(ops, low, high, (#[trigger] self.links()[e]).data.weight),
                self.nodes() == old(self).nodes(),
                self.inputs() == old(self).inputs(),
                self.outputs() == old(self).outputs(),
                self.cached() == old(self).cached(),
            decreases count - i,
        {
            let ghost before = self.links();
            let weight = ops.uniform(low, high, rng);
            assert(sampled(ops, low, high, weight));
            let edge = store::edge_mut(&mut self.graph, i);
            edge.set_weight(weight);
            proof {
                assert forall|e: int| 0 <= e < i + 1 implies sampled(
                    ops,
                    low,
                    high,
                    (#[trigger] self.links()[e]).data.weight,
                ) by {
                    if e < i {
                        assert(self.links()[e] == before[e]);
                    }
                }
            }
            i += 1;
        }
    }

    /// Joins node `source` to node `target` by a new connection of the given
    /// weight. Nothing is asked of the two nodes: a caller that wants no
    /// duplicate, no cycle, or no connection into an input looks first.
    pub fn add_connection(
        &mut self,
        source: usize,
        target: usize,
        weight: Scalar,
        innov_record: &mut InnovationRecord,
    ) -> (edge: usize)
        requires
            old(self).shaped(),
            source < old(self).nodes().len(),
            target < old(self).nodes().len(),
            old(self).links().len() < u32::MAX,
            old(innov_record).knows(
                old(self).nodes()[source as int].id,
                old(self).nodes()[target as int].id,
            ) || old(innov_record).connections() < usize::MAX,
        ensures
            edge == old(self).links().len(),
            final(self).links() == old(self).links().push(
                (Link {
                    source: source as int,
                    target: target as int,
                    data: EdgeData {
                        weight,
                        disabled: false,
                        innov_number: final(innov_record).innovation(
                            old(self).nodes()[source as int].id,
                            old(self).nodes()[target as int].id,
                        ),
                    },
                }),
            ),
            final(self).nodes() == old(self).nodes(),
            final(self).inputs() == old(self).inputs(),
            final(self).outputs() == old(self).outputs(),
            final(self).cached() is None,
            final(self).shaped(),
            final(innov_record).extends(old(innov_record)),
            final(innov_record).knows(
                old(self).nodes()[source as int].id,
                old(self).nodes()[target as int].id,
            ),
            final(innov_record).asked(
                old(innov_record),
                old(self).nodes()[source as int].id,
                old(self).nodes()[target as int].id,
            ),
            final(innov_record).connections() <= old(innov_record).connections() + 1,
            final(innov_record).nodes() == old(innov_record).nodes(),
            final(innov_record).species() == old(innov_record).species(),
            old(innov_record).wf() ==> final(innov_record).wf(),
            old(self).registered(old(innov_record)) ==> final(self).registered(final(innov_record)),
    {
        let source_id = store::node_at(&self.graph, source).id();
        let target_id = store::node_at(&self.graph, target).id();
        let innov_number = innov_record.new_connection(source_id, target_id);
        let edge_data = EdgeData::new(weight, innov_number);
        self.order = None;
        let edge = store::add_edge(&mut self.graph, source, target, edge_data);
        proof {
            if old(self).registered(old(innov_record)) {
                old(self).lemma_registered_later(old(innov_record), innov_record);
                assert forall|e: int|
                    #![trigger self.links()[e]]
                    0 <= e < self.links().len() implies innov_record.knows(
                    self.source_id(e),
                    self.target_id(e),
                ) && innov_record.innovation(self.source_id(e), self.target_id(e))
                    == self.links()[e].data.innov_number by {
                    if e < old(self).links().len() {
                        assert(self.links()[e] == old(self).links()[e]);
                        assert(self.source_id(e) == old(self).source_id(e));
                    }
                }
            }
        }
        edge
    }

    /// Takes the connection at `edge` out; the last connection takes over its
    /// index. An index past the last connection changes nothing.
    pub fn remove_connetion(&mut self, edge: usize)
        requires
            old(self).shaped(),
        ensures
            final(self).links() == if edge < old(self).links().len() {
                swap_removed(old(self).links(), edge as int)
            } else {
                old(self).links()
            },
            final(self).nodes() == old(self).nodes(),
            final(self).inputs() == old(self).inputs(),
            final(self).outputs() == old(self).outputs(),
            final(self).cached() is None,
            final(self).shaped(),
            old(self).acyclic() ==> final(self).acyclic(),
            forall|ledger: InnovationRecord| #[trigger]
                old(self).registered(&ledger) ==> final(self).registered(&ledger),
    {
        self.order = None;
        if edge < store::edge_count(&self.graph) {
            store::remove_edge(&mut self.graph, edge);
            proof {
                let before = old(self).links();
                let after = self.links();
                assert forall|e: int| #![trigger after[e]] 0 <= e < after.len() implies after[e] == before[if e
                    == edge { before.len() - 1 } else { e }] by {}
                if old(self).acyclic() {
                    assert forall|e: int| #![trigger after[e]] 0 <= e < after.len() implies linked(
                        before,
                        after[e].source,
                        after[e].target,
                    ) by {
                        let b = if e == edge { before.len() - 1 } else { e };
                        assert(after[e] == before[b]);
                    }
                    lemma_fewer_links_acyclic(after, before);
                }
                assert forall|ledger: InnovationRecord| #[trigger]
                    old(self).registered(&ledger) implies self.registered(&ledger) by {
                    assert forall|e: int|
                        #![trigger self.links()[e]]
                        0 <= e < self.links().len() implies ledger.knows(
                        self.source_id(e),
                        self.target_id(e),
                    ) && ledger.innovation(self.source_id(e), self.target_id(e))
                        == self.links()[e].data.innov_number by {
                        let b = if e == edge { before.len() - 1 } else { e };
                        assert(after[e] == before[b]);
                        assert(self.source_id(e) == old(self).source_id(b));
                    }
                }
            }
        }
    }

    /// Splits the connection at `edge` by a new hidden node: the connection
    /// is switched off, and two new ones lead through the new node, the
    /// first with the weight of the old connection and the second with weight
    /// one. Returns the index of the new node.
    pub fn add_node(&mut self, edge: usize, innov_record: &mut InnovationRecord) -> (node: usize)
        requires
            old(self).shaped(),
            edge < old(self).links().len(),
            old(self).nodes().len() < u32::MAX,
            old(self).links().len() + 2 <= u32::MAX,
            old(innov_record).nodes() < usize::MAX,
            old(innov_record).connections() + 2 <= usize::MAX,
        ensures
            node == old(self).nodes().len(),
            final(self).nodes() == old(self).nodes().push(
                (NodeData {
                    kind: NodeKind::Hidden,
                    id: old(innov_record).nodes() as usize,
                    input_sum: Scalar::zero(),
                    activated: false,
                }),
            ),
            final(self).links() == split_links(
                old(self).links(),
                edge as int,
                node as int,
                final(innov_record).innovation(
                    old(self).source_id(edge as int),
                    old(innov_record).nodes() as usize,
                ),
                final(innov_record).innovation(
                    old(innov_record).nodes() as usize,
                    old(self).target_id(edge as int),
                ),
            ),
            final(self).inputs() == old(self).inputs(),
            final(self).outputs() == old(self).outputs(),
            final(self).cached() is None,
            final(self).shaped(),
            old(self).quiet() ==> final(self).quiet(),
            old(self).acyclic() ==> final(self).acyclic(),
            final(innov_record).extends(old(innov_record)),
            final(innov_record).nodes() == old(innov_record).nodes() + 1,
            final(innov_record).connections() <= old(innov_record).connections() + 2,
            final(innov_record).asked_twice(
                old(innov_record),
                old(self).source_id(edge as int),
                old(innov_record).nodes() as usize,
                old(self).target_id(edge as int),
            ),
            !old(innov_record).knows(
                old(self).source_id(edge as int),
                old(innov_record).nodes() as usize,
            ) && !old(innov_record).knows(
                old(innov_record).nodes() as usize,
                old(self).target_id(edge as int),
            ) && old(self).source_id(edge as int) != old(self).target_id(edge as int) ==> {
                &&& final(self).links()[old(self).links().len() as int].data.innov_number == old(
                    innov_record,
                ).connections()
                &&& final(self).links()[old(self).links().len() as int + 1].data.innov_number == old(
                    innov_record,
                ).connections() + 1
                &&& final(innov_record).connections() == old(innov_record).connections() + 2
            },
            final(innov_record).species() == old(innov_record).species(),
            old(innov_record).wf() ==> final(innov_record).wf(),
            old(self).registered(old(innov_record)) ==> final(self).registered(final(innov_record)),
    {
        self.order = None;
        let link = store::link_at(&self.graph, edge);
        let source = link.0;
        let target = link.1;
        let previous_weight = link.2.get_weight();
        {
            let edge_data = store::edge_mut(&mut self.graph, edge);
            edge_data.set_disabled(true);
        }
        let new_node_id = innov_record.new_node();
        let new_node_index = store::add_node(
            &mut self.graph,
            NodeData::new(NodeKind::Hidden, new_node_id),
        );
        let source_id = store::node_at(&self.graph, source).id();
        let target_id = store::node_at(&self.graph, target).id();
        let ghost middle = *innov_record;
        let first = innov_record.new_connection(source_id, new_node_id);
        let ghost later = *innov_record;
        store::add_edge(
            &mut self.graph,
            source,
            new_node_index,
            EdgeData::new(previous_weight, first),
        );
        let second = innov_record.new_connection(new_node_id, target_id);
        store::add_edge(&mut self.graph, new_node_index, target, EdgeData::new(Scalar::one(), second));
        proof {
            let before = old(self).links();
            let after = self.links();
            assert(innov_record.extends(&later));
            assert(later.knows(source_id, new_node_id));
            assert(later.asked(old(innov_record), source_id, new_node_id));
            assert(innov_record.asked(&later, new_node_id, target_id));
            assert(source_id == old(self).source_id(edge as int));
            assert(target_id == old(self).target_id(edge as int));
            assert(new_node_id == old(innov_record).nodes() as usize);
            assert(innov_record.asked_twice(old(innov_record), source_id, new_node_id, target_id));
            assert(after =~= split_links(before, edge as int, new_node_index as int, first, second));
            if old(self).acyclic() {
                assert forall|e: int| #![trigger after[e]] 0 <= e < after.len() implies (linked(
                    before,
                    after[e].source,
                    after[e].target,
                ) && after[e].source != new_node_index && after[e].target != new_node_index) || (
                after[e].source == source && after[e].target == new_node_index) || (after[e].source
                    == new_node_index && after[e].target == target) by {
                    if e < before.len() {
                        assert(after[e].source == before[e].source && after[e].target
                            == before[e].target);
                    }
                }
                assert(linked(before, source as int, target as int)) by {
                    assert(before[edge as int].source == source);
                }
                lemma_split_acyclic(before, after, source as int, target as int, new_node_index as int);
            }
            if old(self).registered(old(innov_record)) {
                old(self).lemma_registered_later(old(innov_record), innov_record);
                assert forall|e: int|
                    #![trigger self.links()[e]]
                    0 <= e < self.links().len() implies innov_record.knows(
                    self.source_id(e),
                    self.target_id(e),
                ) && innov_record.innovation(self.source_id(e), self.target_id(e))
                    == self.links()[e].data.innov_number by {
                    if e < before.len() {
                        assert(after[e].source == before[e].source && after[e].target
                            == before[e].target);
                        assert(self.source_id(e) == old(self).source_id(e));
                        assert(self.target_id(e) == old(self).target_id(e));
                        assert(old(innov_record).knows(old(self).source_id(e), old(self).target_id(e)));
                    }
                }
            }
        }
        new_node_index
    }
}

impl Clone for NetworkGraph {
    /// A copy with the same nodes and connections under the same indices.
    fn clone(&self) -> (copy: Self)
        ensures
            copy.nodes() == self.nodes(),
            copy.links() == self.links(),
            copy.inputs() == self.inputs(),
            copy.outputs() == self.outputs(),
            copy.cached() is None,
    {
        Self {
            graph: store::clone_graph(&self.graph),
            input_number: self.input_number,
            output_number: self.output_number,
            order: None,
        }
    }
}

} // verus!
