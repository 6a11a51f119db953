//! Building a genome from a list of connection genes.
use vstd::prelude::*;
use std::collections::HashMap;
use crate::edge_data::EdgeData;
use crate::network::network_graph::{default_nodes, NetworkGraph};
use crate::network::store::Link;
use crate::node_data::NodeData;
use crate::node_kind::NodeKind;

verus! {

broadcast use vstd::std_specs::hash::group_hash_axioms;

/// A connection gene together with the genes of the two nodes it joins.
#[derive(Clone, Copy, Debug, PartialEq, Eq, Structural)]
pub struct Gene {
    pub source: NodeData,
    pub target: NodeData,
    pub data: EdgeData,
}

/// The hidden node with id `id` sits at index `i` of `nodes`.
pub open spec fn holds(nodes: Seq<NodeData>, id: usize, i: int) -> bool {
    0 <= i < nodes.len() && nodes[i].kind == NodeKind::Hidden && nodes[i].id == id
}

/// Some hidden node of `nodes` has the id `id`.
pub open spec fn known(nodes: Seq<NodeData>, id: usize) -> bool {
    exists|i: int| holds(nodes, id, i)
}

/// The index under which the node gene `node` is found in a genome whose
/// nodes so far are `nodes`: an input, output or bias node under its id; a
/// hidden node where a hidden node with its id sits, or, where none does, at
/// the end.
pub open spec fn seat(nodes: Seq<NodeData>, node: NodeData) -> int {
    if node.kind != NodeKind::Hidden {
        node.id as int
    } else if known(nodes, node.id) {
        choose|i: int| holds(nodes, node.id, i)
    } else {
        nodes.len() as int
    }
}

/// The nodes after `node` has found its seat: a hidden node whose id is new
/// is appended, anything else changes nothing.
pub open spec fn seated(nodes: Seq<NodeData>, node: NodeData) -> Seq<NodeData> {
    if node.kind == NodeKind::Hidden && !known(nodes, node.id) {
        nodes.push(node)
    } else {
        nodes
    }
}

/// The nodes and connections of the genome that starts from the nodes `base`
/// and takes in the first `k` of `genes`, one after the other: for each gene
/// its source is seated, then its target, then the connection is appended.
pub open spec fn grown(base: Seq<NodeData>, genes: Seq<Gene>, k: nat) -> (Seq<NodeData>, Seq<Link>)
    decreases k,
{
    if k == 0 {
        (base, Seq::empty())
    } else {
        let before = grown(base, genes, (k - 1) as nat);
        let gene = genes[k - 1];
        let with_source = seated(before.0, gene.source);
        (
            seated(with_source, gene.target),
            before.1.push(
                Link {
                    source: seat(before.0, gene.source),
                    target: seat(with_source, gene.target),
                    data: gene.data,
                },
            ),
        )
    }
}

/// Each gene names its input, output and bias nodes by ids that a genome with
/// `inputs` inputs and `outputs` outputs has.
pub open spec fn fitting(genes: Seq<Gene>, inputs: nat, outputs: nat) -> bool {
    forall|k: int|
        #![trigger genes[k]]
        0 <= k < genes.len() ==> (genes[k].source.kind != NodeKind::Hidden ==> genes[k].source.id
            <= inputs + outputs) && (genes[k].target.kind != NodeKind::Hidden
            ==> genes[k].target.id <= inputs + outputs)
}

/// The node genes in `genes` hold nothing from an activation pass.
pub open spec fn calm(genes: Seq<Gene>) -> bool {
    forall|k: int|
        #![trigger genes[k]]
        0 <= k < genes.len() ==> genes[k].source.quiet() && genes[k].target.quiet()
}

/// What the node map of [`NetworkGraph::from_genes`] knows: exactly the
/// hidden nodes, each under its id, and no id twice.
spec fn mapped(map: Map<usize, usize>, nodes: Seq<NodeData>) -> bool {
    &&& forall|id: usize| #[trigger] map.contains_key(id) ==> holds(nodes, id, map[id] as int)
    &&& forall|id: usize, i: int| #[trigger] holds(nodes, id, i) ==> map.contains_key(id) && map[id] == i
}

/// Growing by one more gene adds at most two nodes and one connection, and
/// keeps what was there.
pub proof fn lemma_grown_step(base: Seq<NodeData>, genes: Seq<Gene>, k: nat)
    requires
        k < genes.len(),
    ensures
        ({
            let before = grown(base, genes, k);
            let after = grown(base, genes, k + 1);
            &&& before.0.len() <= after.0.len() <= before.0.len() + 2
            &&& after.0.take(before.0.len() as int) == before.0
            &&& after.1.len() == before.1.len() + 1
            &&& after.1.take(before.1.len() as int) == before.1
            &&& forall|i: int|
                before.0.len() <= i < after.0.len() ==> (#[trigger] after.0[i]).kind
                    == NodeKind::Hidden && (after.0[i] == genes[k as int].source || after.0[i]
                    == genes[k as int].target)
        }),
{
    let before = grown(base, genes, k);
    let after = grown(base, genes, k + 1);
    let gene = genes[k as int];
    let with_source = seated(before.0, gene.source);
    assert(after.0 == seated(with_source, gene.target));
    assert(after.0.take(before.0.len() as int) =~= before.0);
    assert(after.1.take(before.1.len() as int) =~= before.1);
}

/// The size of what has grown.
pub proof fn lemma_grown_size(base: Seq<NodeData>, genes: Seq<Gene>, k: nat)
    requires
        k <= genes.len(),
    ensures
        base.len() <= grown(base, genes, k).0.len() <= base.len() + 2 * k,
        grown(base, genes, k).1.len() == k,
    decreases k,
{
    if k > 0 {
        lemma_grown_size(base, genes, (k - 1) as nat);
        lemma_grown_step(base, genes, (k - 1) as nat);
    }
}

impl NetworkGraph {
    /// The connection gene at `e` with the genes of its two nodes.
    pub open spec fn gene_at(&self, e: int) -> Gene {
        Gene {
            source: self.nodes()[self.links()[e].source],
            target: self.nodes()[self.links()[e].target],
            data: self.links()[e].data,
        }
    }

    /// The connection gene at `index` with the genes of the two nodes it
    /// joins.
    pub fn endpoints(&self, index: usize) -> (gene: Gene)
        requires
            self.shaped(),
            index < self.links().len(),
        ensures
            gene == self.gene_at(index as int),
    {
        let ends = self.edge_endpoints(index);
        Gene { source: self.node(ends.0), target: self.node(ends.1), data: self.edge(index) }
    }

    /// The genome with `input_number` inputs and `output_number` outputs that
    /// holds the connections `genes`, in their order. Hidden nodes are told
    /// apart by their ids: each id gets one node, which copies the node gene
    /// that first named it.
    pub fn from_genes(input_number: usize, output_number: usize, genes: &Vec<Gene>) -> (network:
        Self)
        requires
            input_number + output_number + 1 + 2 * genes@.len() <= u32::MAX,
            fitting(genes@, input_number as nat, output_number as nat),
        ensures
            network.inputs() == input_number,
            network.outputs() == output_number,
            network.nodes() == grown(
                default_nodes(input_number as nat, output_number as nat),
                genes@,
                genes@.len(),
            ).0,
            network.links() == grown(
                default_nodes(input_number as nat, output_number as nat),
                genes@,
                genes@.len(),
            ).1,
            network.cached() is None,
            network.shaped(),
            calm(genes@) ==> network.quiet(),
    {
        let mut network = NetworkGraph::new_disconnected(input_number, output_number);
        let ghost base = default_nodes(input_number as nat, output_number as nat);
        let mut node_map: HashMap<usize, usize> = HashMap::new();
        let mut k: usize = 0;
        while k < genes.len()
            invariant
                k <= genes@.len(),
                input_number + output_number + 1 + 2 * genes@.len() <= u32::MAX,
                fitting(genes@, input_number as nat, output_number as nat),
                base == default_nodes(input_number as nat, output_number as nat),
                network.inputs() == input_number,
                network.outputs() == output_number,
                network.nodes() == grown(base, genes@, k as nat).0,
                network.links() == grown(base, genes@, k as nat).1,
                network.cached() is None,
                network.shaped(),
                calm(genes@) ==> network.quiet(),
                mapped(node_map@, network.nodes()),
            decreases genes@.len() - k,
        {
            proof {
                lemma_grown_size(base, genes@, k as nat);
            }
            let gene = genes[k];
            let ghost before = network.nodes();
            let source_index = network.seat_node(&mut node_map, &gene.source);
            let ghost between = network.nodes();
            let target_index = network.seat_node(&mut node_map, &gene.target);
            network.push_link(source_index, target_index, gene.data);
            k += 1;
        }
        network
    }

    /// Finds the index of `data` in the genome under construction, appending
    /// a hidden node whose id is new.
    fn seat_node(&mut self, node_map: &mut HashMap<usize, usize>, data: &NodeData) -> (index: usize)
        requires
            old(self).shaped(),
            old(self).nodes().len() < u32::MAX,
            old(self).cached() is None,
            mapped(old(node_map)@, old(self).nodes()),
            data.kind != NodeKind::Hidden ==> data.id <= old(self).inputs() + old(self).outputs(),
        ensures
            index == seat(old(self).nodes(), *data),
            index < final(self).nodes().len(),
            final(self).nodes() == seated(old(self).nodes(), *data),
            final(self).links() == old(self).links(),
            final(self).inputs() == old(self).inputs(),
            final(self).outputs() == old(self).outputs(),
            final(self).cached() is None,
            final(self).shaped(),
            old(self).quiet() && data.quiet() ==> final(self).quiet(),
            mapped(final(node_map)@, final(self).nodes()),
    {
        if data.kind() != NodeKind::Hidden {
            return data.id();
        }
        let found = match node_map.get(&data.id()) {
            Some(i) => Some(*i),
            None => None,
        };
        match found {
            Some(i) => {
                proof {
                    let c = choose|c: int| holds(old(self).nodes(), data.id, c);
                    assert(holds(old(self).nodes(), data.id, i as int));
                }
                i
            },
            None => {
                proof {
                    if known(old(self).nodes(), data.id) {
                        let c = choose|c: int| holds(old(self).nodes(), data.id, c);
                        assert(node_map@.contains_key(data.id));
                    }
                }
                let index = self.push_node(*data);
                node_map.insert(data.id(), index);
                proof {
                    let nodes = self.nodes();
                    assert forall|id: usize| #[trigger]
                        node_map@.contains_key(id) implies holds(nodes, id, node_map@[id] as int) by {
                        if id != data.id {
                            assert(holds(old(self).nodes(), id, old(node_map)@[id] as int));
                        }
                    }
                    assert forall|id: usize, i: int| #[trigger] holds(nodes, id, i) implies node_map@.contains_key(
                        id,
                    ) && node_map@[id] == i by {
                        if i < old(self).nodes().len() {
                            assert(holds(old(self).nodes(), id, i));
                        }
                    }
                }
                index
            },
        }
    }
}

} // verus!
