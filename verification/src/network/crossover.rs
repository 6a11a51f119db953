//! Crossover: a child genome from the connection genes of two parents.
use vstd::prelude::*;
use rand::rngs::StdRng;
use crate::innovation_record::InnovationRecord;
use crate::network::alignment::lemma_aligned_sound;
use crate::network::assembly::{fitting, grown, holds, known, seat, seated, Gene};
use crate::network::network_graph::{default_nodes, kind_at, NetworkGraph};
use crate::network::store::Link;
use crate::node_data::NodeData;
use crate::node_kind::NodeKind;
use crate::random::chance;

verus! {

/// What holds of the nodes and connections that grew from the first `k` of
/// `genes`: the nodes past the first `base` are hidden, come from the genes
/// and differ in their ids; and connection `j` carries the gene of `genes[j]`
/// between two nodes that have the ids of its two node genes.
pub open spec fn grown_sound(
    base: nat,
    nodes: Seq<NodeData>,
    links: Seq<Link>,
    genes: Seq<Gene>,
    k: nat,
) -> bool {
    &&& links.len() == k
    &&& base <= nodes.len()
    &&& forall|i: int|
        base <= i < nodes.len() ==> (#[trigger] nodes[i]).kind == NodeKind::Hidden && from_genes(
            genes,
            k,
            nodes[i],
        )
    &&& forall|i: int, j: int|
        base <= i < j < nodes.len() ==> (#[trigger] nodes[i]).id != (#[trigger] nodes[j]).id
    &&& forall|j: int|
        #![trigger links[j]]
        0 <= j < k ==> 0 <= links[j].source < nodes.len() && 0 <= links[j].target < nodes.len()
            && nodes[links[j].source].id == genes[j].source.id && nodes[links[j].target].id
            == genes[j].target.id && links[j].data == genes[j].data
}

/// `node` is the source or the target of one of the first `k` genes.
pub open spec fn from_genes(genes: Seq<Gene>, k: nat, node: NodeData) -> bool {
    exists|g: int| 0 <= g < k && (#[trigger] genes[g]).source == node || 0 <= g < k && genes[g].target
        == node
}

/// Seating one node gene: where it lands, and what it leaves as it was.
proof fn lemma_seat(inputs: nat, outputs: nat, nodes: Seq<NodeData>, node: NodeData)
    requires
        inputs + outputs + 1 <= nodes.len(),
        nodes.take((inputs + outputs + 1) as int) == default_nodes(inputs, outputs),
        forall|i: int|
            inputs + outputs + 1 <= i < nodes.len() ==> (#[trigger] nodes[i]).kind
                == NodeKind::Hidden,
        forall|i: int, j: int|
            inputs + outputs + 1 <= i < j < nodes.len() ==> (#[trigger] nodes[i]).id != (
            #[trigger] nodes[j]).id,
        node.kind != NodeKind::Hidden ==> node.id <= inputs + outputs,
    ensures
        ({
            let after = seated(nodes, node);
            let at = seat(nodes, node);
            &&& 0 <= at < after.len()
            &&& after[at].id == node.id
            &&& nodes.len() <= after.len() <= nodes.len() + 1
            &&& after.take(nodes.len() as int) == nodes
            &&& after.len() > nodes.len() ==> after[nodes.len() as int] == node && node.kind
                == NodeKind::Hidden
            &&& forall|i: int, j: int|
                inputs + outputs + 1 <= i < j < after.len() ==> (#[trigger] after[i]).id != (
                #[trigger] after[j]).id
        }),
{
    let base = default_nodes(inputs, outputs);
    let after = seated(nodes, node);
    let at = seat(nodes, node);
    assert(after.take(nodes.len() as int) =~= nodes);
    if node.kind != NodeKind::Hidden {
        assert(nodes[node.id as int] == base[node.id as int]);
    } else if known(nodes, node.id) {
        let c = choose|i: int| holds(nodes, node.id, i);
        assert(holds(nodes, node.id, c));
    } else {
        assert forall|i: int, j: int| inputs + outputs + 1 <= i < j < after.len() implies (
        #[trigger] after[i]).id != (#[trigger] after[j]).id by {
            if j == nodes.len() {
                assert(after[i] == nodes[i]);
                if nodes[i].id == node.id {
                    assert(holds(nodes, node.id, i));
                }
            }
        }
    }
}

/// What grows from the default nodes of a genome is sound.
pub proof fn lemma_grown_sound(inputs: nat, outputs: nat, genes: Seq<Gene>, k: nat)
    requires
        k <= genes.len(),
        fitting(genes, inputs, outputs),
    ensures
        ({
            let g = grown(default_nodes(inputs, outputs), genes, k);
            &&& g.0.take((inputs + outputs + 1) as int) == default_nodes(inputs, outputs)
            &&& grown_sound(inputs + outputs + 1, g.0, g.1, genes, k)
        }),
    decreases k,
{
    let base = default_nodes(inputs, outputs);
    let n = inputs + outputs + 1;
    if k == 0 {
        assert(base.take(n as int) =~= base);
    } else {
        lemma_grown_sound(inputs, outputs, genes, (k - 1) as nat);
        let before = grown(base, genes, (k - 1) as nat);
        let gene = genes[k - 1];
        let seen = (k - 1) as nat;
        lemma_seat(inputs, outputs, before.0, gene.source);
        let mid = seated(before.0, gene.source);
        assert(mid.take(n as int) =~= base) by {
            assert(mid.take(before.0.len() as int) == before.0);
            assert forall|i: int| 0 <= i < n implies mid.take(n as int)[i] == base[i] by {
                assert(mid.take(before.0.len() as int)[i] == mid[i]);
                assert(before.0.take(n as int)[i] == before.0[i]);
            }
        }
        assert forall|i: int| n <= i < mid.len() implies (#[trigger] mid[i]).kind
            == NodeKind::Hidden by {
            if i < before.0.len() {
                assert(mid.take(before.0.len() as int)[i] == mid[i]);
            }
        }
        lemma_seat(inputs, outputs, mid, gene.target);
        let after = grown(base, genes, k);
        let nodes = after.0;
        let links = after.1;
        assert(nodes == seated(mid, gene.target));
        assert(nodes.take(n as int) =~= base) by {
            assert forall|i: int| 0 <= i < n implies nodes.take(n as int)[i] == base[i] by {
                assert(nodes.take(mid.len() as int)[i] == nodes[i]);
                assert(mid.take(n as int)[i] == mid[i]);
            }
        }
        assert forall|i: int| 0 <= i < before.0.len() implies nodes[i] == before.0[i] by {
            assert(nodes.take(mid.len() as int)[i] == nodes[i]);
            assert(mid.take(before.0.len() as int)[i] == mid[i]);
        }
        assert forall|i: int| 0 <= i < mid.len() implies nodes[i] == mid[i] by {
            assert(nodes.take(mid.len() as int)[i] == nodes[i]);
        }
        assert forall|i: int| n <= i < nodes.len() implies (#[trigger] nodes[i]).kind
            == NodeKind::Hidden && from_genes(genes, k, nodes[i]) by {
            if i < before.0.len() {
                assert(nodes[i] == before.0[i]);
                assert(from_genes(genes, seen, before.0[i]));
                let g = choose|g: int|
                    0 <= g < seen && (#[trigger] genes[g]).source == before.0[i] || 0 <= g
                        < seen && genes[g].target == before.0[i];
                assert(0 <= g < k && genes[g].source == nodes[i] || 0 <= g < k && genes[g].target
                    == nodes[i]);
            } else if i < mid.len() {
                assert(nodes[i] == mid[i]);
                assert(mid[i] == gene.source);
                assert(genes[k - 1].source == nodes[i]);
            } else {
                assert(nodes[i] == gene.target);
                assert(genes[k - 1].target == nodes[i]);
            }
        }
        assert forall|j: int| #![trigger links[j]] 0 <= j < k implies 0 <= links[j].source
            < nodes.len() && 0 <= links[j].target < nodes.len() && nodes[links[j].source].id
            == genes[j].source.id && nodes[links[j].target].id == genes[j].target.id
            && links[j].data == genes[j].data by {
            if j < k - 1 {
                assert(links[j] == before.1[j]);
                assert(nodes[before.1[j].source] == before.0[before.1[j].source]);
                assert(nodes[before.1[j].target] == before.0[before.1[j].target]);
            } else {
                let s = seat(before.0, gene.source);
                assert(nodes[s] == mid[s]);
            }
        }
    }
}

/// What `child` has from its parents `a` and `b`, whatever was picked: where
/// both parents belong to the run of a ledger, the child belongs to it too;
/// and where moreover the ledger is well formed and the fitter parent has no
/// cycle, the child has none. `more_fit` says that `a` is the fitter parent.
pub open spec fn inherits(
    a: &NetworkGraph,
    b: &NetworkGraph,
    more_fit: bool,
    child: &NetworkGraph,
) -> bool {
    forall|ledger: InnovationRecord| #[trigger]
        a.registered(&ledger) && b.registered(&ledger) ==> child.registered(&ledger) && (
        ledger.wf() && (if more_fit {
            a.acyclic()
        } else {
            b.acyclic()
        }) ==> child.acyclic())
}

impl NetworkGraph {
    /// The genes that a child of this genome and `other` takes: of each
    /// matching pair the gene of this genome where the pick says so, else
    /// that of `other` (a missing pick counts as "no"); then the genes that
    /// only the fitter parent has. `more_fit` says that this genome is the
    /// fitter one.
    pub open spec fn chosen_genes(
        &self,
        other: &NetworkGraph,
        more_fit: bool,
        picks: Seq<bool>,
    ) -> Seq<Gene> {
        let al = self.alignment(other);
        Seq::new(
            al.matching.len(),
            |k: int|
                if k < picks.len() && picks[k] {
                    self.gene_at(al.matching[k].0 as int)
                } else {
                    other.gene_at(al.matching[k].1 as int)
                },
        ) + if more_fit {
            Seq::new(al.mine.len(), |k: int| self.gene_at(al.mine[k] as int))
        } else {
            Seq::new(al.theirs.len(), |k: int| other.gene_at(al.theirs[k] as int))
        }
    }

    /// `child` is the child of this genome and `other` under the given
    /// picks: its nodes and connections are what grows from the chosen genes.
    pub open spec fn begets(
        &self,
        other: &NetworkGraph,
        more_fit: bool,
        picks: Seq<bool>,
        child: &NetworkGraph,
    ) -> bool {
        let genes = self.chosen_genes(other, more_fit, picks);
        let g = grown(default_nodes(self.inputs(), self.outputs()), genes, genes.len());
        &&& child.inputs() == self.inputs()
        &&& child.outputs() == self.outputs()
        &&& child.nodes() == g.0
        &&& child.links() == g.1
    }

    /// The genes of a genome in shape fit a genome of its size.
    pub proof fn lemma_gene_fits(&self, e: int)
        requires
            self.shaped(),
            0 <= e < self.links().len(),
        ensures
            self.gene_at(e).source.kind != NodeKind::Hidden ==> self.gene_at(e).source.id
                <= self.inputs() + self.outputs(),
            self.gene_at(e).target.kind != NodeKind::Hidden ==> self.gene_at(e).target.id
                <= self.inputs() + self.outputs(),
            self.gene_at(e).source.id == self.source_id(e),
            self.gene_at(e).target.id == self.target_id(e),
    {
        let s = self.links()[e].source;
        let t = self.links()[e].target;
        assert(self.nodes()[s].kind == kind_at(self.inputs(), self.outputs(), s));
        assert(self.nodes()[t].kind == kind_at(self.inputs(), self.outputs(), t));
    }

    /// The chosen genes come from the two parents.
    pub proof fn lemma_chosen_genes(&self, other: &NetworkGraph, more_fit: bool, picks: Seq<bool>)
        requires
            self.shaped(),
            other.shaped(),
            self.inputs() == other.inputs(),
            self.outputs() == other.outputs(),
        ensures
            ({
                let genes = self.chosen_genes(other, more_fit, picks);
                let al = self.alignment(other);
                &&& genes.len() == al.matching.len() + if more_fit {
                    al.mine.len()
                } else {
                    al.theirs.len()
                }
                &&& genes.len() <= self.links().len() || genes.len() <= other.links().len()
                &&& fitting(genes, self.inputs(), self.outputs())
                &&& forall|k: int|
                    #![trigger genes[k]]
                    0 <= k < genes.len() ==> (exists|e: int|
                        0 <= e < self.links().len() && genes[k] == #[trigger] self.gene_at(e)) || (
                    exists|e: int|
                        0 <= e < other.links().len() && genes[k] == #[trigger] other.gene_at(e))
            }),
    {
        let genes = self.chosen_genes(other, more_fit, picks);
        let al = self.alignment(other);
        lemma_aligned_sound(self.links(), other.links(), self.links().len());
        assert forall|k: int| #![trigger genes[k]] 0 <= k < genes.len() implies ((exists|e: int|
            0 <= e < self.links().len() && genes[k] == #[trigger] self.gene_at(e)) || (exists|
            e: int,
        |
            0 <= e < other.links().len() && genes[k] == #[trigger] other.gene_at(e))) && (
        genes[k].source.kind != NodeKind::Hidden ==> genes[k].source.id <= self.inputs()
            + self.outputs()) && (genes[k].target.kind != NodeKind::Hidden ==> genes[k].target.id
            <= self.inputs() + self.outputs()) by {
            if k < al.matching.len() {
                let pair = al.matching[k];
                if k < picks.len() && picks[k] {
                    assert(genes[k] == self.gene_at(pair.0 as int));
                    self.lemma_gene_fits(pair.0 as int);
                } else {
                    assert(genes[k] == other.gene_at(pair.1 as int));
                    other.lemma_gene_fits(pair.1 as int);
                }
            } else if more_fit {
                let e = al.mine[k - al.matching.len()];
                assert(genes[k] == self.gene_at(e as int));
                self.lemma_gene_fits(e as int);
            } else {
                let e = al.theirs[k - al.matching.len()];
                assert(genes[k] == other.gene_at(e as int));
                other.lemma_gene_fits(e as int);
            }
        }
    }

    /// The child of this genome and `other`, for picks that are given.
    /// There is no child where the two differ in their numbers of inputs or
    /// outputs.
    pub fn crossover_with(&self, other: &NetworkGraph, more_fit: bool, picks: &Vec<bool>) -> (child:
        Option<NetworkGraph>)
        requires
            self.shaped(),
            other.shaped(),
            self.inputs() + self.outputs() + 1 + 2 * self.links().len() <= u32::MAX,
            other.inputs() + other.outputs() + 1 + 2 * other.links().len() <= u32::MAX,
        ensures
            child is None <==> self.inputs() != other.inputs() || self.outputs() != other.outputs(),
            child matches Some(c) ==> self.begets(other, more_fit, picks@, &c) && c.shaped()
                && c.cached() is None && (self.quiet() && other.quiet() ==> c.quiet()),
            child matches Some(c) ==> inherits(self, other, more_fit, &c),
    {
        if self.input_number() != other.input_number() || self.output_number()
            != other.output_number() {
            return None;
        }
        let (matching, mine, theirs) = self.union_difference(other);
        let ghost al = self.alignment(other);
        let ghost wanted = self.chosen_genes(other, more_fit, picks@);
        proof {
            lemma_aligned_sound(self.links(), other.links(), self.links().len());
            self.lemma_chosen_genes(other, more_fit, picks@);
        }
        let mut genes: Vec<Gene> = Vec::new();
        let mut k: usize = 0;
        while k < matching.len()
            invariant
                k <= matching.len(),
                self.shaped(),
                other.shaped(),
                matching@ == al.matching,
                al == self.alignment(other),
                wanted == self.chosen_genes(other, more_fit, picks@),
                forall|i: int|
                    0 <= i < matching@.len() ==> (#[trigger] matching@[i]).0 < self.links().len()
                        && matching@[i].1 < other.links().len(),
                genes@ == wanted.take(k as int),
                wanted.len() >= matching@.len(),
            decreases matching.len() - k,
        {
            let pair = matching[k];
            let gene = if k < picks.len() && picks[k] {
                self.endpoints(pair.0)
            } else {
                other.endpoints(pair.1)
            };
            genes.push(gene);
            assert(genes@ =~= wanted.take(k + 1));
            k += 1;
        }
        if more_fit {
            let mut i: usize = 0;
            while i < mine.len()
                invariant
                    i <= mine.len(),
                    self.shaped(),
                    more_fit,
                    mine@ == al.mine,
                    al == self.alignment(other),
                    wanted == self.chosen_genes(other, more_fit, picks@),
                    forall|j: int| 0 <= j < mine@.len() ==> (#[trigger] mine@[j]) < self.links().len(),
                    genes@ == wanted.take(al.matching.len() + i),
                    wanted.len() == al.matching.len() + mine@.len(),
                decreases mine.len() - i,
            {
                genes.push(self.endpoints(mine[i]));
                assert(genes@ =~= wanted.take(al.matching.len() + i + 1));
                i += 1;
            }
        } else {
            let mut i: usize = 0;
            while i < theirs.len()
                invariant
                    i <= theirs.len(),
                    other.shaped(),
                    !more_fit,
                    theirs@ == al.theirs,
                    al == self.alignment(other),
                    wanted == self.chosen_genes(other, more_fit, picks@),
                    forall|j: int|
                        0 <= j < theirs@.len() ==> (#[trigger] theirs@[j]) < other.links().len(),
                    genes@ == wanted.take(al.matching.len() + i),
                    wanted.len() == al.matching.len() + theirs@.len(),
                decreases theirs.len() - i,
            {
                genes.push(other.endpoints(theirs[i]));
                assert(genes@ =~= wanted.take(al.matching.len() + i + 1));
                i += 1;
            }
        }
        proof {
            assert(genes@ =~= wanted);
            self.lemma_chosen_genes(other, more_fit, picks@);
            if self.quiet() && other.quiet() {
                assert forall|k: int| #![trigger genes@[k]] 0 <= k < genes@.len() implies genes@[k].source.quiet()
                    && genes@[k].target.quiet() by {
                    if exists|e: int|
                        0 <= e < self.links().len() && genes@[k] == #[trigger] self.gene_at(e) {
                        let e = choose|e: int|
                            0 <= e < self.links().len() && genes@[k] == #[trigger] self.gene_at(e);
                        assert(self.nodes()[self.links()[e].source].quiet());
                        assert(self.nodes()[self.links()[e].target].quiet());
                    } else {
                        let e = choose|e: int|
                            0 <= e < other.links().len() && genes@[k] == #[trigger] other.gene_at(e);
                        assert(other.nodes()[other.links()[e].source].quiet());
                        assert(other.nodes()[other.links()[e].target].quiet());
                    }
                }
            }
        }
        let child = NetworkGraph::from_genes(self.input_number(), self.output_number(), &genes);
        proof {
            assert forall|ledger: InnovationRecord| #[trigger]
                self.registered(&ledger) && other.registered(&ledger) implies child.registered(
                &ledger,
            ) && (ledger.wf() && (if more_fit {
                self.acyclic()
            } else {
                other.acyclic()
            }) ==> child.acyclic()) by {
                self.lemma_child_registered(other, more_fit, picks@, &child, &ledger);
                if ledger.wf() && (if more_fit {
                    self.acyclic()
                } else {
                    other.acyclic()
                }) {
                    self.lemma_child_acyclic(other, more_fit, picks@, &child, &ledger);
                }
            }
        }
        Some(child)
    }

    /// A child of this genome and `other`. Of each pair of matching genes a
    /// fair coin picks one; the genes that only one parent has are taken
    /// from the fitter parent and dropped from the other. `more_fit` says
    /// that this genome is the fitter one. There is no child where the two
    /// differ in their numbers of inputs or outputs.
    pub fn crossover(&self, other: &NetworkGraph, more_fit: bool, rng: &mut StdRng) -> (child:
        Option<NetworkGraph>)
        requires
            self.shaped(),
            other.shaped(),
            self.inputs() + self.outputs() + 1 + 2 * self.links().len() <= u32::MAX,
            other.inputs() + other.outputs() + 1 + 2 * other.links().len() <= u32::MAX,
        ensures
            child is None <==> self.inputs() != other.inputs() || self.outputs() != other.outputs(),
            child matches Some(c) ==> c.shaped() && c.cached() is None && (self.quiet()
                && other.quiet() ==> c.quiet()) && exists|picks: Seq<bool>| #[trigger]
                self.begets(other, more_fit, picks, &c),
            child matches Some(c) ==> inherits(self, other, more_fit, &c),
    {
        let count = self.matching_count(other);
        let mut picks: Vec<bool> = Vec::new();
        let mut k: usize = 0;
        while k < count
            invariant
                k <= count,
            decreases count - k,
        {
            picks.push(chance(rng, 1, 2));
            k += 1;
        }
        self.crossover_with(other, more_fit, &picks)
    }

    /// The number of pairs of matching genes of this genome and `other`.
    pub fn matching_count(&self, other: &NetworkGraph) -> (count: usize)
        ensures
            count == self.alignment(other).matching.len(),
    {
        let (matching, _mine, _theirs) = self.union_difference(other);
        matching.len()
    }
}

} // verus!
