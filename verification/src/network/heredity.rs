//! What a child genome keeps of its parents.
use vstd::prelude::*;
use crate::innovation_record::InnovationRecord;
use crate::network::alignment::{
    aligned, distance, gap_added, gap_sum, lemma_aligned_sound, lemma_first_free, mismatch_share,
};
use crate::network::crossover::{from_genes, lemma_grown_sound};
use crate::network::network_graph::{default_nodes, kind_at, NetworkGraph};
use crate::network::paths::{lemma_link_reaches, lemma_simulation_acyclic, reaches};
use crate::network::store::Link;
use crate::node_kind::NodeKind;
use crate::scalar::{difference_of, number_of, product_of, quotient_of, sum_of, Arithmetic, Scalar};

verus! {

/// `ops` treats zero as double-precision arithmetic does where the weights
/// `c1` and `c2` are numbers and not negative: it counts nothing as zero,
/// adds zero and zero to zero, multiplies zero by `c1` and by `c2` to zero,
/// and divides zero by the number for `n` to zero.
pub open spec fn plain_at_zero<A: Arithmetic>(ops: &A, n: usize, c1: Scalar, c2: Scalar) -> bool {
    &&& forall|r: Scalar| #[trigger] number_of(ops, 0, r) ==> r == Scalar::zero()
    &&& forall|r: Scalar| #[trigger]
        sum_of(ops, Scalar::zero(), Scalar::zero(), r) ==> r == Scalar::zero()
    &&& forall|r: Scalar| #[trigger] product_of(ops, Scalar::zero(), c1, r) ==> r == Scalar::zero()
    &&& forall|r: Scalar| #[trigger] product_of(ops, Scalar::zero(), c2, r) ==> r == Scalar::zero()
    &&& forall|size: Scalar, r: Scalar|
        number_of(ops, n, size) && #[trigger] quotient_of(ops, Scalar::zero(), size, r) ==> r
            == Scalar::zero()
}

/// Under `ops`, each weight in `weights` taken from itself leaves a zero, of
/// either sign, as double-precision arithmetic does for every finite weight.
pub open spec fn cancelling<A: Arithmetic>(ops: &A, weights: Seq<(Scalar, Scalar)>) -> bool {
    forall|k: int, r: Scalar|
        0 <= k < weights.len() && #[trigger] difference_of(ops, weights[k].0, weights[k].0, r)
            ==> r.magnitude() == 0
}

/// Where every pair holds one weight twice, and each weight taken from
/// itself leaves zero, the absolute differences sum to zero.
pub proof fn lemma_no_gap<A: Arithmetic>(ops: &A, weights: Seq<(Scalar, Scalar)>, k: nat, w: Scalar)
    requires
        k <= weights.len(),
        forall|j: int| 0 <= j < weights.len() ==> (#[trigger] weights[j]).0 == weights[j].1,
        cancelling(ops, weights),
        forall|r: Scalar| #[trigger]
            sum_of(ops, Scalar::zero(), Scalar::zero(), r) ==> r == Scalar::zero(),
        gap_sum(ops, weights, k, w),
    ensures
        w == Scalar::zero(),
    decreases k,
{
    if k > 0 {
        let before = choose|before: Scalar|
            gap_sum(ops, weights, (k - 1) as nat, before) && #[trigger] gap_added(
                ops,
                weights[k - 1],
                before,
                w,
            );
        lemma_no_gap(ops, weights, (k - 1) as nat, before);
        let pair = weights[k - 1];
        let gap = choose|gap: Scalar| #[trigger]
            difference_of(ops, pair.0, pair.1, gap) && sum_of(ops, before, gap.absolute(), w);
        assert(pair.0 == pair.1);
        assert(difference_of(ops, weights[k - 1].0, weights[k - 1].0, gap));
        assert(gap.magnitude() == 0);
        assert(gap.absolute() == Scalar::zero());
    }
}

/// Aligned with itself, a sequence of connections pairs each connection with
/// itself.
pub proof fn lemma_aligned_self(a: Seq<Link>, k: nat)
    requires
        k <= a.len(),
        a.len() <= usize::MAX,
    ensures
        aligned(a, a, k).matching == Seq::new(k, |i: int| (i as usize, i as usize)),
        aligned(a, a, k).mine == Seq::<usize>::empty(),
        aligned(a, a, k).theirs == Seq::new((a.len() - k) as nat, |j: int| (k + j) as usize),
    decreases k,
{
    if k == 0 {
        assert(aligned(a, a, k).matching =~= Seq::new(k, |i: int| (i as usize, i as usize)));
        assert(aligned(a, a, k).theirs =~= Seq::new(
            (a.len() - k) as nat,
            |j: int| (k + j) as usize,
        ));
    } else {
        lemma_aligned_self(a, (k - 1) as nat);
        let before = aligned(a, a, (k - 1) as nat);
        let innov = a[k - 1].data.innov_number;
        assert(before.theirs[0] == (k - 1) as usize);
        lemma_first_free(a, before.theirs, innov, 0);
        let after = aligned(a, a, k);
        assert(after.matching =~= Seq::new(k, |i: int| (i as usize, i as usize)));
        assert(after.theirs =~= Seq::new((a.len() - k) as nat, |j: int| (k + j) as usize));
    }
}

impl NetworkGraph {
    /// Two genomes of one run carry the same innovation number on every
    /// connection that joins the same two node ids.
    pub proof fn lemma_shared_innovation(
        &self,
        other: &NetworkGraph,
        ledger: &InnovationRecord,
        e: int,
        f: int,
    )
        requires
            self.registered(ledger),
            other.registered(ledger),
            0 <= e < self.links().len(),
            0 <= f < other.links().len(),
            self.source_id(e) == other.source_id(f),
            self.target_id(e) == other.target_id(f),
        ensures
            self.links()[e].data.innov_number == other.links()[f].data.innov_number,
    {
    }

    /// Aligned with itself, a genome has every connection matched with
    /// itself and none left over: the count of connections that differ is
    /// zero, and each pair of weights to compare holds one weight twice.
    pub proof fn lemma_self_alignment(&self)
        requires
            self.links().len() <= usize::MAX,
        ensures
            self.alignment(self).mine.len() == 0,
            self.alignment(self).theirs.len() == 0,
            self.alignment(self).matching == Seq::new(
                self.links().len(),
                |i: int| (i as usize, i as usize),
            ),
    {
        lemma_aligned_self(self.links(), self.links().len());
    }

    /// The distance of a genome from itself is zero: for a genome with at
    /// least one connection, under every arithmetic that treats zero as
    /// double-precision arithmetic does, and under which each weight of the
    /// genome, taken from itself, leaves zero.
    pub proof fn lemma_self_distance<A: Arithmetic>(&self, c1: Scalar, c2: Scalar, ops: &A, d: Scalar)
        requires
            0 < self.links().len() <= usize::MAX,
            plain_at_zero(ops, self.links().len() as usize, c1, c2),
            cancelling(ops, self.paired_weights(self)),
            self.measured(self, c1, c2, ops, d),
        ensures
            d == Scalar::zero(),
    {
        self.lemma_self_alignment();
        let weights = self.paired_weights(self);
        let n = self.links().len() as usize;
        assert(self.mismatches(self) == 0);
        assert(self.larger(self) == n);
        assert(distance(ops, 0, n, weights, c1, c2, d));
        let (w, q, p) = choose|w: Scalar, q: Scalar, p: Scalar|
            #![trigger gap_sum(ops, weights, weights.len(), w), sum_of(ops, q, p, d)]
            gap_sum(ops, weights, weights.len(), w) && mismatch_share(ops, 0, n, c1, q)
                && product_of(ops, w, c2, p) && sum_of(ops, q, p, d);
        assert forall|j: int| 0 <= j < weights.len() implies (#[trigger] weights[j]).0
            == weights[j].1 by {}
        lemma_no_gap(ops, weights, weights.len(), w);
        let (count, scaled, size) = choose|count: Scalar, scaled: Scalar, size: Scalar|
            #![trigger product_of(ops, count, c1, scaled), quotient_of(ops, scaled, size, q)]
            number_of(ops, 0, count) && product_of(ops, count, c1, scaled) && number_of(
                ops,
                n,
                size,
            ) && quotient_of(ops, scaled, size, q);
        assert(count == Scalar::zero());
        assert(scaled == Scalar::zero());
        assert(q == Scalar::zero());
        assert(p == Scalar::zero());
    }

    /// Some connection of this genome leads from the node with id `source`
    /// to the node with id `target`.
    pub open spec fn joins(&self, source: usize, target: usize) -> bool {
        exists|e: int|
            #![trigger self.links()[e]]
            0 <= e < self.links().len() && self.source_id(e) == source && self.target_id(e)
                == target
    }

    /// Every gene that a child takes joins two node ids that the fitter
    /// parent joins too, where both parents belong to the run of one ledger.
    proof fn lemma_genes_of_fitter(
        &self,
        other: &NetworkGraph,
        more_fit: bool,
        picks: Seq<bool>,
        ledger: &InnovationRecord,
    )
        requires
            self.shaped(),
            other.shaped(),
            ledger.wf(),
            self.registered(ledger),
            other.registered(ledger),
        ensures
            forall|k: int|
                #![trigger self.chosen_genes(other, more_fit, picks)[k]]
                0 <= k < self.chosen_genes(other, more_fit, picks).len() ==> if more_fit {
                    self.joins(
                        self.chosen_genes(other, more_fit, picks)[k].source.id,
                        self.chosen_genes(other, more_fit, picks)[k].target.id,
                    )
                } else {
                    other.joins(
                        self.chosen_genes(other, more_fit, picks)[k].source.id,
                        self.chosen_genes(other, more_fit, picks)[k].target.id,
                    )
                },
    {
        let genes = self.chosen_genes(other, more_fit, picks);
        let al = self.alignment(other);
        lemma_aligned_sound(self.links(), other.links(), self.links().len());
        assert forall|k: int| #![trigger genes[k]] 0 <= k < genes.len() implies if more_fit {
            self.joins(genes[k].source.id, genes[k].target.id)
        } else {
            other.joins(genes[k].source.id, genes[k].target.id)
        } by {
            if k < al.matching.len() {
                let pair = al.matching[k];
                let i = pair.0 as int;
                let j = pair.1 as int;
                let mine = self.links()[i];
                let theirs = other.links()[j];
                assert(mine.data.innov_number == theirs.data.innov_number);
                assert(ledger.knows(self.source_id(i), self.target_id(i)));
                assert(ledger.knows(other.source_id(j), other.target_id(j)));
                assert(self.source_id(i) == other.source_id(j) && self.target_id(i)
                    == other.target_id(j));
                assert(genes[k].source.id == self.source_id(i));
                assert(genes[k].target.id == self.target_id(i));
            } else if more_fit {
                let e = al.mine[k - al.matching.len()] as int;
                assert(genes[k] == self.gene_at(e));
                let l = self.links()[e];
            } else {
                let e = al.theirs[k - al.matching.len()] as int;
                assert(genes[k] == other.gene_at(e));
                let l = other.links()[e];
            }
        }
    }

    /// The child of two genomes of one run belongs to that run.
    pub proof fn lemma_child_registered(
        &self,
        other: &NetworkGraph,
        more_fit: bool,
        picks: Seq<bool>,
        child: &NetworkGraph,
        ledger: &InnovationRecord,
    )
        requires
            self.shaped(),
            other.shaped(),
            self.inputs() == other.inputs(),
            self.outputs() == other.outputs(),
            self.registered(ledger),
            other.registered(ledger),
            self.begets(other, more_fit, picks, child),
        ensures
            child.registered(ledger),
    {
        let genes = self.chosen_genes(other, more_fit, picks);
        let inputs = self.inputs();
        let outputs = self.outputs();
        let n = inputs + outputs + 1;
        self.lemma_chosen_genes(other, more_fit, picks);
        lemma_grown_sound(inputs, outputs, genes, genes.len());
        let nodes = child.nodes();
        let links = child.links();
        let base = default_nodes(inputs, outputs);
        assert forall|i: int| 0 <= i < n implies nodes[i] == base[i] by {
            assert(nodes.take(n as int)[i] == nodes[i]);
        }
        // every hidden node of the child copies a hidden node of a parent
        assert forall|i: int| n <= i < nodes.len() implies (#[trigger] nodes[i]).id < ledger.nodes()
            && nodes[i].id > inputs + outputs by {
            assert(from_genes(genes, genes.len(), nodes[i]));
            let g = choose|g: int|
                0 <= g < genes.len() && (#[trigger] genes[g]).source == nodes[i] || 0 <= g
                    < genes.len() && genes[g].target == nodes[i];
            if exists|e: int| 0 <= e < self.links().len() && genes[g] == #[trigger] self.gene_at(e) {
                let e = choose|e: int|
                    0 <= e < self.links().len() && genes[g] == #[trigger] self.gene_at(e);
                self.lemma_hidden_id(self.links()[e].source);
                self.lemma_hidden_id(self.links()[e].target);
            } else {
                let e = choose|e: int|
                    0 <= e < other.links().len() && genes[g] == #[trigger] other.gene_at(e);
                other.lemma_hidden_id(other.links()[e].source);
                other.lemma_hidden_id(other.links()[e].target);
            }
        }
        assert(self.nodes()[(inputs + outputs) as int].id < ledger.nodes());
        assert forall|i: int| 0 <= i < nodes.len() implies (#[trigger] nodes[i]).id
            < ledger.nodes() by {
            if i < n {
                assert(nodes[i] == base[i]);
            }
        }
        assert forall|i: int, j: int| 0 <= i < j < nodes.len() implies (#[trigger] nodes[i]).id != (
        #[trigger] nodes[j]).id by {
            if i < n {
                assert(nodes[i] == base[i]);
            }
            if j < n {
                assert(nodes[j] == base[j]);
            }
        }
        assert forall|e: int| #![trigger child.links()[e]] 0 <= e < child.links().len() implies ledger.knows(
            child.source_id(e),
            child.target_id(e),
        ) && ledger.innovation(child.source_id(e), child.target_id(e))
            == child.links()[e].data.innov_number by {
            assert(links[e].data == genes[e].data);
            if exists|x: int| 0 <= x < self.links().len() && genes[e] == #[trigger] self.gene_at(x) {
                let x = choose|x: int|
                    0 <= x < self.links().len() && genes[e] == #[trigger] self.gene_at(x);
                let l = self.links()[x];
            } else {
                let x = choose|x: int|
                    0 <= x < other.links().len() && genes[e] == #[trigger] other.gene_at(x);
                let l = other.links()[x];
            }
        }
    }

    /// A child has no more connections than the larger of its parents.
    pub proof fn lemma_child_size(
        &self,
        other: &NetworkGraph,
        more_fit: bool,
        picks: Seq<bool>,
        child: &NetworkGraph,
    )
        requires
            self.shaped(),
            other.shaped(),
            self.inputs() == other.inputs(),
            self.outputs() == other.outputs(),
            self.begets(other, more_fit, picks, child),
        ensures
            child.links().len() <= self.links().len() || child.links().len() <= other.links().len(),
    {
        let genes = self.chosen_genes(other, more_fit, picks);
        self.lemma_chosen_genes(other, more_fit, picks);
        crate::network::assembly::lemma_grown_size(
            default_nodes(self.inputs(), self.outputs()),
            genes,
            genes.len(),
        );
    }

    /// In a genome whose ids differ, a hidden node has an id that no input,
    /// output or bias node has.
    pub proof fn lemma_hidden_id(&self, i: int)
        requires
            self.shaped(),
            self.marked(),
            0 <= i < self.nodes().len(),
        ensures
            self.nodes()[i].kind == NodeKind::Hidden ==> self.nodes()[i].id > self.inputs()
                + self.outputs(),
            self.nodes()[i].kind != NodeKind::Hidden ==> self.nodes()[i].id == i,
    {
        let node = self.nodes()[i];
        assert(node.kind == kind_at(self.inputs(), self.outputs(), i));
        if node.kind == NodeKind::Hidden && node.id <= self.inputs() + self.outputs() {
            let j = node.id as int;
            assert(self.nodes()[j].id == j);
        }
    }

    /// The child of two genomes of one run has no cycle where the fitter
    /// parent has none.
    pub proof fn lemma_child_acyclic(
        &self,
        other: &NetworkGraph,
        more_fit: bool,
        picks: Seq<bool>,
        child: &NetworkGraph,
        ledger: &InnovationRecord,
    )
        requires
            self.shaped(),
            other.shaped(),
            self.inputs() == other.inputs(),
            self.outputs() == other.outputs(),
            ledger.wf(),
            self.registered(ledger),
            other.registered(ledger),
            self.begets(other, more_fit, picks, child),
            if more_fit {
                self.acyclic()
            } else {
                other.acyclic()
            },
        ensures
            child.acyclic(),
    {
        if more_fit {
            self.lemma_child_follows(other, more_fit, picks, child, ledger, self);
        } else {
            self.lemma_child_follows(other, more_fit, picks, child, ledger, other);
        }
    }

    /// The connections of a child follow connections of the fitter parent,
    /// `fit`, so a cycle in the child would be one in that parent.
    proof fn lemma_child_follows(
        &self,
        other: &NetworkGraph,
        more_fit: bool,
        picks: Seq<bool>,
        child: &NetworkGraph,
        ledger: &InnovationRecord,
        fit: &NetworkGraph,
    )
        requires
            self.shaped(),
            other.shaped(),
            self.inputs() == other.inputs(),
            self.outputs() == other.outputs(),
            ledger.wf(),
            self.registered(ledger),
            other.registered(ledger),
            self.begets(other, more_fit, picks, child),
            more_fit ==> fit == self,
            !more_fit ==> fit == other,
            fit.acyclic(),
        ensures
            child.acyclic(),
    {
        let genes = self.chosen_genes(other, more_fit, picks);
        let inputs = self.inputs();
        let outputs = self.outputs();
        self.lemma_chosen_genes(other, more_fit, picks);
        self.lemma_genes_of_fitter(other, more_fit, picks, ledger);
        lemma_grown_sound(inputs, outputs, genes, genes.len());
        let nodes = child.nodes();
        let links = child.links();
        let f = |v: int|
            choose|i: int| 0 <= i < fit.nodes().len() && (#[trigger] fit.nodes()[i]).id == nodes[v].id;
        assert forall|j: int| #![trigger links[j]] 0 <= j < links.len() implies reaches(
            fit.links(),
            f(links[j].source),
            f(links[j].target),
        ) by {
            let gene = genes[j];
            assert(fit.joins(gene.source.id, gene.target.id));
            let e = choose|e: int|
                #![trigger fit.links()[e]]
                0 <= e < fit.links().len() && fit.source_id(e) == gene.source.id && fit.target_id(e)
                    == gene.target.id;
            let s = fit.links()[e].source;
            let t = fit.links()[e].target;
            assert(nodes[links[j].source].id == gene.source.id);
            assert(nodes[links[j].target].id == gene.target.id);
            assert(0 <= s < fit.nodes().len() && fit.nodes()[s].id == nodes[links[j].source].id);
            assert(0 <= t < fit.nodes().len() && fit.nodes()[t].id == nodes[links[j].target].id);
            let fs = f(links[j].source);
            let ft = f(links[j].target);
            assert(fs == s) by {
                if fs < s {
                    assert(fit.nodes()[fs].id != fit.nodes()[s].id);
                } else if s < fs {
                    assert(fit.nodes()[s].id != fit.nodes()[fs].id);
                }
            }
            assert(ft == t) by {
                if ft < t {
                    assert(fit.nodes()[ft].id != fit.nodes()[t].id);
                } else if t < ft {
                    assert(fit.nodes()[t].id != fit.nodes()[ft].id);
                }
            }
            lemma_link_reaches(fit.links(), e);
        }
        lemma_simulation_acyclic(links, fit.links(), f);
    }

    /// The child of a genome with itself has the connections of that genome:
    /// as many, in the same order, each with the same gene between nodes of
    /// the same two ids. This holds whichever genes the picks choose and
    /// whichever parent counts as fitter.
    pub proof fn lemma_self_crossover(&self, more_fit: bool, picks: Seq<bool>, child: &NetworkGraph)
        requires
            self.shaped(),
            self.begets(self, more_fit, picks, child),
        ensures
            child.links().len() == self.links().len(),
            forall|e: int|
                #![trigger child.links()[e]]
                0 <= e < self.links().len() ==> child.links()[e].data == self.links()[e].data
                    && child.source_id(e) == self.source_id(e) && child.target_id(e)
                    == self.target_id(e),
    {
        let genes = self.chosen_genes(self, more_fit, picks);
        self.lemma_self_alignment();
        self.lemma_chosen_genes(self, more_fit, picks);
        lemma_grown_sound(self.inputs(), self.outputs(), genes, genes.len());
        assert forall|e: int| #![trigger child.links()[e]] 0 <= e < self.links().len() implies child.links()[e].data
            == self.links()[e].data && child.source_id(e) == self.source_id(e) && child.target_id(e)
            == self.target_id(e) by {
            assert(genes[e] == self.gene_at(e));
        }
    }
}

} // verus!
