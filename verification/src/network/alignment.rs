//! Lining up the connection genes of two genomes by innovation number.
use vstd::prelude::*;
use crate::network::network_graph::NetworkGraph;
use crate::network::store::Link;
use crate::scalar::{
    difference_of, number_of, product_of, quotient_of, sum_of, Arithmetic, Scalar,
};

verus! {

/// What two genomes have in common and what each has alone, told by the
/// indices of their connections.
pub struct Alignment {
    /// The pairs with one innovation number: first the index in the first
    /// genome, then the index in the second.
    pub matching: Seq<(usize, usize)>,
    /// The connections of the first genome that found no partner.
    pub mine: Seq<usize>,
    /// The connections of the second genome that no connection of the first
    /// took.
    pub theirs: Seq<usize>,
}

/// The place in `free` of the first connection of `b` that carries the
/// number `innov`; `free.len()` where there is none.
pub open spec fn first_free(b: Seq<Link>, free: Seq<usize>, innov: usize) -> int
    decreases free.len(),
{
    if free.len() == 0 {
        0
    } else if b[free[0] as int].data.innov_number == innov {
        0
    } else {
        1 + first_free(b, free.drop_first(), innov)
    }
}

/// The alignment of the first `k` connections of `a` with the connections of
/// `b`. The connections of `a` are taken in order; each takes the first
/// connection of `b` with its innovation number that is still free, or stays
/// alone where there is none.
pub open spec fn aligned(a: Seq<Link>, b: Seq<Link>, k: nat) -> Alignment
    decreases k,
{
    if k == 0 {
        Alignment {
            matching: Seq::empty(),
            mine: Seq::empty(),
            theirs: Seq::new(b.len(), |j: int| j as usize),
        }
    } else {
        let before = aligned(a, b, (k - 1) as nat);
        let at = first_free(b, before.theirs, a[k - 1].data.innov_number);
        if at < before.theirs.len() {
            Alignment {
                matching: before.matching.push(((k - 1) as usize, before.theirs[at])),
                mine: before.mine,
                theirs: before.theirs.remove(at),
            }
        } else {
            Alignment { mine: before.mine.push((k - 1) as usize), ..before }
        }
    }
}

/// Where no connection before place `at` of `free` carries `innov`, and the
/// one at `at` does or `free` ends there, `at` is the first such place.
pub proof fn lemma_first_free(b: Seq<Link>, free: Seq<usize>, innov: usize, at: int)
    requires
        0 <= at <= free.len(),
        forall|k: int| 0 <= k < at ==> b[(#[trigger] free[k]) as int].data.innov_number != innov,
        at < free.len() ==> b[free[at] as int].data.innov_number == innov,
    ensures
        first_free(b, free, innov) == at,
    decreases free.len(),
{
    if at > 0 {
        let rest = free.drop_first();
        assert forall|k: int| 0 <= k < at - 1 implies b[(#[trigger] rest[k]) as int].data.innov_number
            != innov by {
            assert(rest[k] == free[k + 1]);
        }
        assert(b[free[0] as int].data.innov_number != innov);
        lemma_first_free(b, rest, innov, at - 1);
    }
}

/// Every index in an alignment names a connection, the lists of one genome
/// share no index, every pair joins equal innovation numbers, and an index
/// that is left over is left over for good.
pub proof fn lemma_aligned_sound(a: Seq<Link>, b: Seq<Link>, k: nat)
    requires
        k <= a.len(),
        a.len() <= usize::MAX,
        b.len() <= usize::MAX,
    ensures
        ({
            let al = aligned(a, b, k);
            &&& al.matching.len() + al.mine.len() == k
            &&& al.matching.len() + al.theirs.len() == b.len()
            &&& forall|i: int|
                0 <= i < al.matching.len() ==> (#[trigger] al.matching[i]).0 < k && al.matching[i].1
                    < b.len() && a[al.matching[i].0 as int].data.innov_number
                    == b[al.matching[i].1 as int].data.innov_number
            &&& forall|i: int| 0 <= i < al.mine.len() ==> (#[trigger] al.mine[i]) < k
            &&& forall|i: int| 0 <= i < al.theirs.len() ==> (#[trigger] al.theirs[i]) < b.len()
            &&& forall|i: int, j: int|
                0 <= i < j < al.theirs.len() ==> (#[trigger] al.theirs[i]) < (
                #[trigger] al.theirs[j])
            &&& forall|i: int, j: int|
                0 <= i < al.matching.len() && 0 <= j < al.theirs.len() ==> (
                #[trigger] al.matching[i]).1 != (#[trigger] al.theirs[j])
        }),
    decreases k,
{
    if k > 0 {
        lemma_aligned_sound(a, b, (k - 1) as nat);
        let before = aligned(a, b, (k - 1) as nat);
        let innov = a[k - 1].data.innov_number;
        let at = first_free(b, before.theirs, innov);
        lemma_first_free_found(b, before.theirs, innov);
        let al = aligned(a, b, k);
        if at < before.theirs.len() {
            assert forall|i: int| 0 <= i < al.matching.len() implies (#[trigger] al.matching[i]).0 < k
                && al.matching[i].1 < b.len() && a[al.matching[i].0 as int].data.innov_number
                == b[al.matching[i].1 as int].data.innov_number by {
                if i < before.matching.len() {
                    assert(al.matching[i] == before.matching[i]);
                }
            }
            assert forall|i: int| 0 <= i < al.theirs.len() implies (#[trigger] al.theirs[i])
                < b.len() by {
                assert(al.theirs[i] == before.theirs[if i < at { i } else { i + 1 }]);
            }
            assert forall|i: int, j: int| 0 <= i < j < al.theirs.len() implies (
            #[trigger] al.theirs[i]) < (#[trigger] al.theirs[j]) by {
                assert(al.theirs[i] == before.theirs[if i < at { i } else { i + 1 }]);
                assert(al.theirs[j] == before.theirs[if j < at { j } else { j + 1 }]);
            }
            assert forall|i: int, j: int|
                0 <= i < al.matching.len() && 0 <= j < al.theirs.len() implies (
            #[trigger] al.matching[i]).1 != (#[trigger] al.theirs[j]) by {
                let jj = if j < at { j } else { j + 1 };
                assert(al.theirs[j] == before.theirs[jj]);
                if i < before.matching.len() {
                    assert(al.matching[i] == before.matching[i]);
                } else {
                    assert(al.matching[i].1 == before.theirs[at]);
                    if jj < at {
                        assert(before.theirs[jj] < before.theirs[at]);
                    } else {
                        assert(before.theirs[at] < before.theirs[jj]);
                    }
                }
            }
        } else {
            assert forall|i: int| 0 <= i < al.mine.len() implies (#[trigger] al.mine[i]) < k by {
                if i < before.mine.len() {
                    assert(al.mine[i] == before.mine[i]);
                }
            }
        }
    }
}

/// What `first_free` finds carries the number asked for.
pub proof fn lemma_first_free_found(b: Seq<Link>, free: Seq<usize>, innov: usize)
    ensures
        0 <= first_free(b, free, innov) <= free.len(),
        first_free(b, free, innov) < free.len() ==> b[free[first_free(
            b,
            free,
            innov,
        )] as int].data.innov_number == innov,
        forall|k: int|
            0 <= k < first_free(b, free, innov) ==> b[(#[trigger] free[k]) as int].data.innov_number
                != innov,
    decreases free.len(),
{
    if free.len() > 0 && b[free[0] as int].data.innov_number != innov {
        let rest = free.drop_first();
        lemma_first_free_found(b, rest, innov);
        let at = first_free(b, rest, innov);
        assert forall|k: int| 0 <= k < at + 1 implies b[(#[trigger] free[k]) as int].data.innov_number
            != innov by {
            if k > 0 {
                assert(free[k] == rest[k - 1]);
            }
        }
        if at < rest.len() {
            assert(rest[at] == free[at + 1]);
        }
    }
}

/// Connection `x` of the first genome is in the list `matching`.
pub open spec fn paired(matching: Seq<(usize, usize)>, x: int) -> bool {
    exists|i: int| 0 <= i < matching.len() && (#[trigger] matching[i]).0 == x
}

/// Connection `x` is in the list `alone`.
pub open spec fn single(alone: Seq<usize>, x: int) -> bool {
    exists|i: int| 0 <= i < alone.len() && #[trigger] alone[i] == x
}

/// An alignment leaves nothing out and pairs all that can be paired: each of
/// the first `k` connections of the first genome is either in a pair or
/// alone, each list stands in the order of the genome, and no connection
/// that is alone in one genome carries the innovation number of a
/// connection that is alone in the other.
pub proof fn lemma_aligned_full(a: Seq<Link>, b: Seq<Link>, k: nat)
    requires
        k <= a.len(),
        a.len() <= usize::MAX,
        b.len() <= usize::MAX,
    ensures
        ({
            let al = aligned(a, b, k);
            &&& forall|x: int| 0 <= x < k ==> #[trigger] paired(al.matching, x) || single(al.mine, x)
            &&& forall|i: int, j: int|
                0 <= i < j < al.matching.len() ==> (#[trigger] al.matching[i]).0 < (
                #[trigger] al.matching[j]).0
            &&& forall|i: int, j: int|
                0 <= i < j < al.mine.len() ==> (#[trigger] al.mine[i]) < (#[trigger] al.mine[j])
            &&& forall|i: int, j: int|
                0 <= i < al.mine.len() && 0 <= j < al.theirs.len() ==> a[(
                #[trigger] al.mine[i]) as int].data.innov_number != b[(
                #[trigger] al.theirs[j]) as int].data.innov_number
        }),
    decreases k,
{
    if k > 0 {
        lemma_aligned_full(a, b, (k - 1) as nat);
        lemma_aligned_sound(a, b, (k - 1) as nat);
        let before = aligned(a, b, (k - 1) as nat);
        let innov = a[k - 1].data.innov_number;
        let at = first_free(b, before.theirs, innov);
        lemma_first_free_found(b, before.theirs, innov);
        let al = aligned(a, b, k);
        if at < before.theirs.len() {
            assert(al.matching[al.matching.len() - 1].0 == k - 1);
            assert forall|x: int| 0 <= x < k implies #[trigger] paired(al.matching, x) || single(
                al.mine,
                x,
            ) by {
                if x < k - 1 {
                    if paired(before.matching, x) {
                        let i = choose|i: int|
                            0 <= i < before.matching.len() && (#[trigger] before.matching[i]).0 == x;
                        assert(al.matching[i] == before.matching[i]);
                    }
                }
            }
            assert forall|i: int, j: int| 0 <= i < j < al.matching.len() implies (
            #[trigger] al.matching[i]).0 < (#[trigger] al.matching[j]).0 by {
                assert(al.matching[i] == before.matching[i]);
                if j < before.matching.len() {
                    assert(al.matching[j] == before.matching[j]);
                }
            }
            assert forall|i: int, j: int|
                0 <= i < al.mine.len() && 0 <= j < al.theirs.len() implies a[(
            #[trigger] al.mine[i]) as int].data.innov_number != b[(
            #[trigger] al.theirs[j]) as int].data.innov_number by {
                assert(al.theirs[j] == before.theirs[if j < at { j } else { j + 1 }]);
            }
        } else {
            assert(al.mine[al.mine.len() - 1] == k - 1);
            assert forall|x: int| 0 <= x < k implies #[trigger] paired(al.matching, x) || single(
                al.mine,
                x,
            ) by {
                if x < k - 1 {
                    if single(before.mine, x) {
                        let i = choose|i: int| 0 <= i < before.mine.len() && #[trigger] before.mine[i] == x;
                        assert(al.mine[i] == before.mine[i]);
                    }
                }
            }
            assert forall|i: int, j: int| 0 <= i < j < al.mine.len() implies (#[trigger] al.mine[i])
                < (#[trigger] al.mine[j]) by {
                assert(al.mine[i] == before.mine[i]);
                if j < before.mine.len() {
                    assert(al.mine[j] == before.mine[j]);
                }
            }
            assert forall|i: int, j: int|
                0 <= i < al.mine.len() && 0 <= j < al.theirs.len() implies a[(
            #[trigger] al.mine[i]) as int].data.innov_number != b[(
            #[trigger] al.theirs[j]) as int].data.innov_number by {
                if i < before.mine.len() {
                    assert(al.mine[i] == before.mine[i]);
                }
            }
        }
    }
}

impl NetworkGraph {
    /// The alignment of this genome with `other`.
    pub open spec fn alignment(&self, other: &NetworkGraph) -> Alignment {
        aligned(self.links(), other.links(), self.links().len())
    }

    /// Lines the connections of this genome up with those of `other`. Returns
    /// the pairs with equal innovation numbers, then the connections that
    /// only this genome has, then those that only `other` has, each as edge
    /// indices.
    pub fn union_difference(&self, other: &NetworkGraph) -> (parts: (
        Vec<(usize, usize)>,
        Vec<usize>,
        Vec<usize>,
    ))
        ensures
            parts.0@ == self.alignment(other).matching,
            parts.1@ == self.alignment(other).mine,
            parts.2@ == self.alignment(other).theirs,
    {
        let my_count = self.edge_count();
        let other_count = other.edge_count();
        let mut matching: Vec<(usize, usize)> = Vec::new();
        let mut mine: Vec<usize> = Vec::new();
        let mut free: Vec<usize> = Vec::new();
        let mut j: usize = 0;
        while j < other_count
            invariant
                j <= other_count,
                other_count == other.links().len(),
                free@ == Seq::new(j as nat, |j: int| j as usize),
            decreases other_count - j,
        {
            free.push(j);
            assert(free@ =~= Seq::new((j + 1) as nat, |j: int| j as usize));
            j += 1;
        }
        let mut i: usize = 0;
        while i < my_count
            invariant
                i <= my_count,
                my_count == self.links().len(),
                other_count == other.links().len(),
                matching@ == aligned(self.links(), other.links(), i as nat).matching,
                mine@ == aligned(self.links(), other.links(), i as nat).mine,
                free@ == aligned(self.links(), other.links(), i as nat).theirs,
            decreases my_count - i,
        {
            proof {
                lemma_aligned_sound(self.links(), other.links(), i as nat);
            }
            let innov = self.edge(i).innov_number();
            let mut at: usize = 0;
            while at < free.len() && other.edge(free[at]).innov_number() != innov
                invariant
                    at <= free.len(),
                    forall|k: int| 0 <= k < free@.len() ==> (#[trigger] free@[k]) < other.links().len(),
                    forall|k: int|
                        0 <= k < at ==> other.links()[(#[trigger] free@[k]) as int].data.innov_number
                            != innov,
                decreases free.len() - at,
            {
                at += 1;
            }
            proof {
                lemma_first_free(other.links(), free@, innov, at as int);
            }
            if at < free.len() {
                matching.push((i, free[at]));
                free.remove(at);
            } else {
                mine.push(i);
            }
            i += 1;
        }
        (matching, mine, free)
    }

    /// What the distance between this genome and `other` is computed from:
    /// the number of connections that only one of the two has, the number of
    /// connections of the larger of the two, and the two weights of each
    /// matching pair.
    pub fn compatibility_parts(&self, other: &NetworkGraph) -> (parts: (
        usize,
        usize,
        Vec<(Scalar, Scalar)>,
    ))
        requires
            self.links().len() + other.links().len() <= usize::MAX,
        ensures
            parts.0 == self.alignment(other).mine.len() + self.alignment(other).theirs.len(),
            parts.1 == if self.links().len() >= other.links().len() {
                self.links().len()
            } else {
                other.links().len()
            },
            parts.2@.len() == self.alignment(other).matching.len(),
            forall|k: int|
                0 <= k < parts.2@.len() ==> (#[trigger] parts.2@[k]).0 == self.links()[self.alignment(
                    other,
                ).matching[k].0 as int].data.weight && parts.2@[k].1 == other.links()[self.alignment(
                    other,
                ).matching[k].1 as int].data.weight,
    {
        let (matching, mine, theirs) = self.union_difference(other);
        proof {
            lemma_aligned_sound(self.links(), other.links(), self.links().len());
        }
        let mismatch_count = mine.len() + theirs.len();
        let mut weights: Vec<(Scalar, Scalar)> = Vec::new();
        let mut k: usize = 0;
        while k < matching.len()
            invariant
                k <= matching.len(),
                matching@ == self.alignment(other).matching,
                forall|i: int|
                    0 <= i < matching@.len() ==> (#[trigger] matching@[i]).0 < self.links().len()
                        && matching@[i].1 < other.links().len(),
                weights@.len() == k,
                forall|i: int|
                    0 <= i < k ==> (#[trigger] weights@[i]).0
                        == self.links()[matching@[i].0 as int].data.weight && weights@[i].1
                        == other.links()[matching@[i].1 as int].data.weight,
            decreases matching.len() - k,
        {
            let pair = matching[k];
            weights.push((self.edge(pair.0).get_weight(), other.edge(pair.1).get_weight()));
            k += 1;
        }
        let my_count = self.edge_count();
        let other_count = other.edge_count();
        let larger = if my_count >= other_count { my_count } else { other_count };
        (mismatch_count, larger, weights)
    }

    /// The two weights of each pair of matching connections of this genome
    /// and `other`: first the weight in this genome, then the weight in
    /// `other`.
    pub open spec fn paired_weights(&self, other: &NetworkGraph) -> Seq<(Scalar, Scalar)> {
        Seq::new(
            self.alignment(other).matching.len(),
            |k: int|
                (
                    self.links()[self.alignment(other).matching[k].0 as int].data.weight,
                    other.links()[self.alignment(other).matching[k].1 as int].data.weight,
                ),
        )
    }

    /// The number of connections that only one of this genome and `other`
    /// has.
    pub open spec fn mismatches(&self, other: &NetworkGraph) -> nat {
        self.alignment(other).mine.len() + self.alignment(other).theirs.len()
    }

    /// The number of connections of the larger of this genome and `other`.
    pub open spec fn larger(&self, other: &NetworkGraph) -> nat {
        if self.links().len() >= other.links().len() {
            self.links().len()
        } else {
            other.links().len()
        }
    }

    /// `d` is what the distance between this genome and `other` comes to
    /// under `ops`: see [`distance`].
    pub open spec fn measured<A: Arithmetic>(
        &self,
        other: &NetworkGraph,
        c1: Scalar,
        c2: Scalar,
        ops: &A,
        d: Scalar,
    ) -> bool {
        distance(
            ops,
            self.mismatches(other) as usize,
            self.larger(other) as usize,
            self.paired_weights(other),
            c1,
            c2,
            d,
        )
    }

    /// The distance between this genome and `other`:
    /// `c1 * D / N + c2 * W`, where `D` counts the connections that only one
    /// of the two has, `N` is the number of connections of the larger of the
    /// two, and `W` sums the absolute differences of the weights of the
    /// matching pairs. `ops` does the arithmetic.
    pub fn compatibility_metric<A: Arithmetic>(
        &self,
        other: &NetworkGraph,
        c1: Scalar,
        c2: Scalar,
        ops: &A,
    ) -> (d: Scalar)
        requires
            self.links().len() + other.links().len() <= usize::MAX,
        ensures
            self.measured(other, c1, c2, ops, d),
    {
        let (mismatch_count, n, weights) = self.compatibility_parts(other);
        proof {
            assert(weights@ =~= self.paired_weights(other));
        }
        compatibility_of(mismatch_count, n, &weights, c1, c2, ops)
    }
}

/// `w` is what `before` and the absolute difference of `pair` sum to under
/// `ops`: `ops` takes the difference of the pair, and adds it, without its
/// sign, to `before`.
pub open spec fn gap_added<A: Arithmetic>(
    ops: &A,
    pair: (Scalar, Scalar),
    before: Scalar,
    w: Scalar,
) -> bool {
    exists|gap: Scalar| #[trigger]
        difference_of(ops, pair.0, pair.1, gap) && sum_of(ops, before, gap.absolute(), w)
}

/// `w` is what the absolute differences of the first `k` pairs of `weights`
/// sum to under `ops`: zero for no pair; else the sum of the pairs before
/// with the absolute difference of the last pair added.
pub open spec fn gap_sum<A: Arithmetic>(
    ops: &A,
    weights: Seq<(Scalar, Scalar)>,
    k: nat,
    w: Scalar,
) -> bool
    decreases k,
{
    if k == 0 {
        w == Scalar::zero()
    } else {
        exists|before: Scalar|
            gap_sum(ops, weights, (k - 1) as nat, before) && #[trigger] gap_added(
                ops,
                weights[k - 1],
                before,
                w,
            )
    }
}

/// `q` is what `c1 * mismatch_count / n` comes to under `ops`: `ops` turns
/// the count into a number, multiplies it by `c1`, and divides by the number
/// for `n`.
pub open spec fn mismatch_share<A: Arithmetic>(
    ops: &A,
    mismatch_count: usize,
    n: usize,
    c1: Scalar,
    q: Scalar,
) -> bool {
    exists|count: Scalar, scaled: Scalar, size: Scalar|
        #![trigger product_of(ops, count, c1, scaled), quotient_of(ops, scaled, size, q)]
        number_of(ops, mismatch_count, count) && product_of(ops, count, c1, scaled) && number_of(
            ops,
            n,
            size,
        ) && quotient_of(ops, scaled, size, q)
}

/// `d` is what `c1 * mismatch_count / n + c2 * W` comes to under `ops`,
/// where `W` sums the absolute differences of the pairs in `weights`.
pub open spec fn distance<A: Arithmetic>(
    ops: &A,
    mismatch_count: usize,
    n: usize,
    weights: Seq<(Scalar, Scalar)>,
    c1: Scalar,
    c2: Scalar,
    d: Scalar,
) -> bool {
    exists|w: Scalar, q: Scalar, p: Scalar|
        #![trigger gap_sum(ops, weights, weights.len(), w), sum_of(ops, q, p, d)]
        gap_sum(ops, weights, weights.len(), w) && mismatch_share(ops, mismatch_count, n, c1, q)
            && product_of(ops, w, c2, p) && sum_of(ops, q, p, d)
}

/// `c1 * mismatch_count / n + c2 * W`, where `W` sums the absolute
/// differences of the pairs in `weights`. `ops` does the arithmetic.
fn compatibility_of<A: Arithmetic>(
    mismatch_count: usize,
    n: usize,
    weights: &Vec<(Scalar, Scalar)>,
    c1: Scalar,
    c2: Scalar,
    ops: &A,
) -> (d: Scalar)
    ensures
        distance(ops, mismatch_count, n, weights@, c1, c2, d),
{
    let mut weight_difference = Scalar::zero();
    let mut k: usize = 0;
    while k < weights.len()
        invariant
            k <= weights.len(),
            gap_sum(ops, weights@, k as nat, weight_difference),
        decreases weights.len() - k,
    {
        let pair = weights[k];
        let ghost before = weight_difference;
        let gap = ops.minus(pair.0, pair.1);
        weight_difference = ops.plus(weight_difference, gap.abs());
        proof {
            let next = (k + 1) as nat;
            assert(difference_of(ops, pair.0, pair.1, gap) && sum_of(
                ops,
                before,
                gap.absolute(),
                weight_difference,
            ));
            assert(gap_added(ops, weights@[next - 1], before, weight_difference));
            assert(gap_sum(ops, weights@, (next - 1) as nat, before));
            assert(gap_sum(ops, weights@, next, weight_difference));
        }
        k += 1;
    }
    let count = ops.from_count(mismatch_count);
    let scaled = ops.times(count, c1);
    let size = ops.from_count(n);
    let q = ops.over(scaled, size);
    let p = ops.times(weight_difference, c2);
    let d = ops.plus(q, p);
    proof {
        assert(number_of(ops, mismatch_count, count) && product_of(ops, count, c1, scaled)
            && number_of(ops, n, size) && quotient_of(ops, scaled, size, q));
        assert(mismatch_share(ops, mismatch_count, n, c1, q));
        assert(gap_sum(ops, weights@, weights@.len(), weight_difference) && product_of(
            ops,
            weight_difference,
            c2,
            p,
        ) && sum_of(ops, q, p, d));
    }
    d
}

} // verus!
