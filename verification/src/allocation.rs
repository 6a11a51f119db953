//! Sharing out the places of the next generation among the species.
use vstd::prelude::*;

verus! {

/// The sum of `counts`.
pub open spec fn total(counts: Seq<usize>) -> nat
    decreases counts.len(),
{
    if counts.len() == 0 {
        0
    } else {
        total(counts.drop_last()) + counts.last() as nat
    }
}

/// `counts` with every count above `target` brought down to `target`.
pub open spec fn capped(counts: Seq<usize>, target: usize) -> Seq<usize> {
    Seq::new(counts.len(), |i: int| if counts[i] > target { target } else { counts[i] })
}

/// `counts` after `excess` places were given up in turn, from species `i`
/// on: each species that has a place left gives up one, a species that has
/// none is passed over, and after the last species the turn goes back to the
/// first. `moved` says whether a place was given up since the turn last
/// started from the first species; once a whole round moves nothing, no
/// species has a place left, and the giving up ends.
pub open spec fn trimmed(counts: Seq<usize>, excess: nat, i: nat, moved: bool) -> Seq<usize>
    decreases excess, (if moved { 1nat } else { 0nat }), counts.len() - i,
{
    if excess == 0 {
        counts
    } else if i >= counts.len() {
        if moved {
            trimmed(counts, excess, 0, false)
        } else {
            counts
        }
    } else if counts[i as int] > 0 {
        trimmed(
            counts.update(i as int, (counts[i as int] - 1) as usize),
            (excess - 1) as nat,
            i + 1,
            true,
        )
    } else {
        trimmed(counts, excess, i + 1, moved)
    }
}

/// `counts` after `deficit` more places were taken in turn: every species
/// takes as many as a full round gives each, and the first species one more
/// for the rounds that are left over.
pub open spec fn raised(counts: Seq<usize>, deficit: nat) -> Seq<usize> {
    Seq::new(
        counts.len(),
        |i: int|
            (counts[i] + deficit / counts.len() + if i < deficit % counts.len() {
                1nat
            } else {
                0nat
            }) as usize,
    )
}

/// The places of `counts`, capped at `target`, evened out to `target`.
pub open spec fn evened(counts: Seq<usize>, target: usize) -> Seq<usize> {
    let wanted = capped(counts, target);
    if counts.len() == 0 {
        counts
    } else if total(wanted) >= target {
        trimmed(wanted, (total(wanted) - target) as nat, 0, false)
    } else {
        raised(wanted, (target - total(wanted)) as nat)
    }
}

/// Changing one count changes the sum by as much.
pub proof fn lemma_total_update(counts: Seq<usize>, i: int, v: usize)
    requires
        0 <= i < counts.len(),
    ensures
        total(counts.update(i, v)) == total(counts) - counts[i] + v,
    decreases counts.len(),
{
    let changed = counts.update(i, v);
    if i == counts.len() - 1 {
        assert(changed.drop_last() =~= counts.drop_last());
    } else {
        assert(changed.drop_last() =~= counts.drop_last().update(i, v));
        lemma_total_update(counts.drop_last(), i, v);
    }
}

/// No count is above the sum, the sum of zeros is zero, and the sum of
/// machine numbers is bounded.
pub proof fn lemma_total_bounds(counts: Seq<usize>)
    ensures
        forall|i: int| 0 <= i < counts.len() ==> (#[trigger] counts[i]) <= total(counts),
        (forall|i: int| 0 <= i < counts.len() ==> (#[trigger] counts[i]) == 0) ==> total(counts)
            == 0,
        total(counts) <= counts.len() * usize::MAX,
    decreases counts.len(),
{
    if counts.len() > 0 {
        let rest = counts.drop_last();
        lemma_total_bounds(rest);
        assert forall|i: int| 0 <= i < counts.len() implies (#[trigger] counts[i]) <= total(
            counts,
        ) by {
            if i < rest.len() {
                assert(rest[i] == counts[i]);
            }
        }
        if forall|i: int| 0 <= i < counts.len() ==> (#[trigger] counts[i]) == 0 {
            assert forall|i: int| 0 <= i < rest.len() implies (#[trigger] rest[i]) == 0 by {
                assert(rest[i] == counts[i]);
            }
        }
        assert(total(counts) <= counts.len() * usize::MAX) by (nonlinear_arith)
            requires
                total(counts) == total(rest) + counts.last(),
                total(rest) <= rest.len() * usize::MAX,
                rest.len() == counts.len() - 1,
                counts.last() <= usize::MAX,
        ;
    }
}

/// Giving up places takes the sum down by as many, as long as there are
/// that many places; and no species ends with more than it had.
pub proof fn lemma_trimmed(counts: Seq<usize>, excess: nat, i: nat, moved: bool)
    requires
        excess <= total(counts),
        i <= counts.len(),
        !moved ==> forall|k: int| 0 <= k < i ==> (#[trigger] counts[k]) == 0,
    ensures
        trimmed(counts, excess, i, moved).len() == counts.len(),
        total(trimmed(counts, excess, i, moved)) == total(counts) - excess,
        forall|k: int|
            0 <= k < counts.len() ==> (#[trigger] trimmed(counts, excess, i, moved)[k])
                <= counts[k],
    decreases excess, (if moved { 1nat } else { 0nat }), counts.len() - i,
{
    if excess == 0 {
    } else if i >= counts.len() {
        if moved {
            lemma_trimmed(counts, excess, 0, false);
        } else {
            lemma_total_bounds(counts);
        }
    } else if counts[i as int] > 0 {
        let next = counts.update(i as int, (counts[i as int] - 1) as usize);
        lemma_total_update(counts, i as int, (counts[i as int] - 1) as usize);
        lemma_trimmed(next, (excess - 1) as nat, i + 1, true);
        assert forall|k: int| 0 <= k < counts.len() implies (#[trigger] trimmed(
            counts,
            excess,
            i,
            moved,
        )[k]) <= counts[k] by {
            assert(trimmed(next, (excess - 1) as nat, i + 1, true)[k] <= next[k]);
        }
    } else {
        lemma_trimmed(counts, excess, i + 1, moved);
    }
}

/// The sum of the first `k` of the places that `raised` gives.
proof fn lemma_raised_total(counts: Seq<usize>, deficit: nat, k: nat)
    requires
        counts.len() > 0,
        k <= counts.len(),
        total(counts) + deficit <= usize::MAX,
    ensures
        total(raised(counts, deficit).take(k as int)) == total(counts.take(k as int)) + k * (
        deficit / counts.len()) + if k < deficit % counts.len() {
            k
        } else {
            deficit % counts.len()
        },
    decreases k,
{
    let r = raised(counts, deficit);
    if k > 0 {
        lemma_raised_total(counts, deficit, (k - 1) as nat);
        assert(r.take(k as int).drop_last() =~= r.take(k - 1));
        assert(counts.take(k as int).drop_last() =~= counts.take(k - 1));
        lemma_total_bounds(counts);
        let q = deficit / counts.len();
        let m = deficit % counts.len();
        assert(q <= deficit) by (nonlinear_arith)
            requires
                q == deficit / counts.len(),
                counts.len() > 0,
        ;
        assert(counts[k - 1] + q + 1 <= usize::MAX || m == 0) by {
            if m > 0 {
                assert(deficit == q * counts.len() + m) by (nonlinear_arith)
                    requires
                        q == deficit / counts.len(),
                        m == deficit % counts.len(),
                        counts.len() > 0,
                ;
                assert(q * counts.len() >= q) by (nonlinear_arith)
                    requires
                        counts.len() >= 1,
                        q >= 0,
                ;
            }
        }
        assert(k * q == (k - 1) * q + q) by (nonlinear_arith);
    } else {
        assert(r.take(0) =~= Seq::<usize>::empty());
        assert(counts.take(0) =~= Seq::<usize>::empty());
        assert(0 * (deficit / counts.len()) == 0) by (nonlinear_arith);
    }
}

/// Taking `deficit` more places takes the sum up by as many.
pub proof fn lemma_raised(counts: Seq<usize>, deficit: nat)
    requires
        counts.len() > 0,
        total(counts) + deficit <= usize::MAX,
    ensures
        raised(counts, deficit).len() == counts.len(),
        total(raised(counts, deficit)) == total(counts) + deficit,
        forall|k: int| 0 <= k < counts.len() ==> (#[trigger] raised(counts, deficit)[k]) >= counts[k],
{
    let r = raised(counts, deficit);
    let q = deficit / counts.len();
    let m = deficit % counts.len();
    lemma_raised_total(counts, deficit, counts.len());
    assert(r.take(counts.len() as int) =~= r);
    assert(counts.take(counts.len() as int) =~= counts);
    assert(deficit == counts.len() * q + m) by (nonlinear_arith)
        requires
            q == deficit / counts.len(),
            m == deficit % counts.len(),
            counts.len() > 0,
    ;
    lemma_total_bounds(counts);
    assert(q <= deficit) by (nonlinear_arith)
        requires
            deficit == counts.len() * q + m,
            counts.len() >= 1,
            m >= 0,
            q >= 0,
    ;
    assert forall|k: int| 0 <= k < counts.len() implies (#[trigger] r[k]) >= counts[k] by {
        if m > 0 {
            assert(q + 1 <= deficit) by (nonlinear_arith)
                requires
                    deficit == counts.len() * q + m,
                    counts.len() >= 1,
                    m >= 1,
                    q >= 0,
            ;
        }
    }
}

/// Brings the sum of `counts` to `target`. No species is given more than
/// `target` to begin with. Where the sum is then above `target`, the species
/// give up one place each in turn, a species that has none left being passed
/// over, until the sum fits; where it is below, they take one more each in
/// turn. With no species there is nothing to share out.
pub fn allocate(counts: Vec<usize>, target: usize) -> (shares: Vec<usize>)
    ensures
        shares@ == evened(counts@, target),
        shares@.len() == counts@.len(),
        counts@.len() > 0 ==> total(shares@) == target,
        total(capped(counts@, target)) >= target ==> forall|i: int|
            0 <= i < shares@.len() ==> (#[trigger] shares@[i]) <= capped(counts@, target)[i],
        total(capped(counts@, target)) <= target ==> forall|i: int|
            0 <= i < shares@.len() ==> (#[trigger] shares@[i]) >= capped(counts@, target)[i],
{
    let mut shares = counts;
    let count = shares.len();
    if count == 0 {
        return shares;
    }
    let ghost wanted = capped(counts@, target);
    let mut c: usize = 0;
    while c < count
        invariant
            c <= count,
            count == shares@.len(),
            count == counts@.len(),
            wanted == capped(counts@, target),
            forall|i: int| 0 <= i < c ==> (#[trigger] shares@[i]) == wanted[i],
            forall|i: int| c <= i < count ==> (#[trigger] shares@[i]) == counts@[i],
        decreases count - c,
    {
        if shares[c] > target {
            shares[c] = target;
        }
        c += 1;
    }
    proof {
        assert(shares@ =~= wanted);
    }
    let mut sum: u128 = 0;
    let mut i: usize = 0;
    while i < count
        invariant
            i <= count,
            count == shares@.len(),
            sum == total(shares@.take(i as int)),
            sum <= i * usize::MAX,
        decreases count - i,
    {
        proof {
            assert(shares@.take(i + 1).drop_last() =~= shares@.take(i as int));
            assert((i + 1) * usize::MAX == i * usize::MAX + usize::MAX) by (nonlinear_arith);
            assert(i * usize::MAX + usize::MAX <= u128::MAX) by (nonlinear_arith)
                requires
                    i < usize::MAX,
                    usize::MAX <= 0xffff_ffff_ffff_ffff,
            ;
        }
        sum = sum + shares[i] as u128;
        i += 1;
    }
    proof {
        assert(shares@.take(count as int) =~= shares@);
    }
    if sum >= target as u128 {
        let mut excess: u128 = sum - target as u128;
        let ghost goal = trimmed(wanted, excess as nat, 0, false);
        proof {
            lemma_trimmed(wanted, excess as nat, 0, false);
        }
        let mut moved = true;
        while excess > 0 && moved
            invariant
                count == shares@.len(),
                excess <= total(shares@),
                moved || excess == 0 || forall|i: int|
                    0 <= i < count ==> (#[trigger] shares@[i]) == 0,
                goal == if moved {
                    trimmed(shares@, excess as nat, 0, false)
                } else {
                    shares@
                },
            decreases excess,
        {
            let ghost at_start = excess;
            moved = false;
            let mut k: usize = 0;
            while k < count
                invariant
                    k <= count,
                    count == shares@.len(),
                    excess <= total(shares@),
                    excess <= at_start,
                    at_start > 0,
                    moved <==> excess < at_start,
                    !moved ==> forall|i: int| 0 <= i < k ==> (#[trigger] shares@[i]) == 0,
                    goal == trimmed(shares@, excess as nat, k as nat, moved),
                decreases count - k,
            {
                if excess > 0 && shares[k] > 0 {
                    proof {
                        lemma_total_update(shares@, k as int, (shares@[k as int] - 1) as usize);
                    }
                    let lowered = shares[k] - 1;
                    shares[k] = lowered;
                    excess = excess - 1;
                    moved = true;
                }
                k += 1;
            }
            proof {
                if !moved && excess > 0 {
                    lemma_total_bounds(shares@);
                }
            }
        }
    } else {
        let deficit: usize = (target as u128 - sum) as usize;
        let round = deficit / count;
        let left = deficit % count;
        proof {
            lemma_raised(wanted, deficit as nat);
            lemma_total_bounds(wanted);
            assert(deficit == count * round + left && round <= deficit) by (nonlinear_arith)
                requires
                    round == deficit / count,
                    left == deficit % count,
                    count > 0,
            ;
            if left > 0 {
                assert(round + 1 <= deficit) by (nonlinear_arith)
                    requires
                        deficit == count * round + left,
                        count >= 1,
                        left >= 1,
                        round >= 0,
                ;
            }
        }
        let mut k: usize = 0;
        while k < count
            invariant
                k <= count,
                count == shares@.len(),
                count == wanted.len(),
                round == deficit / count,
                left == deficit % count,
                forall|i: int| 0 <= i < k ==> (#[trigger] shares@[i]) == raised(
                    wanted,
                    deficit as nat,
                )[i],
                forall|i: int| k <= i < count ==> (#[trigger] shares@[i]) == wanted[i],
                forall|i: int|
                    0 <= i < count ==> (#[trigger] wanted[i]) + round + 1 <= usize::MAX || left
                        == 0,
                forall|i: int| 0 <= i < count ==> (#[trigger] wanted[i]) + round <= usize::MAX,
                left > 0 ==> round < usize::MAX,
            decreases count - k,
        {
            let more = if k < left { round + 1 } else { round };
            let raised_to = shares[k] + more;
            shares[k] = raised_to;
            k += 1;
        }
        proof {
            assert(shares@ =~= raised(wanted, deficit as nat));
        }
    }
    shares
}

} // verus!
