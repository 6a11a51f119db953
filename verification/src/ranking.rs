//! Ordering networks by fitness.
use vstd::prelude::*;
use vstd::multiset::Multiset;
use crate::network::Network;
use crate::scalar::Scalar;

verus! {

/// The fitness `x` ranks below the fitness `y`: `x` is missing and `y` is
/// not, or both are numbers and `x` is the smaller.
pub open spec fn ranks_below(x: Option<Scalar>, y: Option<Scalar>) -> bool {
    match (x, y) {
        (None, Some(_)) => true,
        (Some(a), Some(b)) => a.below(b),
        _ => false,
    }
}

/// The index of the fittest of the first `k` networks of `s`, and of the
/// first of them where several are the fittest.
pub open spec fn best_upto<T: Network>(s: Seq<T>, k: nat) -> int
    decreases k,
{
    if k <= 1 {
        0
    } else {
        let best = best_upto(s, (k - 1) as nat);
        if ranks_below(s[best].rating(), s[k - 1].rating()) {
            k - 1
        } else {
            best
        }
    }
}

/// `s` with the fittest first: the first of the fittest networks, then the
/// first of the fittest of the rest, and so on. Networks of equal fitness
/// keep their order.
pub open spec fn ranked<T: Network>(s: Seq<T>) -> Seq<T>
    decreases s.len(),
{
    let best = best_upto(s, s.len());
    if 0 <= best < s.len() {
        seq![s[best]] + ranked(s.remove(best))
    } else {
        s
    }
}

/// The fittest of the first `k` networks is one of them, and none of them
/// ranks above it.
pub proof fn lemma_best_upto<T: Network>(s: Seq<T>, k: nat)
    requires
        0 < k <= s.len(),
    ensures
        0 <= best_upto(s, k) < k,
        forall|i: int|
            0 <= i < k ==> !ranks_below(s[best_upto(s, k)].rating(), (#[trigger] s[i]).rating()),
    decreases k,
{
    if k > 1 {
        lemma_best_upto(s, (k - 1) as nat);
    }
}

/// Ranking keeps every network, and puts none before one that ranks above
/// it.
pub proof fn lemma_ranked<T: Network>(s: Seq<T>)
    ensures
        ranked(s).len() == s.len(),
        ranked(s).to_multiset() =~= s.to_multiset(),
        forall|i: int, j: int|
            0 <= i < j < s.len() ==> !ranks_below(
                (#[trigger] ranked(s)[i]).rating(),
                (#[trigger] ranked(s)[j]).rating(),
            ),
    decreases s.len(),
{
    broadcast use vstd::seq_lib::group_to_multiset_ensures;

    if s.len() > 0 {
        let best = best_upto(s, s.len());
        lemma_best_upto(s, s.len());
        let rest = s.remove(best);
        lemma_ranked(rest);
        let r = ranked(s);
        assert(r == seq![s[best]] + ranked(rest));
        assert(r.to_multiset() =~= s.to_multiset()) by {
            vstd::seq_lib::lemma_multiset_commutative(seq![s[best]], ranked(rest));
            assert(seq![s[best]].to_multiset() =~= Multiset::<T>::empty().insert(s[best])) by {
                assert(seq![s[best]] =~= Seq::<T>::empty().push(s[best]));
            }
            assert(rest.to_multiset() =~= s.to_multiset().remove(s[best]));
            assert(s.to_multiset().count(s[best]) > 0) by {
                assert(s.contains(s[best]));
            }
        }
        assert forall|i: int, j: int| 0 <= i < j < s.len() implies !ranks_below(
            (#[trigger] r[i]).rating(),
            (#[trigger] r[j]).rating(),
        ) by {
            if i == 0 {
                let x = ranked(rest)[j - 1];
                assert(r[j] == x);
                assert(ranked(rest).to_multiset().count(x) > 0) by {
                    assert(ranked(rest).contains(x));
                }
                assert(rest.contains(x));
                let at = choose|at: int| 0 <= at < rest.len() && rest[at] == x;
                let from = if at < best { at } else { at + 1 };
                assert(s[from] == x);
            } else {
                assert(r[i] == ranked(rest)[i - 1]);
                assert(r[j] == ranked(rest)[j - 1]);
            }
        }
    }
}

/// Ranking neither adds a network nor loses one.
pub proof fn lemma_ranked_members<T: Network>(s: Seq<T>)
    ensures
        ranked(s).len() == s.len(),
        forall|i: int| 0 <= i < s.len() ==> s.contains(#[trigger] ranked(s)[i]),
        forall|i: int| 0 <= i < s.len() ==> ranked(s).contains(#[trigger] s[i]),
{
    broadcast use vstd::seq_lib::group_to_multiset_ensures;

    lemma_ranked(s);
    assert forall|i: int| 0 <= i < s.len() implies s.contains(#[trigger] ranked(s)[i]) by {
        let x = ranked(s)[i];
        assert(ranked(s).contains(x));
        assert(ranked(s).to_multiset().count(x) > 0);
    }
    assert forall|i: int| 0 <= i < s.len() implies ranked(s).contains(#[trigger] s[i]) by {
        let x = s[i];
        assert(s.contains(x));
        assert(s.to_multiset().count(x) > 0);
    }
}

/// Whether the fitness of `a` ranks below the fitness of `b`.
pub fn outranked<T: Network>(a: &T, b: &T) -> (below: bool)
    ensures
        below == ranks_below(a.rating(), b.rating()),
{
    match (a.fitness(), b.fitness()) {
        (None, Some(_)) => true,
        (Some(x), Some(y)) => x.lt(y),
        _ => false,
    }
}

/// Puts the fittest first. Networks of equal fitness keep their order.
pub fn sort_by_fitness<T: Network>(list: &mut Vec<T>)
    ensures
        final(list)@ == ranked(old(list)@),
{
    let count = list.len();
    let mut i: usize = 0;
    proof {
        assert(list@.skip(0) =~= list@);
        assert(list@.take(0) + ranked(list@) =~= ranked(list@));
    }
    while i < count
        invariant
            i <= count,
            count == list@.len(),
            ranked(old(list)@) == list@.take(i as int) + ranked(list@.skip(i as int)),
        decreases count - i,
    {
        let ghost rest = list@.skip(i as int);
        let mut best: usize = i;
        let mut j: usize = i + 1;
        while j < count
            invariant
                i < j <= count,
                count == list@.len(),
                i <= best < j,
                rest == list@.skip(i as int),
                best - i == best_upto(rest, (j - i) as nat),
            decreases count - j,
        {
            if outranked(&list[best], &list[j]) {
                best = j;
            }
            j += 1;
        }
        proof {
            lemma_best_upto(rest, rest.len());
        }
        let ghost before = list@;
        let fittest = list.remove(best);
        list.insert(i, fittest);
        proof {
            assert(list@.take(i + 1) =~= before.take(i as int) + seq![rest[best - i]]);
            assert(list@.skip(i + 1) =~= rest.remove(best - i));
            assert(before.take(i as int) + (seq![rest[best - i]] + ranked(rest.remove(best - i)))
                =~= (before.take(i as int) + seq![rest[best - i]]) + ranked(rest.remove(best - i)));
        }
        i += 1;
    }
    proof {
        assert(list@.skip(count as int) =~= Seq::<T>::empty());
        assert(list@.take(count as int) =~= list@);
    }
}

} // verus!
