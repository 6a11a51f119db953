//! Walks, cycles and topological orders over the connections of a graph.
use vstd::prelude::*;
use crate::network::store::Link;

verus! {

/// Some connection leads from node `a` to node `b`.
pub open spec fn linked(links: Seq<Link>, a: int, b: int) -> bool {
    exists|e: int|
        #![trigger links[e]]
        0 <= e < links.len() && links[e].source == a && links[e].target == b
}

/// `p` lists the nodes of a walk along at least one connection: each node is
/// linked to the next.
pub open spec fn is_walk(links: Seq<Link>, p: Seq<int>) -> bool {
    &&& p.len() >= 2
    &&& forall|k: int| #![trigger p[k]] 0 <= k < p.len() - 1 ==> linked(links, p[k], p[k + 1])
}

/// A walk leads from `a` to `b`.
pub open spec fn reaches(links: Seq<Link>, a: int, b: int) -> bool {
    exists|p: Seq<int>| #[trigger] is_walk(links, p) && p.first() == a && p.last() == b
}

/// Some walk returns to the node it started from.
pub open spec fn cyclic(links: Seq<Link>) -> bool {
    exists|p: Seq<int>| #[trigger] is_walk(links, p) && p.first() == p.last()
}

/// Node `v` stands somewhere in `order`.
pub open spec fn listed(order: Seq<usize>, v: int) -> bool {
    exists|k: int| 0 <= k < order.len() && #[trigger] order[k] == v
}

/// `order` lists each of the nodes `0 .. n` once, and every connection leads
/// from an earlier place in it to a later one.
pub open spec fn topological(order: Seq<usize>, n: nat, links: Seq<Link>) -> bool {
    &&& order.len() == n
    &&& forall|k: int| 0 <= k < order.len() ==> (#[trigger] order[k]) < n
    &&& forall|j: int, k: int| 0 <= j < k < order.len() ==> order[j] != order[k]
    &&& forall|v: int| 0 <= v < n ==> #[trigger] listed(order, v)
    &&& forall|e: int, j: int, k: int|
        #![trigger links[e], order[j], order[k]]
        0 <= e < links.len() && 0 <= j < order.len() && 0 <= k < order.len() && order[j]
            == links[e].source && order[k] == links[e].target ==> j < k
}

/// Every connection joins two of the nodes `0 .. n`.
pub open spec fn bounded(links: Seq<Link>, n: nat) -> bool {
    forall|e: int|
        #![trigger links[e]]
        0 <= e < links.len() ==> 0 <= links[e].source < n && 0 <= links[e].target < n
}

/// Two walks that meet end to start make one walk.
pub proof fn lemma_walks_join(links: Seq<Link>, p: Seq<int>, q: Seq<int>)
    requires
        is_walk(links, p),
        is_walk(links, q),
        p.last() == q.first(),
    ensures
        is_walk(links, p + q.drop_first()),
        (p + q.drop_first()).first() == p.first(),
        (p + q.drop_first()).last() == q.last(),
{
    let r = p + q.drop_first();
    assert forall|k: int| #![trigger r[k]] 0 <= k < r.len() - 1 implies linked(
        links,
        r[k],
        r[k + 1],
    ) by {
        if k < p.len() - 1 {
            assert(r[k] == p[k] && r[k + 1] == p[k + 1]);
        } else if k == p.len() - 1 {
            assert(r[k] == p[k]);
            assert(r[k + 1] == q[1]);
            assert(p[k] == q[0]);
        } else {
            let j = k - p.len() + 1;
            assert(r[k] == q[j] && r[k + 1] == q[j + 1]);
        }
    }
}

/// Reaching is transitive.
pub proof fn lemma_reaches_transitive(links: Seq<Link>, a: int, b: int, c: int)
    requires
        reaches(links, a, b),
        reaches(links, b, c),
    ensures
        reaches(links, a, c),
{
    let p = choose|p: Seq<int>| #[trigger] is_walk(links, p) && p.first() == a && p.last() == b;
    let q = choose|q: Seq<int>| #[trigger] is_walk(links, q) && q.first() == b && q.last() == c;
    lemma_walks_join(links, p, q);
}

/// One connection is a walk.
pub proof fn lemma_link_reaches(links: Seq<Link>, e: int)
    requires
        0 <= e < links.len(),
    ensures
        reaches(links, links[e].source, links[e].target),
{
    let p = seq![links[e].source, links[e].target];
    assert(p[0] == links[e].source && p[1] == links[e].target);
    assert(is_walk(links, p));
}

/// A graph is cyclic exactly when some node reaches itself.
pub proof fn lemma_cyclic_reaches(links: Seq<Link>)
    ensures
        cyclic(links) <==> exists|a: int| #[trigger] reaches(links, a, a),
{
    if cyclic(links) {
        let p = choose|p: Seq<int>| #[trigger] is_walk(links, p) && p.first() == p.last();
        assert(reaches(links, p.first(), p.first()));
    }
    if exists|a: int| #[trigger] reaches(links, a, a) {
        let a = choose|a: int| #[trigger] reaches(links, a, a);
        let p = choose|p: Seq<int>| #[trigger] is_walk(links, p) && p.first() == a && p.last() == a;
        assert(is_walk(links, p) && p.first() == p.last());
    }
}

/// Where each connection of `fine` follows, under the renaming `f` of nodes,
/// a walk of `coarse`, every walk of `fine` follows a walk of `coarse`.
pub proof fn lemma_walk_simulated(
    fine: Seq<Link>,
    coarse: Seq<Link>,
    f: spec_fn(int) -> int,
    p: Seq<int>,
)
    requires
        forall|e: int|
            #![trigger fine[e]]
            0 <= e < fine.len() ==> reaches(coarse, f(fine[e].source), f(fine[e].target)),
        is_walk(fine, p),
    ensures
        reaches(coarse, f(p.first()), f(p.last())),
    decreases p.len(),
{
    let e = choose|e: int|
        #![trigger fine[e]]
        0 <= e < fine.len() && fine[e].source == p[0] && fine[e].target == p[1];
    assert(reaches(coarse, f(p[0]), f(p[1])));
    if p.len() > 2 {
        let rest = p.drop_first();
        assert forall|k: int| #![trigger rest[k]] 0 <= k < rest.len() - 1 implies linked(
            fine,
            rest[k],
            rest[k + 1],
        ) by {
            assert(rest[k] == p[k + 1] && rest[k + 1] == p[k + 2]);
        }
        lemma_walk_simulated(fine, coarse, f, rest);
        assert(rest.first() == p[1] && rest.last() == p.last());
        lemma_reaches_transitive(coarse, f(p[0]), f(p[1]), f(p.last()));
    }
}

/// Where each connection of `fine` follows, under the renaming `f` of nodes,
/// a walk of `coarse`, and `coarse` has no cycle, `fine` has none either.
pub proof fn lemma_simulation_acyclic(fine: Seq<Link>, coarse: Seq<Link>, f: spec_fn(int) -> int)
    requires
        forall|e: int|
            #![trigger fine[e]]
            0 <= e < fine.len() ==> reaches(coarse, f(fine[e].source), f(fine[e].target)),
        !cyclic(coarse),
    ensures
        !cyclic(fine),
{
    if cyclic(fine) {
        let p = choose|p: Seq<int>| #[trigger] is_walk(fine, p) && p.first() == p.last();
        lemma_walk_simulated(fine, coarse, f, p);
        lemma_cyclic_reaches(coarse);
        assert(reaches(coarse, f(p.first()), f(p.first())));
    }
}

/// Where every connection of `fine` is one of `coarse`, and `coarse` has no
/// cycle, `fine` has none either.
pub proof fn lemma_fewer_links_acyclic(fine: Seq<Link>, coarse: Seq<Link>)
    requires
        forall|e: int|
            #![trigger fine[e]]
            0 <= e < fine.len() ==> linked(coarse, fine[e].source, fine[e].target),
        !cyclic(coarse),
    ensures
        !cyclic(fine),
{
    let f = |v: int| v;
    assert forall|e: int| #![trigger fine[e]] 0 <= e < fine.len() implies reaches(
        coarse,
        f(fine[e].source),
        f(fine[e].target),
    ) by {
        let c = choose|c: int|
            #![trigger coarse[c]]
            0 <= c < coarse.len() && coarse[c].source == fine[e].source && coarse[c].target
                == fine[e].target;
        lemma_link_reaches(coarse, c);
    }
    lemma_simulation_acyclic(fine, coarse, f);
}

/// The place of node `v` in `order`.
pub open spec fn place(order: Seq<usize>, v: int) -> int {
    choose|k: int| 0 <= k < order.len() && #[trigger] order[k] == v
}

/// Along a walk the places in a topological order go up.
proof fn lemma_walk_goes_forward(order: Seq<usize>, n: nat, links: Seq<Link>, p: Seq<int>)
    requires
        topological(order, n, links),
        bounded(links, n),
        is_walk(links, p),
    ensures
        place(order, p.first()) < place(order, p.last()),
    decreases p.len(),
{
    let e = choose|e: int|
        #![trigger links[e]]
        0 <= e < links.len() && links[e].source == p[0] && links[e].target == p[1];
    assert(listed(order, p[0]) && listed(order, p[1]));
    let j = place(order, p[0]);
    let k = place(order, p[1]);
    assert(0 <= j < order.len() && order[j] == p[0]);
    assert(0 <= k < order.len() && order[k] == p[1]);
    assert(links[e].source == order[j] && links[e].target == order[k]);
    assert(j < k);
    if p.len() > 2 {
        let rest = p.drop_first();
        assert forall|i: int| #![trigger rest[i]] 0 <= i < rest.len() - 1 implies linked(
            links,
            rest[i],
            rest[i + 1],
        ) by {
            assert(rest[i] == p[i + 1] && rest[i + 1] == p[i + 2]);
        }
        lemma_walk_goes_forward(order, n, links, rest);
        assert(rest.first() == p[1] && rest.last() == p.last());
    }
}

/// A graph that has a topological order has no cycle.
pub proof fn lemma_topological_acyclic(order: Seq<usize>, n: nat, links: Seq<Link>)
    requires
        topological(order, n, links),
        bounded(links, n),
    ensures
        !cyclic(links),
{
    if cyclic(links) {
        let p = choose|p: Seq<int>| #[trigger] is_walk(links, p) && p.first() == p.last();
        lemma_walk_goes_forward(order, n, links, p);
    }
}

/// What is known of the connections `fine` after a connection from `s` to
/// `t` of `coarse` was split by the new node `m`: each is a connection of
/// `coarse` away from `m`, or leads from `s` to `m`, or from `m` to `t`.
pub open spec fn split_of(fine: Seq<Link>, coarse: Seq<Link>, s: int, t: int, m: int) -> bool {
    forall|e: int|
        #![trigger fine[e]]
        0 <= e < fine.len() ==> (linked(coarse, fine[e].source, fine[e].target) && fine[e].source
            != m && fine[e].target != m) || (fine[e].source == s && fine[e].target == m) || (
        fine[e].source == m && fine[e].target == t)
}

/// After a split, a walk between two old nodes follows a walk of the graph
/// before the split.
proof fn lemma_split_walk(fine: Seq<Link>, coarse: Seq<Link>, s: int, t: int, m: int, p: Seq<int>)
    requires
        split_of(fine, coarse, s, t, m),
        linked(coarse, s, t),
        s != m,
        t != m,
        is_walk(fine, p),
        p.first() != m,
        p.last() != m,
    ensures
        reaches(coarse, p.first(), p.last()),
    decreases p.len(),
{
    let e = choose|e: int|
        #![trigger fine[e]]
        0 <= e < fine.len() && fine[e].source == p[0] && fine[e].target == p[1];
    if p[1] != m {
        let c = choose|c: int|
            #![trigger coarse[c]]
            0 <= c < coarse.len() && coarse[c].source == p[0] && coarse[c].target == p[1];
        lemma_link_reaches(coarse, c);
        if p.len() > 2 {
            let rest = p.drop_first();
            assert forall|k: int| #![trigger rest[k]] 0 <= k < rest.len() - 1 implies linked(
                fine,
                rest[k],
                rest[k + 1],
            ) by {
                assert(rest[k] == p[k + 1] && rest[k + 1] == p[k + 2]);
            }
            assert(rest.first() == p[1] && rest.last() == p.last());
            lemma_split_walk(fine, coarse, s, t, m, rest);
            lemma_reaches_transitive(coarse, p[0], p[1], p.last());
        }
    } else {
        assert(p[0] == s);
        assert(p.len() > 2);
        assert(linked(fine, p[1], p[2]));
        let e2 = choose|e2: int|
            #![trigger fine[e2]]
            0 <= e2 < fine.len() && fine[e2].source == p[1] && fine[e2].target == p[2];
        assert(p[2] == t);
        let c = choose|c: int|
            #![trigger coarse[c]]
            0 <= c < coarse.len() && coarse[c].source == s && coarse[c].target == t;
        lemma_link_reaches(coarse, c);
        if p.len() > 3 {
            let rest = p.skip(2);
            assert forall|k: int| #![trigger rest[k]] 0 <= k < rest.len() - 1 implies linked(
                fine,
                rest[k],
                rest[k + 1],
            ) by {
                assert(rest[k] == p[k + 2] && rest[k + 1] == p[k + 3]);
            }
            assert(rest.first() == p[2] && rest.last() == p.last());
            lemma_split_walk(fine, coarse, s, t, m, rest);
            lemma_reaches_transitive(coarse, s, t, p.last());
        }
    }
}

/// Splitting a connection by a new node makes no cycle.
pub proof fn lemma_split_acyclic(coarse: Seq<Link>, fine: Seq<Link>, s: int, t: int, m: int)
    requires
        split_of(fine, coarse, s, t, m),
        linked(coarse, s, t),
        s != m,
        t != m,
        !cyclic(coarse),
    ensures
        !cyclic(fine),
{
    if cyclic(fine) {
        let p = choose|p: Seq<int>| #[trigger] is_walk(fine, p) && p.first() == p.last();
        lemma_cyclic_reaches(coarse);
        if p.first() != m {
            lemma_split_walk(fine, coarse, s, t, m, p);
            assert(reaches(coarse, p.first(), p.first()));
        } else {
            let n = p.len() as int;
            assert(linked(fine, p[0], p[1]));
            let e = choose|e: int|
                #![trigger fine[e]]
                0 <= e < fine.len() && fine[e].source == p[0] && fine[e].target == p[1];
            assert(p[1] == t);
            assert(linked(fine, p[n - 2], p[n - 2 + 1]));
            let e2 = choose|e2: int|
                #![trigger fine[e2]]
                0 <= e2 < fine.len() && fine[e2].source == p[n - 2] && fine[e2].target == p[n - 1];
            assert(p[n - 2] == s);
            assert(n >= 3);
            let c = choose|c: int|
                #![trigger coarse[c]]
                0 <= c < coarse.len() && coarse[c].source == s && coarse[c].target == t;
            lemma_link_reaches(coarse, c);
            if n == 3 {
                assert(s == t);
                assert(reaches(coarse, s, s));
            } else {
                let q = p.subrange(1, n - 1);
                assert forall|k: int| #![trigger q[k]] 0 <= k < q.len() - 1 implies linked(
                    fine,
                    q[k],
                    q[k + 1],
                ) by {
                    assert(q[k] == p[k + 1] && q[k + 1] == p[k + 2]);
                }
                assert(q.first() == t && q.last() == s);
                lemma_split_walk(fine, coarse, s, t, m, q);
                lemma_reaches_transitive(coarse, s, t, s);
            }
        }
    }
}

} // verus!
