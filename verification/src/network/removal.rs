//! Taking a hidden node out of a genome.
use vstd::prelude::*;
use vstd::arithmetic::div_mod::lemma_fundamental_div_mod_converse;
use crate::edge_data::EdgeData;
use crate::innovation_record::InnovationRecord;
use crate::network::network_graph::{kind_at, NetworkGraph};
use crate::network::paths::{
    lemma_link_reaches, lemma_reaches_transitive, lemma_simulation_acyclic, linked, reaches,
};
use crate::network::store::{renamed, swap_removed, touches, Link};
use crate::node_data::NodeData;
use crate::node_kind::NodeKind;
use crate::scalar::Scalar;

verus! {

/// `link` comes into `node` from another node.
pub open spec fn enters(link: Link, node: int) -> bool {
    link.target == node && link.source != node
}

/// `link` goes out of `node` to another node.
pub open spec fn leaves(link: Link, node: int) -> bool {
    link.source == node && link.target != node
}

/// Those of the first `k` connections that come into `node`, in their order.
pub open spec fn entering(links: Seq<Link>, node: int, k: nat) -> Seq<Link>
    decreases k,
{
    if k == 0 {
        Seq::empty()
    } else {
        let rest = entering(links, node, (k - 1) as nat);
        if enters(links[k - 1], node) {
            rest.push(links[k - 1])
        } else {
            rest
        }
    }
}

/// Those of the first `k` connections that go out of `node`, in their order.
pub open spec fn leaving(links: Seq<Link>, node: int, k: nat) -> Seq<Link>
    decreases k,
{
    if k == 0 {
        Seq::empty()
    } else {
        let rest = leaving(links, node, (k - 1) as nat);
        if leaves(links[k - 1], node) {
            rest.push(links[k - 1])
        } else {
            rest
        }
    }
}

/// The connection that stands in for the way through a node along `a` into
/// it and `b` out of it: from where `a` starts to where `b` ends, with the
/// weight of `a`, switched on, under the number that `ledger` holds for the
/// two ids.
pub open spec fn bridge(nodes: Seq<NodeData>, a: Link, b: Link, ledger: InnovationRecord) -> Link {
    Link {
        source: a.source,
        target: b.target,
        data: EdgeData {
            weight: a.data.weight,
            disabled: false,
            innov_number: ledger.innovation(nodes[a.source].id, nodes[b.target].id),
        },
    }
}

/// The bridges over `node`: one for each connection into it and each
/// connection out of it, the connections into it in turn, and for each of
/// them the connections out of it in turn.
pub open spec fn bridges(
    nodes: Seq<NodeData>,
    links: Seq<Link>,
    node: int,
    ledger: InnovationRecord,
) -> Seq<Link> {
    let inc = entering(links, node, links.len());
    let out = leaving(links, node, links.len());
    Seq::new(
        inc.len() * out.len(),
        |x: int| bridge(nodes, inc[x / (out.len() as int)], out[x % (out.len() as int)], ledger),
    )
}

/// The node ids that bridge `x` over `node` joins: the id of the node where
/// its connection into `node` starts, and that of the node where its
/// connection out of `node` ends.
pub open spec fn bridge_ids(nodes: Seq<NodeData>, links: Seq<Link>, node: int, x: int) -> (
    usize,
    usize,
) {
    let inc = entering(links, node, links.len());
    let out = leaving(links, node, links.len());
    (nodes[inc[x / (out.len() as int)].source].id, nodes[out[x % (out.len() as int)].target].id)
}

/// `later` is `earlier` after the numbers of the first `k` bridges over
/// `node` were asked for, one after the other in the order of the bridges.
pub open spec fn bridges_asked(
    earlier: InnovationRecord,
    later: InnovationRecord,
    nodes: Seq<NodeData>,
    links: Seq<Link>,
    node: int,
    k: nat,
) -> bool
    decreases k,
{
    if k == 0 {
        later == earlier
    } else {
        exists|half: InnovationRecord|
            bridges_asked(earlier, half, nodes, links, node, (k - 1) as nat) && #[trigger] later.asked(
                &half,
                bridge_ids(nodes, links, node, k - 1).0,
                bridge_ids(nodes, links, node, k - 1).1,
            )
    }
}

/// `links` after each of its first `i` connections that touches `node` was
/// taken out, the one with the highest index first; the last connection
/// moves into each gap.
pub open spec fn pruned(links: Seq<Link>, node: int, i: nat) -> Seq<Link>
    decreases i,
{
    if i == 0 {
        links
    } else if touches(links[i - 1], node) {
        pruned(swap_removed(links, i - 1), node, (i - 1) as nat)
    } else {
        pruned(links, node, (i - 1) as nat)
    }
}

/// The connections of a genome after `node` was bridged and taken out.
pub open spec fn without_node(
    nodes: Seq<NodeData>,
    links: Seq<Link>,
    node: int,
    ledger: InnovationRecord,
) -> Seq<Link> {
    pruned(links + bridges(nodes, links, node, ledger), node, links.len()).map_values(
        |l: Link| renamed(l, nodes.len() - 1, node),
    )
}

/// The connections that come into a node are connections of the graph.
pub proof fn lemma_entering(links: Seq<Link>, node: int, k: nat)
    requires
        k <= links.len(),
    ensures
        entering(links, node, k).len() <= k,
        forall|x: int|
            #![trigger entering(links, node, k)[x]]
            0 <= x < entering(links, node, k).len() ==> enters(entering(links, node, k)[x], node)
                && exists|e: int|
                #![trigger links[e]]
                0 <= e < k && links[e] == entering(links, node, k)[x],
    decreases k,
{
    if k > 0 {
        lemma_entering(links, node, (k - 1) as nat);
        let rest = entering(links, node, (k - 1) as nat);
        let all = entering(links, node, k);
        assert forall|x: int| #![trigger all[x]] 0 <= x < all.len() implies enters(all[x], node)
            && exists|e: int| #![trigger links[e]] 0 <= e < k && links[e] == all[x] by {
            if x < rest.len() {
                assert(all[x] == rest[x]);
                let e = choose|e: int| #![trigger links[e]] 0 <= e < k - 1 && links[e] == rest[x];
                assert(0 <= e < k && links[e] == all[x]);
            } else {
                assert(links[k - 1] == all[x]);
            }
        }
    }
}

/// The connections that go out of a node are connections of the graph.
pub proof fn lemma_leaving(links: Seq<Link>, node: int, k: nat)
    requires
        k <= links.len(),
    ensures
        leaving(links, node, k).len() <= k,
        forall|x: int|
            #![trigger leaving(links, node, k)[x]]
            0 <= x < leaving(links, node, k).len() ==> leaves(leaving(links, node, k)[x], node)
                && exists|e: int|
                #![trigger links[e]]
                0 <= e < k && links[e] == leaving(links, node, k)[x],
    decreases k,
{
    if k > 0 {
        lemma_leaving(links, node, (k - 1) as nat);
        let rest = leaving(links, node, (k - 1) as nat);
        let all = leaving(links, node, k);
        assert forall|x: int| #![trigger all[x]] 0 <= x < all.len() implies leaves(all[x], node)
            && exists|e: int| #![trigger links[e]] 0 <= e < k && links[e] == all[x] by {
            if x < rest.len() {
                assert(all[x] == rest[x]);
                let e = choose|e: int| #![trigger links[e]] 0 <= e < k - 1 && links[e] == rest[x];
                assert(0 <= e < k && links[e] == all[x]);
            } else {
                assert(links[k - 1] == all[x]);
            }
        }
    }
}

/// What is left after pruning: connections of the graph that do not touch
/// the node, and all of those.
pub proof fn lemma_pruned(links: Seq<Link>, node: int, i: nat)
    requires
        i <= links.len(),
        forall|k: int| i <= k < links.len() ==> !touches(#[trigger] links[k], node),
    ensures
        pruned(links, node, i).len() <= links.len(),
        forall|k: int|
            #![trigger pruned(links, node, i)[k]]
            0 <= k < pruned(links, node, i).len() ==> !touches(pruned(links, node, i)[k], node)
                && exists|m: int|
                #![trigger links[m]]
                0 <= m < links.len() && links[m] == pruned(links, node, i)[k],
        forall|m: int|
            #![trigger links[m]]
            0 <= m < links.len() && !touches(links[m], node) ==> exists|k: int|
                #![trigger pruned(links, node, i)[k]]
                0 <= k < pruned(links, node, i).len() && pruned(links, node, i)[k] == links[m],
    decreases i,
{
    let r = pruned(links, node, i);
    if i == 0 {
        assert forall|m: int|
            #![trigger links[m]]
            0 <= m < links.len() && !touches(links[m], node) implies exists|k: int|
            #![trigger r[k]]
            0 <= k < r.len() && r[k] == links[m] by {
            assert(r[m] == links[m]);
        }
    } else if touches(links[i - 1], node) {
        let next = swap_removed(links, i - 1);
        assert forall|k: int| i - 1 <= k < next.len() implies !touches(#[trigger] next[k], node) by {
            if k == i - 1 {
                assert(next[k] == links[links.len() - 1]);
            } else {
                assert(next[k] == links[k]);
            }
        }
        lemma_pruned(next, node, (i - 1) as nat);
        assert forall|k: int| #![trigger r[k]] 0 <= k < r.len() implies !touches(r[k], node)
            && exists|m: int| #![trigger links[m]] 0 <= m < links.len() && links[m] == r[k] by {
            let m = choose|m: int| #![trigger next[m]] 0 <= m < next.len() && next[m] == r[k];
            let mm = if m == i - 1 { links.len() - 1 } else { m };
            assert(links[mm] == r[k]);
        }
        assert forall|m: int|
            #![trigger links[m]]
            0 <= m < links.len() && !touches(links[m], node) implies exists|k: int|
            #![trigger r[k]]
            0 <= k < r.len() && r[k] == links[m] by {
            let mm = if m == links.len() - 1 { i - 1 } else { m };
            assert(next[mm] == links[m]);
        }
    } else {
        lemma_pruned(links, node, (i - 1) as nat);
    }
}

/// After a node was taken out there are no more connections than there were
/// connections and bridges.
pub proof fn lemma_without_node(
    nodes: Seq<NodeData>,
    links: Seq<Link>,
    node: int,
    ledger: InnovationRecord,
)
    ensures
        without_node(nodes, links, node, ledger).len() <= links.len() + entering(
            links,
            node,
            links.len(),
        ).len() * leaving(links, node, links.len()).len(),
{
    let start = links + bridges(nodes, links, node, ledger);
    lemma_pruned_len(start, node, links.len());
}

/// Pruning makes a sequence no longer.
pub proof fn lemma_pruned_len(links: Seq<Link>, node: int, i: nat)
    requires
        i <= links.len(),
    ensures
        pruned(links, node, i).len() <= links.len(),
    decreases i,
{
    if i > 0 {
        if touches(links[i - 1], node) {
            lemma_pruned_len(swap_removed(links, i - 1), node, (i - 1) as nat);
        } else {
            lemma_pruned_len(links, node, (i - 1) as nat);
        }
    }
}

impl NetworkGraph {
    /// Takes the hidden node `node` out. First each way through it is
    /// bridged: for each connection into it and each connection out of it, a
    /// new connection leads from the start of the first to the end of the
    /// second, with the weight of the first. Then the connections that touch
    /// the node leave, and the node itself; the last node takes over its
    /// index.
    pub fn remove_node(&mut self, node: usize, innov_record: &mut InnovationRecord)
        requires
            old(self).shaped(),
            node < old(self).nodes().len(),
            old(self).nodes()[node as int].kind == NodeKind::Hidden,
            old(self).links().len() + entering(
                old(self).links(),
                node as int,
                old(self).links().len(),
            ).len() * leaving(old(self).links(), node as int, old(self).links().len()).len()
                <= u32::MAX,
            old(innov_record).connections() + entering(
                old(self).links(),
                node as int,
                old(self).links().len(),
            ).len() * leaving(old(self).links(), node as int, old(self).links().len()).len()
                <= usize::MAX,
        ensures
            final(self).nodes() == swap_removed(old(self).nodes(), node as int),
            final(self).links() == without_node(
                old(self).nodes(),
                old(self).links(),
                node as int,
                *final(innov_record),
            ),
            final(self).inputs() == old(self).inputs(),
            final(self).outputs() == old(self).outputs(),
            final(self).cached() is None,
            final(self).shaped(),
            old(self).quiet() ==> final(self).quiet(),
            old(self).acyclic() ==> final(self).acyclic(),
            final(innov_record).extends(old(innov_record)),
            final(innov_record).nodes() == old(innov_record).nodes(),
            final(innov_record).connections() <= old(innov_record).connections() + entering(
                old(self).links(),
                node as int,
                old(self).links().len(),
            ).len() * leaving(old(self).links(), node as int, old(self).links().len()).len(),
            bridges_asked(
                *old(innov_record),
                *final(innov_record),
                old(self).nodes(),
                old(self).links(),
                node as int,
                entering(old(self).links(), node as int, old(self).links().len()).len() * leaving(
                    old(self).links(),
                    node as int,
                    old(self).links().len(),
                ).len(),
            ),
            final(innov_record).species() == old(innov_record).species(),
            old(innov_record).wf() ==> final(innov_record).wf(),
            old(self).registered(old(innov_record)) ==> final(self).registered(final(innov_record)),
    {
        let count = self.edge_count();
        let ghost nodes = self.nodes();
        let ghost links = self.links();
        let ghost inc = entering(links, node as int, links.len());
        let ghost out = leaving(links, node as int, links.len());
        let mut sources: Vec<(usize, Scalar)> = Vec::new();
        let mut targets: Vec<usize> = Vec::new();
        let mut e: usize = 0;
        while e < count
            invariant
                e <= count,
                count == links.len(),
                self.links() == links,
                sources@.len() == entering(links, node as int, e as nat).len(),
                targets@.len() == leaving(links, node as int, e as nat).len(),
                forall|x: int|
                    0 <= x < sources@.len() ==> (#[trigger] sources@[x]).0 == entering(
                        links,
                        node as int,
                        e as nat,
                    )[x].source && sources@[x].1 == entering(
                        links,
                        node as int,
                        e as nat,
                    )[x].data.weight,
                forall|x: int|
                    0 <= x < targets@.len() ==> (#[trigger] targets@[x]) == leaving(
                        links,
                        node as int,
                        e as nat,
                    )[x].target,
            decreases count - e,
        {
            let ends = self.edge_endpoints(e);
            if ends.1 == node && ends.0 != node {
                sources.push((ends.0, self.edge(e).get_weight()));
            }
            if ends.0 == node && ends.1 != node {
                targets.push(ends.1);
            }
            e += 1;
        }
        proof {
            lemma_entering(links, node as int, links.len());
            lemma_leaving(links, node as int, links.len());
        }
        let mut a: usize = 0;
        while a < sources.len()
            invariant
                a <= sources@.len(),
                sources@.len() == inc.len(),
                targets@.len() == out.len(),
                nodes == old(self).nodes(),
                links == old(self).links(),
                inc == entering(links, node as int, links.len()),
                out == leaving(links, node as int, links.len()),
                old(self).shaped(),
                node < nodes.len(),
                links.len() + inc.len() * out.len() <= u32::MAX,
                old(innov_record).connections() + inc.len() * out.len() <= usize::MAX,
                forall|x: int|
                    0 <= x < sources@.len() ==> (#[trigger] sources@[x]).0 == inc[x].source
                        && sources@[x].1 == inc[x].data.weight,
                forall|x: int| 0 <= x < targets@.len() ==> (#[trigger] targets@[x]) == out[x].target,
                forall|x: int|
                    #![trigger inc[x]]
                    0 <= x < inc.len() ==> enters(inc[x], node as int) && exists|e: int|
                        #![trigger links[e]]
                        0 <= e < links.len() && links[e] == inc[x],
                forall|x: int|
                    #![trigger out[x]]
                    0 <= x < out.len() ==> leaves(out[x], node as int) && exists|e: int|
                        #![trigger links[e]]
                        0 <= e < links.len() && links[e] == out[x],
                self.shaped(),
                self.nodes() == nodes,
                self.inputs() == old(self).inputs(),
                self.outputs() == old(self).outputs(),
                self.links().len() == links.len() + a * out.len(),
                self.links().take(links.len() as int) == links,
                forall|x: int|
                    0 <= x < a * out.len() ==> #[trigger] bridged(
                        self.links(),
                        nodes,
                        links,
                        node as int,
                        *innov_record,
                        x,
                    ),
                innov_record.connections() <= old(innov_record).connections() + a * out.len(),
                bridges_asked(
                    *old(innov_record),
                    *innov_record,
                    nodes,
                    links,
                    node as int,
                    (a * out.len()) as nat,
                ),
                innov_record.extends(old(innov_record)),
                innov_record.nodes() == old(innov_record).nodes(),
                innov_record.species() == old(innov_record).species(),
                old(innov_record).wf() ==> innov_record.wf(),
                old(self).registered(old(innov_record)) ==> self.registered(innov_record),
            decreases sources@.len() - a,
        {
            let mut b: usize = 0;
            while b < targets.len()
                invariant
                    a < sources@.len(),
                    b <= targets@.len(),
                    sources@.len() == inc.len(),
                    targets@.len() == out.len(),
                    nodes == old(self).nodes(),
                    links == old(self).links(),
                    inc == entering(links, node as int, links.len()),
                    out == leaving(links, node as int, links.len()),
                    old(self).shaped(),
                    node < nodes.len(),
                    links.len() + inc.len() * out.len() <= u32::MAX,
                    old(innov_record).connections() + inc.len() * out.len() <= usize::MAX,
                    forall|x: int|
                        0 <= x < sources@.len() ==> (#[trigger] sources@[x]).0 == inc[x].source
                            && sources@[x].1 == inc[x].data.weight,
                    forall|x: int|
                        0 <= x < targets@.len() ==> (#[trigger] targets@[x]) == out[x].target,
                    forall|x: int|
                        #![trigger inc[x]]
                        0 <= x < inc.len() ==> enters(inc[x], node as int) && exists|e: int|
                            #![trigger links[e]]
                            0 <= e < links.len() && links[e] == inc[x],
                    forall|x: int|
                        #![trigger out[x]]
                        0 <= x < out.len() ==> leaves(out[x], node as int) && exists|e: int|
                            #![trigger links[e]]
                            0 <= e < links.len() && links[e] == out[x],
                    self.shaped(),
                    self.nodes() == nodes,
                    self.inputs() == old(self).inputs(),
                    self.outputs() == old(self).outputs(),
                    self.links().len() == links.len() + a * out.len() + b,
                    self.links().take(links.len() as int) == links,
                    forall|x: int|
                        0 <= x < a * out.len() + b ==> #[trigger] bridged(
                            self.links(),
                            nodes,
                            links,
                            node as int,
                            *innov_record,
                            x,
                        ),
                    innov_record.connections() <= old(innov_record).connections() + a * out.len()
                        + b,
                    bridges_asked(
                        *old(innov_record),
                        *innov_record,
                        nodes,
                        links,
                        node as int,
                        (a * out.len() + b) as nat,
                    ),
                    innov_record.extends(old(innov_record)),
                    innov_record.nodes() == old(innov_record).nodes(),
                    innov_record.species() == old(innov_record).species(),
                    old(innov_record).wf() ==> innov_record.wf(),
                    old(self).registered(old(innov_record)) ==> self.registered(innov_record),
                decreases targets@.len() - b,
            {
                proof {
                    assert(a * out.len() + b < inc.len() * out.len()) by (nonlinear_arith)
                        requires
                            a < inc.len(),
                            b < out.len(),
                    ;
                    lemma_fundamental_div_mod_converse(
                        a * out.len() + b,
                        out.len() as int,
                        a as int,
                        b as int,
                    );
                    let ea = choose|e: int|
                        #![trigger links[e]]
                        0 <= e < links.len() && links[e] == inc[a as int];
                    let eb = choose|e: int|
                        #![trigger links[e]]
                        0 <= e < links.len() && links[e] == out[b as int];
                    assert(0 <= links[ea].source < nodes.len());
                    assert(0 <= links[eb].target < nodes.len());
                }
                let source = sources[a];
                let target = targets[b];
                let ghost before = *innov_record;
                let ghost earlier = self.links();
                self.add_connection(source.0, target, source.1, innov_record);
                proof {
                    let now = self.links();
                    assert(now.take(links.len() as int) =~= links) by {
                        assert forall|k: int| 0 <= k < links.len() implies now[k] == links[k] by {
                            assert(earlier.take(links.len() as int)[k] == earlier[k]);
                        }
                    }
                    assert forall|x: int| 0 <= x < a * out.len() + b + 1 implies #[trigger] bridged(
                        now,
                        nodes,
                        links,
                        node as int,
                        *innov_record,
                        x,
                    ) by {
                        if x < a * out.len() + b {
                            assert(bridged(earlier, nodes, links, node as int, before, x));
                        }
                    }
                    let next = (a * out.len() + b + 1) as nat;
                    let ids = bridge_ids(nodes, links, node as int, next - 1);
                    assert(ids.0 == nodes[source.0 as int].id && ids.1 == nodes[target as int].id);
                    assert(bridges_asked(
                        *old(innov_record),
                        before,
                        nodes,
                        links,
                        node as int,
                        (next - 1) as nat,
                    ));
                    assert(innov_record.asked(&before, ids.0, ids.1));
                    assert(bridges_asked(
                        *old(innov_record),
                        *innov_record,
                        nodes,
                        links,
                        node as int,
                        next,
                    ));
                }
                b += 1;
            }
            proof {
                assert(a * out.len() + out.len() == (a + 1) * out.len()) by (nonlinear_arith);
            }
            a += 1;
        }
        let ghost start = self.links();
        proof {
            let wanted = links + bridges(nodes, links, node as int, *innov_record);
            assert(start.len() == wanted.len());
            assert forall|k: int| 0 <= k < start.len() implies start[k] == wanted[k] by {
                if k < links.len() {
                    assert(start.take(links.len() as int)[k] == start[k]);
                } else {
                    assert(bridged(start, nodes, links, node as int, *innov_record, k - links.len()));
                }
            }
            assert(start =~= wanted);
            assert forall|k: int| count <= k < start.len() implies !touches(
                #[trigger] start[k],
                node as int,
            ) by {
                assert(bridged(start, nodes, links, node as int, *innov_record, k - links.len()));
                self.lemma_bridge(nodes, links, node as int, *innov_record, k - links.len());
            }
        }
        let mut i: usize = count;
        while i > 0
            invariant
                i <= count,
                i <= self.links().len() <= u32::MAX,
                self.nodes() == nodes,
                self.inputs() == old(self).inputs(),
                self.outputs() == old(self).outputs(),
                pruned(self.links(), node as int, i as nat) == pruned(
                    start,
                    node as int,
                    count as nat,
                ),
                forall|k: int|
                    i <= k < self.links().len() ==> !touches(
                        #[trigger] self.links()[k],
                        node as int,
                    ),
            decreases i,
        {
            i -= 1;
            let ends = self.edge_endpoints(i);
            if ends.0 == node || ends.1 == node {
                let ghost before = self.links();
                self.drop_link(i);
                proof {
                    let now = self.links();
                    assert forall|k: int| i <= k < now.len() implies !touches(
                        #[trigger] now[k],
                        node as int,
                    ) by {
                        if k == i {
                            assert(now[k] == before[before.len() - 1]);
                        } else {
                            assert(now[k] == before[k]);
                        }
                    }
                }
            }
        }
        self.drop_node(node);
        proof {
            self.lemma_removed_shape(old(self), node as int, start, innov_record);
            if old(self).acyclic() {
                self.lemma_removed_acyclic(old(self), node as int, start, innov_record);
            }
            if old(self).registered(old(innov_record)) {
                self.lemma_removed_registered(
                    old(self),
                    node as int,
                    start,
                    old(innov_record),
                    innov_record,
                );
            }
        }
    }

    /// How many connections come into `node` from another node, and how
    /// many go out of it to another node.
    pub fn degrees(&self, node: usize) -> (counts: (usize, usize))
        ensures
            counts.0 == entering(self.links(), node as int, self.links().len()).len(),
            counts.1 == leaving(self.links(), node as int, self.links().len()).len(),
    {
        let count = self.edge_count();
        let mut incoming: usize = 0;
        let mut outgoing: usize = 0;
        let mut e: usize = 0;
        while e < count
            invariant
                e <= count,
                count == self.links().len(),
                incoming == entering(self.links(), node as int, e as nat).len(),
                outgoing == leaving(self.links(), node as int, e as nat).len(),
                incoming <= e,
                outgoing <= e,
            decreases count - e,
        {
            let ends = self.edge_endpoints(e);
            if ends.1 == node && ends.0 != node {
                incoming += 1;
            }
            if ends.0 == node && ends.1 != node {
                outgoing += 1;
            }
            e += 1;
        }
        (incoming, outgoing)
    }

    /// A bridge joins two nodes other than the one it bridges, and follows a
    /// way through that node.
    proof fn lemma_bridge(
        &self,
        nodes: Seq<NodeData>,
        links: Seq<Link>,
        node: int,
        ledger: InnovationRecord,
        x: int,
    )
        requires
            0 <= x < bridges(nodes, links, node, ledger).len(),
        ensures
            !touches(bridges(nodes, links, node, ledger)[x], node),
            linked(links, bridges(nodes, links, node, ledger)[x].source, node),
            linked(links, node, bridges(nodes, links, node, ledger)[x].target),
    {
        let inc = entering(links, node, links.len());
        let out = leaving(links, node, links.len());
        lemma_entering(links, node, links.len());
        lemma_leaving(links, node, links.len());
        assert(out.len() > 0) by (nonlinear_arith)
            requires
                0 <= x < inc.len() * out.len(),
        ;
        let a = x / (out.len() as int);
        let b = x % (out.len() as int);
        assert(0 <= a < inc.len()) by (nonlinear_arith)
            requires
                0 <= x < inc.len() * out.len(),
                out.len() > 0,
                a == x / (out.len() as int),
        ;
        assert(enters(inc[a], node));
        assert(leaves(out[b], node));
        let ea = choose|e: int| #![trigger links[e]] 0 <= e < links.len() && links[e] == inc[a];
        let eb = choose|e: int| #![trigger links[e]] 0 <= e < links.len() && links[e] == out[b];
        assert(links[ea].source == inc[a].source && links[ea].target == node);
        assert(links[eb].source == node && links[eb].target == out[b].target);
    }

    /// What the premises of the lemmas below have in common: `self` is
    /// `before` after the connections `start`, which are those of `before`
    /// and the bridges over `node`, were pruned and the node was dropped.
    spec fn removed_from(
        &self,
        before: &NetworkGraph,
        node: int,
        start: Seq<Link>,
        ledger: &InnovationRecord,
    ) -> bool {
        &&& before.shaped()
        &&& 0 <= node < before.nodes().len()
        &&& before.nodes()[node].kind == NodeKind::Hidden
        &&& start == before.links() + bridges(before.nodes(), before.links(), node, *ledger)
        &&& forall|x: int|
            0 <= x < start.len() - before.links().len() ==> #[trigger] bridged(
                start,
                before.nodes(),
                before.links(),
                node,
                *ledger,
                x,
            )
        &&& self.nodes() == swap_removed(before.nodes(), node)
        &&& self.links() == pruned(start, node, before.links().len()).map_values(
            |l: Link| renamed(l, before.nodes().len() - 1, node),
        )
        &&& self.inputs() == before.inputs()
        &&& self.outputs() == before.outputs()
        &&& self.cached() is None
        &&& start.len() <= u32::MAX
    }

    /// Each connection that is left stands for a connection of the genome
    /// before, or for a bridge: it joins the same two nodes under their new
    /// indices, away from the node that left, along a way of the genome
    /// before.
    proof fn lemma_kept(
        &self,
        before: &NetworkGraph,
        node: int,
        start: Seq<Link>,
        ledger: &InnovationRecord,
    )
        requires
            self.removed_from(before, node, start, ledger),
        ensures
            self.links().len() == pruned(start, node, before.links().len()).len(),
            self.links().len() <= start.len(),
            node > before.inputs() + before.outputs(),
            forall|k: int|
                #![trigger self.links()[k]]
                0 <= k < self.links().len() ==> {
                    let l = pruned(start, node, before.links().len())[k];
                    let n = before.nodes().len() as int;
                    &&& self.links()[k] == renamed(l, n - 1, node)
                    &&& !touches(l, node)
                    &&& 0 <= l.source < n && 0 <= l.target < n
                    &&& 0 <= self.links()[k].source < n - 1 && 0 <= self.links()[k].target < n - 1
                    &&& self.nodes()[self.links()[k].source] == before.nodes()[l.source]
                    &&& self.nodes()[self.links()[k].target] == before.nodes()[l.target]
                    &&& reaches(before.links(), l.source, l.target)
                    &&& exists|m: int| #![trigger start[m]] 0 <= m < start.len() && start[m] == l
                },
    {
        let nodes = before.nodes();
        let links = before.links();
        let n = nodes.len() as int;
        let last = n - 1;
        let extra = bridges(nodes, links, node, *ledger);
        let kept = pruned(start, node, links.len());
        let now = self.links();
        assert forall|k: int| links.len() <= k < start.len() implies !touches(
            #[trigger] start[k],
            node,
        ) by {
            self.lemma_bridge(nodes, links, node, *ledger, k - links.len());
        }
        lemma_pruned(start, node, links.len());
        assert(nodes[node].kind == kind_at(before.inputs(), before.outputs(), node));
        assert forall|k: int| #![trigger now[k]] 0 <= k < now.len() implies {
            let l = kept[k];
            &&& now[k] == renamed(l, last, node)
            &&& !touches(l, node)
            &&& 0 <= l.source < n && 0 <= l.target < n
            &&& 0 <= now[k].source < n - 1 && 0 <= now[k].target < n - 1
            &&& self.nodes()[now[k].source] == nodes[l.source]
            &&& self.nodes()[now[k].target] == nodes[l.target]
            &&& reaches(links, l.source, l.target)
            &&& exists|m: int| #![trigger start[m]] 0 <= m < start.len() && start[m] == l
        } by {
            let l = kept[k];
            let m = choose|m: int| #![trigger start[m]] 0 <= m < start.len() && start[m] == kept[k];
            if m < links.len() {
                assert(start[m] == links[m]);
                lemma_link_reaches(links, m);
            } else {
                let x = m - links.len();
                assert(start[m] == extra[x]);
                self.lemma_bridge(nodes, links, node, *ledger, x);
                let ea = choose|e: int|
                    #![trigger links[e]]
                    0 <= e < links.len() && links[e].source == l.source && links[e].target == node;
                let eb = choose|e: int|
                    #![trigger links[e]]
                    0 <= e < links.len() && links[e].source == node && links[e].target == l.target;
                lemma_link_reaches(links, ea);
                lemma_link_reaches(links, eb);
                lemma_reaches_transitive(links, l.source, node, l.target);
            }
        }
    }

    /// Taking a node out leaves the genome in shape.
    proof fn lemma_removed_shape(
        &self,
        before: &NetworkGraph,
        node: int,
        start: Seq<Link>,
        ledger: &InnovationRecord,
    )
        requires
            self.removed_from(before, node, start, ledger),
        ensures
            self.shaped(),
            before.quiet() ==> self.quiet(),
    {
        let nodes = before.nodes();
        let last = nodes.len() - 1;
        self.lemma_kept(before, node, start, ledger);
        assert forall|i: int| 0 <= i < self.nodes().len() implies (#[trigger] self.nodes()[i]).kind
            == kind_at(self.inputs(), self.outputs(), i) by {
            if i == node {
                assert(self.nodes()[i] == nodes[last]);
            } else {
                assert(self.nodes()[i] == nodes[i]);
            }
        }
        assert forall|i: int| 0 <= i <= self.inputs() + self.outputs() implies (
        #[trigger] self.nodes()[i]).id == i by {
            assert(self.nodes()[i] == nodes[i]);
        }
        if before.quiet() {
            assert forall|i: int| 0 <= i < self.nodes().len() implies (
            #[trigger] self.nodes()[i]).quiet() by {
                if i == node {
                    assert(self.nodes()[i] == nodes[last]);
                } else {
                    assert(self.nodes()[i] == nodes[i]);
                }
            }
        }
    }

    /// Taking a node out makes no cycle.
    proof fn lemma_removed_acyclic(
        &self,
        before: &NetworkGraph,
        node: int,
        start: Seq<Link>,
        ledger: &InnovationRecord,
    )
        requires
            self.removed_from(before, node, start, ledger),
            before.acyclic(),
        ensures
            self.acyclic(),
    {
        let links = before.links();
        let last = before.nodes().len() - 1;
        let kept = pruned(start, node, links.len());
        let now = self.links();
        self.lemma_kept(before, node, start, ledger);
        let f = |v: int| if v == node { last } else { v };
        assert forall|k: int| #![trigger now[k]] 0 <= k < now.len() implies reaches(
            links,
            f(now[k].source),
            f(now[k].target),
        ) by {
            let l = kept[k];
            assert(now[k] == renamed(l, last, node));
            assert(f(now[k].source) == l.source);
            assert(f(now[k].target) == l.target);
        }
        lemma_simulation_acyclic(now, links, f);
    }

    /// Taking a node out leaves the genome in its run.
    proof fn lemma_removed_registered(
        &self,
        before: &NetworkGraph,
        node: int,
        start: Seq<Link>,
        earlier: &InnovationRecord,
        ledger: &InnovationRecord,
    )
        requires
            self.removed_from(before, node, start, ledger),
            ledger.extends(earlier),
            before.registered(earlier),
        ensures
            self.registered(ledger),
    {
        let nodes = before.nodes();
        let links = before.links();
        let last = nodes.len() - 1;
        let kept = pruned(start, node, links.len());
        let now = self.links();
        self.lemma_kept(before, node, start, ledger);
        before.lemma_registered_later(earlier, ledger);
        assert forall|i: int, j: int| 0 <= i < j < self.nodes().len() implies (
        #[trigger] self.nodes()[i]).id != (#[trigger] self.nodes()[j]).id by {
            let ii = if i == node { last } else { i };
            let jj = if j == node { last } else { j };
            assert(self.nodes()[i] == nodes[ii]);
            assert(self.nodes()[j] == nodes[jj]);
            if ii < jj {
                assert(nodes[ii].id != nodes[jj].id);
            } else {
                assert(nodes[jj].id != nodes[ii].id);
            }
        }
        assert forall|i: int| 0 <= i < self.nodes().len() implies (#[trigger] self.nodes()[i]).id
            < ledger.nodes() by {
            let ii = if i == node { last } else { i };
            assert(self.nodes()[i] == nodes[ii]);
        }
        assert forall|k: int| #![trigger self.links()[k]] 0 <= k < self.links().len() implies ledger.knows(
            self.source_id(k),
            self.target_id(k),
        ) && ledger.innovation(self.source_id(k), self.target_id(k))
            == self.links()[k].data.innov_number by {
            let l = kept[k];
            assert(now[k] == renamed(l, last, node));
            let m = choose|m: int| #![trigger start[m]] 0 <= m < start.len() && start[m] == l;
            if m < links.len() {
                assert(start[m] == links[m]);
                assert(before.source_id(m) == self.source_id(k));
                assert(before.target_id(m) == self.target_id(k));
            } else {
                assert(bridged(start, nodes, links, node, *ledger, m - links.len()));
            }
        }
    }
}

/// The connection of `now` at `links.len() + x` is bridge `x` over `node`,
/// and `ledger` knows the pair of ids that it joins.
pub open spec fn bridged(
    now: Seq<Link>,
    nodes: Seq<NodeData>,
    links: Seq<Link>,
    node: int,
    ledger: InnovationRecord,
    x: int,
) -> bool {
    let inc = entering(links, node, links.len());
    let out = leaving(links, node, links.len());
    let a = inc[x / (out.len() as int)];
    let b = out[x % (out.len() as int)];
    now[links.len() + x] == bridge(nodes, a, b, ledger) && ledger.knows(
        nodes[a.source].id,
        nodes[b.target].id,
    )
}

} // verus!
