//! One activation pass through a genome.
use vstd::prelude::*;
use crate::activations::ActivationKind;
use crate::network::network_graph::{kind_at, NetworkGraph};
use crate::network::paths::{bounded, cyclic, listed, topological};
use crate::network::store::Link;
use crate::node_data::NodeData;
use crate::node_kind::NodeKind;
use crate::scalar::{product_of, Arithmetic, Scalar};

verus! {

/// `b` holds the node genes of `a`: as many, each of the same kind and under
/// the same id. What the nodes have gathered may differ.
pub open spec fn same_genes(a: Seq<NodeData>, b: Seq<NodeData>) -> bool {
    &&& a.len() == b.len()
    &&& forall|i: int|
        0 <= i < a.len() ==> (#[trigger] b[i]).kind == a[i].kind && b[i].id == a[i].id
}

/// `b` is `a` but for what its nodes have gathered.
pub open spec fn same_build(a: &NetworkGraph, b: &NetworkGraph) -> bool {
    &&& same_genes(a.nodes(), b.nodes())
    &&& b.links() == a.links()
    &&& b.inputs() == a.inputs()
    &&& b.outputs() == a.outputs()
    &&& b.cached() == a.cached()
}

/// A connection that is switched on leads from node `a` to node `b`.
pub open spec fn live_linked(links: Seq<Link>, a: int, b: int) -> bool {
    exists|e: int|
        #![trigger links[e]]
        0 <= e < links.len() && links[e].source == a && links[e].target == b
            && !links[e].data.disabled
}

/// `p` lists the nodes of a way along connections that are switched on.
pub open spec fn flows(links: Seq<Link>, p: Seq<int>) -> bool {
    &&& p.len() >= 2
    &&& forall|k: int| #![trigger p[k]] 0 <= k < p.len() - 1 ==> live_linked(links, p[k], p[k + 1])
}

/// A way along connections that are switched on leads from `a` to `b`.
pub open spec fn carries(links: Seq<Link>, a: int, b: int) -> bool {
    exists|p: Seq<int>| #[trigger] flows(links, p) && p.first() == a && p.last() == b
}

/// Node `t` is reached in a pass that starts from the nodes `nodes`: a way
/// along connections that are switched on leads to it from a node that has
/// something to pass on from the start.
pub open spec fn sparked(nodes: Seq<NodeData>, links: Seq<Link>, t: int) -> bool {
    exists|s: int| 0 <= s < nodes.len() && (#[trigger] nodes[s]).fires() && carries(links, s, t)
}

/// Node `v` has something to pass on in a pass that starts from the nodes
/// `nodes`: it has from the start, or it is reached.
pub open spec fn fired(nodes: Seq<NodeData>, links: Seq<Link>, v: int) -> bool {
    nodes[v].fires() || sparked(nodes, links, v)
}

/// One of the first `k` nodes of `order` has something to pass on, and a
/// connection that is switched on to pass it on to `t`.
pub open spec fn fed(
    nodes: Seq<NodeData>,
    links: Seq<Link>,
    order: Seq<usize>,
    k: int,
    t: int,
) -> bool {
    exists|j: int|
        0 <= j < k && j < order.len() && fired(nodes, links, (#[trigger] order[j]) as int)
            && live_linked(links, order[j] as int, t)
}

/// The squashing function of `node`: `output_func` for an output node,
/// `hidden_func` for any other.
pub open spec fn func_of(
    node: NodeData,
    hidden_func: ActivationKind,
    output_func: ActivationKind,
) -> ActivationKind {
    if node.kind == NodeKind::Output {
        output_func
    } else {
        hidden_func
    }
}

/// `now` holds the nodes `before` after the connection `link` has handed on
/// `value`: a connection that is switched off hands on nothing; one that is
/// on hands `value` times its weight to the node it leads to.
pub open spec fn handed_on<A: Arithmetic>(
    ops: &A,
    link: Link,
    value: Scalar,
    before: Seq<NodeData>,
    now: Seq<NodeData>,
) -> bool {
    if link.data.disabled {
        now == before
    } else {
        exists|input: Scalar| #[trigger]
            product_of(ops, value, link.data.weight, input) && now == before.update(
                link.target,
                now[link.target],
            ) && before[link.target].took(ops, input, now[link.target])
    }
}

/// `now` holds the nodes `start` after the first `k` connections of `edges`
/// have handed on `value`, one after the other.
pub open spec fn passed_on<A: Arithmetic>(
    ops: &A,
    links: Seq<Link>,
    edges: Seq<usize>,
    value: Scalar,
    start: Seq<NodeData>,
    k: nat,
    now: Seq<NodeData>,
) -> bool
    decreases k,
{
    if k == 0 {
        now == start
    } else {
        exists|before: Seq<NodeData>|
            passed_on(ops, links, edges, value, start, (k - 1) as nat, before) && #[trigger] handed_on(
                ops,
                links[edges[k - 1] as int],
                value,
                before,
                now,
            )
    }
}

/// `edges` lists the connections that leave `node`, each once.
pub open spec fn leaving_edges(links: Seq<Link>, node: int, edges: Seq<usize>) -> bool {
    &&& forall|k: int|
        0 <= k < edges.len() ==> (#[trigger] edges[k]) < links.len() && links[edges[k] as int].source
            == node
    &&& forall|j: int, k: int| 0 <= j < k < edges.len() ==> edges[j] != edges[k]
    &&& forall|e: int|
        0 <= e < links.len() && (#[trigger] links[e]).source == node ==> edges.contains(e as usize)
}

/// `now` holds the nodes `before` after node `index` has fired: a node with
/// nothing to pass on changes nothing; any other works out its value once,
/// and each connection that leaves it hands that value on, in some order of
/// those connections.
pub open spec fn node_fired<A: Arithmetic>(
    ops: &A,
    links: Seq<Link>,
    index: int,
    hidden_func: ActivationKind,
    output_func: ActivationKind,
    before: Seq<NodeData>,
    now: Seq<NodeData>,
) -> bool {
    if !before[index].fires() {
        now == before
    } else {
        exists|value: Scalar, edges: Seq<usize>|
            #![trigger passed_on(ops, links, edges, value, before, edges.len(), now)]
            before[index].emits(ops, func_of(before[index], hidden_func, output_func), value)
                && leaving_edges(links, index, edges) && passed_on(
                ops,
                links,
                edges,
                value,
                before,
                edges.len(),
                now,
            )
    }
}

/// `now` holds the nodes `start` after the first `k` nodes of `order` have
/// fired, one after the other.
pub open spec fn pass<A: Arithmetic>(
    ops: &A,
    links: Seq<Link>,
    order: Seq<usize>,
    hidden_func: ActivationKind,
    output_func: ActivationKind,
    start: Seq<NodeData>,
    k: nat,
    now: Seq<NodeData>,
) -> bool
    decreases k,
{
    if k == 0 {
        now == start
    } else {
        exists|before: Seq<NodeData>|
            pass(ops, links, order, hidden_func, output_func, start, (k - 1) as nat, before)
                && #[trigger] node_fired(
                ops,
                links,
                order[k - 1] as int,
                hidden_func,
                output_func,
                before,
                now,
            )
    }
}

/// `now` holds the nodes `start` after one pass: every node has fired, in
/// some order in which each node comes after all the nodes that lead to it.
/// Where the connections hold a cycle there is no such order, and no node
/// fires.
pub open spec fn ran<A: Arithmetic>(
    ops: &A,
    links: Seq<Link>,
    hidden_func: ActivationKind,
    output_func: ActivationKind,
    start: Seq<NodeData>,
    now: Seq<NodeData>,
) -> bool {
    if cyclic(links) {
        now == start
    } else {
        exists|order: Seq<usize>| #[trigger]
            topological(order, start.len(), links) && pass(
                ops,
                links,
                order,
                hidden_func,
                output_func,
                start,
                start.len(),
                now,
            )
    }
}

/// `fed` holds the nodes `calm` after the values `inputs` were handed to the
/// input nodes, each to its own, and one to the bias node at `bias`.
pub open spec fn loaded<A: Arithmetic>(
    ops: &A,
    calm: Seq<NodeData>,
    inputs: Seq<Scalar>,
    bias: int,
    fed: Seq<NodeData>,
) -> bool {
    &&& fed.len() == calm.len()
    &&& forall|i: int|
        0 <= i < inputs.len() ==> calm[i].took(ops, inputs[i], #[trigger] fed[i])
    &&& calm[bias].took(ops, Scalar::one(), fed[bias])
    &&& forall|i: int|
        inputs.len() <= i < calm.len() && i != bias ==> (#[trigger] fed[i]) == calm[i]
}

/// `outputs` is what the output nodes report among the nodes `nodes` of a
/// genome with `inputs` inputs: each output node what it passes on.
pub open spec fn reported<A: Arithmetic>(
    ops: &A,
    nodes: Seq<NodeData>,
    inputs: nat,
    output_func: ActivationKind,
    outputs: Seq<Scalar>,
) -> bool {
    forall|k: int|
        0 <= k < outputs.len() ==> nodes[inputs + k].emits(ops, output_func, #[trigger] outputs[k])
}

/// `outputs` is what `graph` answers to `inputs`: the inputs and the bias
/// are fed, one pass runs, and the output nodes report.
pub open spec fn answered<A: Arithmetic>(
    ops: &A,
    graph: NetworkGraph,
    hidden_func: ActivationKind,
    output_func: ActivationKind,
    inputs: Seq<Scalar>,
    outputs: Seq<Scalar>,
) -> bool {
    exists|fed: Seq<NodeData>, after: Seq<NodeData>|
        #![trigger ran(ops, graph.links(), hidden_func, output_func, fed, after)]
        loaded(ops, graph.nodes(), inputs, (graph.inputs() + graph.outputs()) as int, fed) && ran(
            ops,
            graph.links(),
            hidden_func,
            output_func,
            fed,
            after,
        ) && outputs.len() == graph.outputs() && reported(
            ops,
            after,
            graph.inputs(),
            output_func,
            outputs,
        )
}

/// A node is reached exactly where some node that has something to pass on
/// has a connection, switched on, that leads to it.
pub proof fn lemma_sparked(nodes: Seq<NodeData>, links: Seq<Link>, t: int)
    requires
        bounded(links, nodes.len()),
    ensures
        sparked(nodes, links, t) <==> exists|u: int|
            0 <= u < nodes.len() && #[trigger] fired(nodes, links, u) && live_linked(links, u, t),
{
    if sparked(nodes, links, t) {
        let s = choose|s: int|
            0 <= s < nodes.len() && (#[trigger] nodes[s]).fires() && carries(links, s, t);
        let p = choose|p: Seq<int>| #[trigger] flows(links, p) && p.first() == s && p.last() == t;
        let u = p[p.len() - 2];
        assert(live_linked(links, p[p.len() - 2], p[p.len() - 2 + 1]));
        let e = choose|e: int|
            #![trigger links[e]]
            0 <= e < links.len() && links[e].source == u && links[e].target == t
                && !links[e].data.disabled;
        assert(0 <= links[e].source < nodes.len());
        if p.len() > 2 {
            let q = p.drop_last();
            assert forall|k: int| #![trigger q[k]] 0 <= k < q.len() - 1 implies live_linked(
                links,
                q[k],
                q[k + 1],
            ) by {
                assert(q[k] == p[k] && q[k + 1] == p[k + 1]);
            }
            assert(flows(links, q) && q.first() == s && q.last() == u);
            assert(sparked(nodes, links, u));
        } else {
            assert(u == s);
        }
        assert(fired(nodes, links, u) && live_linked(links, u, t));
    }
    if exists|u: int|
        0 <= u < nodes.len() && #[trigger] fired(nodes, links, u) && live_linked(links, u, t) {
        let u = choose|u: int|
            0 <= u < nodes.len() && #[trigger] fired(nodes, links, u) && live_linked(links, u, t);
        if nodes[u].fires() {
            let p = seq![u, t];
            assert(p[0] == u && p[1] == t);
            assert(flows(links, p));
            assert(carries(links, u, t));
        } else {
            let s = choose|s: int|
                0 <= s < nodes.len() && (#[trigger] nodes[s]).fires() && carries(links, s, u);
            let p = choose|p: Seq<int>| #[trigger] flows(links, p) && p.first() == s && p.last() == u;
            let q = p.push(t);
            assert forall|k: int| #![trigger q[k]] 0 <= k < q.len() - 1 implies live_linked(
                links,
                q[k],
                q[k + 1],
            ) by {
                if k < p.len() - 1 {
                    assert(q[k] == p[k] && q[k + 1] == p[k + 1]);
                } else {
                    assert(q[k] == u && q[k + 1] == t);
                }
            }
            assert(flows(links, q) && q.first() == s && q.last() == t);
            assert(carries(links, s, t));
        }
    }
}

/// In a topological order, the nodes that feed the node at place `k` all
/// stand before it: the node is fed by the first `k` nodes exactly where it
/// is reached at all.
pub proof fn lemma_fed_before(
    nodes: Seq<NodeData>,
    links: Seq<Link>,
    order: Seq<usize>,
    k: int,
)
    requires
        bounded(links, nodes.len()),
        topological(order, nodes.len(), links),
        0 <= k < order.len(),
    ensures
        fed(nodes, links, order, k, order[k] as int) <==> sparked(nodes, links, order[k] as int),
{
    let t = order[k] as int;
    lemma_sparked(nodes, links, t);
    if sparked(nodes, links, t) {
        let u = choose|u: int|
            0 <= u < nodes.len() && #[trigger] fired(nodes, links, u) && live_linked(links, u, t);
        let e = choose|e: int|
            #![trigger links[e]]
            0 <= e < links.len() && links[e].source == u && links[e].target == t
                && !links[e].data.disabled;
        assert(listed(order, u));
        let j = choose|j: int| 0 <= j < order.len() && #[trigger] order[j] == u;
        assert(order[j] == links[e].source && order[k] == links[e].target);
        assert(j < k);
        assert(fired(nodes, links, order[j] as int) && live_linked(links, order[j] as int, t));
    }
    if fed(nodes, links, order, k, t) {
        let j = choose|j: int|
            0 <= j < k && j < order.len() && fired(nodes, links, (#[trigger] order[j]) as int)
                && live_linked(links, order[j] as int, t);
        let u = order[j] as int;
        assert(fired(nodes, links, u) && live_linked(links, u, t));
    }
}

/// Once every node of an order that lists all nodes has had its turn, a node
/// was fed exactly where it is reached.
pub proof fn lemma_fed_by_all(
    nodes: Seq<NodeData>,
    links: Seq<Link>,
    order: Seq<usize>,
    t: int,
)
    requires
        bounded(links, nodes.len()),
        topological(order, nodes.len(), links),
    ensures
        fed(nodes, links, order, order.len() as int, t) <==> sparked(nodes, links, t),
{
    lemma_sparked(nodes, links, t);
    if sparked(nodes, links, t) {
        let u = choose|u: int|
            0 <= u < nodes.len() && #[trigger] fired(nodes, links, u) && live_linked(links, u, t);
        assert(listed(order, u));
        let j = choose|j: int| 0 <= j < order.len() && #[trigger] order[j] == u;
        assert(fired(nodes, links, order[j] as int) && live_linked(links, order[j] as int, t));
    }
    if fed(nodes, links, order, order.len() as int, t) {
        let j = choose|j: int|
            0 <= j < order.len() && fired(nodes, links, (#[trigger] order[j]) as int)
                && live_linked(links, order[j] as int, t);
        let u = order[j] as int;
        assert(fired(nodes, links, u) && live_linked(links, u, t));
    }
}

impl NetworkGraph {
    /// Node `t` is reached when the genome is activated: a way along
    /// connections that are switched on leads to it from an input, output or
    /// bias node.
    pub open spec fn lit(&self, t: int) -> bool {
        exists|s: int|
            0 <= s < self.nodes().len() && (#[trigger] self.nodes()[s]).kind != NodeKind::Hidden
                && carries(self.links(), s, t)
    }

    /// Lets the node at `index` fire: where it has a value to pass on, each of
    /// its connections that is switched on hands the value times its weight
    /// to the node it leads to, which counts as reached from then on. A
    /// hidden node passes on `hidden_func` of what it gathered, an output
    /// node `output_func` of it.
    pub fn activate_node<A: Arithmetic>(
        &mut self,
        index: usize,
        hidden_func: ActivationKind,
        output_func: ActivationKind,
        ops: &A,
    )
        requires
            old(self).shaped(),
            index < old(self).nodes().len(),
        ensures
            final(self).shaped(),
            same_build(old(self), final(self)),
            forall|t: int|
                0 <= t < old(self).nodes().len() ==> (#[trigger] final(self).nodes()[t]).activated
                    == (old(self).nodes()[t].activated || (old(self).nodes()[index as int].fires()
                    && live_linked(old(self).links(), index as int, t))),
            forall|t: int|
                0 <= t < old(self).nodes().len() && !(#[trigger] final(self).nodes()[t]).activated
                    ==> final(self).nodes()[t].input_sum == old(self).nodes()[t].input_sum,
            node_fired(
                ops,
                old(self).links(),
                index as int,
                hidden_func,
                output_func,
                old(self).nodes(),
                final(self).nodes(),
            ),
    {
        let node = self.node(index);
        let func = if node.kind() == NodeKind::Output {
            output_func
        } else {
            hidden_func
        };
        let activation = match node.activate(func, ops) {
            Some(v) => v,
            None => {
                return ;
            },
        };
        let edges = self.outgoing(index);
        let ghost links = self.links();
        let mut k: usize = 0;
        while k < edges.len()
            invariant
                k <= edges@.len(),
                self.shaped(),
                same_build(old(self), self),
                links == old(self).links(),
                index < old(self).nodes().len(),
                old(self).nodes()[index as int].fires(),
                forall|j: int|
                    0 <= j < edges@.len() ==> (#[trigger] edges@[j]) < links.len()
                        && links[edges@[j] as int].source == index,
                passed_on(ops, links, edges@, activation, old(self).nodes(), k as nat, self.nodes()),
                forall|t: int|
                    0 <= t < old(self).nodes().len() ==> (#[trigger] self.nodes()[t]).activated == (
                    old(self).nodes()[t].activated || handed(links, edges@, k as int, t)),
                forall|t: int|
                    0 <= t < old(self).nodes().len() && !(#[trigger] self.nodes()[t]).activated
                        ==> self.nodes()[t].input_sum == old(self).nodes()[t].input_sum,
            decreases edges@.len() - k,
        {
            let edge_index = edges[k];
            let edge = self.edge(edge_index);
            let ghost before = self.nodes();
            let ghost at = k as int;
            k += 1;
            if edge.is_disabled() {
                proof {
                    assert forall|t: int| 0 <= t < before.len() implies handed(
                        links,
                        edges@,
                        at + 1,
                        t,
                    ) == handed(links, edges@, at, t) by {
                        lemma_handed_step(links, edges@, at, t);
                    }
                    let next = (at + 1) as nat;
                    assert(passed_on(
                        ops,
                        links,
                        edges@,
                        activation,
                        old(self).nodes(),
                        (next - 1) as nat,
                        before,
                    ));
                    assert(handed_on(ops, links[edges@[next - 1] as int], activation, before, before));
                    assert(passed_on(ops, links, edges@, activation, old(self).nodes(), next, before));
                }
                continue ;
            }
            let weight = edge.get_weight();
            let target_index = self.edge_endpoints(edge_index).1;
            let target = self.node_mut(target_index);
            let input = ops.times(activation, weight);
            target.add_input(input, ops);
            proof {
                let now = self.nodes();
                assert(product_of(ops, activation, links[edges@[at] as int].data.weight, input));
                assert(now =~= before.update(target_index as int, now[target_index as int]));
                assert(before[target_index as int].took(ops, input, now[target_index as int]));
                let next = (at + 1) as nat;
                assert(passed_on(
                    ops,
                    links,
                    edges@,
                    activation,
                    old(self).nodes(),
                    (next - 1) as nat,
                    before,
                ));
                assert(handed_on(ops, links[edges@[next - 1] as int], activation, before, now));
                assert(passed_on(ops, links, edges@, activation, old(self).nodes(), next, now));
                assert forall|t: int| 0 <= t < before.len() implies (
                #[trigger] self.nodes()[t]).activated == (old(self).nodes()[t].activated || handed(
                    links,
                    edges@,
                    at + 1,
                    t,
                )) by {
                    lemma_handed_step(links, edges@, at, t);
                    if t != target_index {
                        assert(self.nodes()[t] == before[t]);
                    }
                }
                assert forall|t: int|
                    0 <= t < before.len() && !(#[trigger] self.nodes()[t]).activated implies self.nodes()[t].input_sum
                    == old(self).nodes()[t].input_sum by {
                    if t != target_index {
                        assert(self.nodes()[t] == before[t]);
                    }
                }
            }
        }
        proof {
            assert forall|t: int| 0 <= t < old(self).nodes().len() implies handed(
                links,
                edges@,
                edges@.len() as int,
                t,
            ) == live_linked(links, index as int, t) by {
                if handed(links, edges@, edges@.len() as int, t) {
                    let j = choose|j: int|
                        0 <= j < edges@.len() && links[(#[trigger] edges@[j]) as int].target == t
                            && !links[edges@[j] as int].data.disabled;
                    let e = edges@[j] as int;
                    assert(links[e].source == index);
                }
                if live_linked(links, index as int, t) {
                    let e = choose|e: int|
                        #![trigger links[e]]
                        0 <= e < links.len() && links[e].source == index && links[e].target == t
                            && !links[e].data.disabled;
                    assert(edges@.contains(e as usize));
                    let j = choose|j: int| 0 <= j < edges@.len() && edges@[j] == e as usize;
                    assert(links[edges@[j] as int].target == t);
                }
            }
            assert(leaving_edges(links, index as int, edges@));
            assert(old(self).nodes()[index as int].emits(
                ops,
                func_of(old(self).nodes()[index as int], hidden_func, output_func),
                activation,
            ));
            assert(passed_on(
                ops,
                links,
                edges@,
                activation,
                old(self).nodes(),
                edges@.len(),
                self.nodes(),
            ));
        }
    }

    /// Lets every node fire, in an order in which each node comes after all
    /// the nodes that lead to it. After that a node counts as reached where
    /// it did before, or where a way along connections that are switched on
    /// leads to it from a node that had something to pass on from the start;
    /// a node that is not reached holds what it held. A graph with a cycle
    /// has no such order: there no node fires.
    pub fn activate_topo<A: Arithmetic>(
        &mut self,
        hidden_func: ActivationKind,
        output_func: ActivationKind,
        ops: &A,
    )
        requires
            old(self).shaped(),
        ensures
            final(self).shaped(),
            same_genes(old(self).nodes(), final(self).nodes()),
            final(self).links() == old(self).links(),
            final(self).inputs() == old(self).inputs(),
            final(self).outputs() == old(self).outputs(),
            !old(self).acyclic() ==> final(self).nodes() == old(self).nodes(),
            old(self).acyclic() ==> forall|t: int|
                0 <= t < old(self).nodes().len() ==> (#[trigger] final(self).nodes()[t]).activated
                    == (old(self).nodes()[t].activated || sparked(
                    old(self).nodes(),
                    old(self).links(),
                    t,
                )),
            forall|t: int|
                0 <= t < old(self).nodes().len() && !(#[trigger] final(self).nodes()[t]).activated
                    ==> final(self).nodes()[t].input_sum == old(self).nodes()[t].input_sum,
            ran(
                ops,
                old(self).links(),
                hidden_func,
                output_func,
                old(self).nodes(),
                final(self).nodes(),
            ),
    {
        if !self.order_nodes() {
            return ;
        }
        let count = self.node_count();
        let ghost start = old(self).nodes();
        let ghost links = old(self).links();
        let ghost order = self.cached().unwrap();
        let mut k: usize = 0;
        while k < count
            invariant
                k <= count,
                count == start.len(),
                start == old(self).nodes(),
                links == old(self).links(),
                self.shaped(),
                self.cached() == Some(order),
                topological(order, start.len(), links),
                bounded(links, start.len()),
                same_genes(start, self.nodes()),
                self.links() == links,
                self.inputs() == old(self).inputs(),
                self.outputs() == old(self).outputs(),
                !cyclic(links),
                pass(ops, links, order, hidden_func, output_func, start, k as nat, self.nodes()),
                forall|t: int|
                    0 <= t < start.len() ==> (#[trigger] self.nodes()[t]).activated == (
                    start[t].activated || fed(start, links, order, k as int, t)),
                forall|t: int|
                    0 <= t < start.len() && !(#[trigger] self.nodes()[t]).activated
                        ==> self.nodes()[t].input_sum == start[t].input_sum,
            decreases count - k,
        {
            let node = self.ordered_node(k);
            let ghost before = self.nodes();
            proof {
                lemma_fed_before(start, links, order, k as int);
                assert(before[node as int].kind == start[node as int].kind);
                assert(before[node as int].fires() == fired(start, links, node as int));
            }
            self.activate_node(node, hidden_func, output_func, ops);
            proof {
                let next = (k + 1) as nat;
                assert(pass(
                    ops,
                    links,
                    order,
                    hidden_func,
                    output_func,
                    start,
                    (next - 1) as nat,
                    before,
                ));
                assert(node_fired(
                    ops,
                    links,
                    order[next - 1] as int,
                    hidden_func,
                    output_func,
                    before,
                    self.nodes(),
                ));
                assert(pass(ops, links, order, hidden_func, output_func, start, next, self.nodes()));
                assert forall|t: int| 0 <= t < start.len() implies (
                #[trigger] self.nodes()[t]).activated == (start[t].activated || fed(
                    start,
                    links,
                    order,
                    k + 1,
                    t,
                )) by {
                    assert(before[t].activated == (start[t].activated || fed(
                        start,
                        links,
                        order,
                        k as int,
                        t,
                    )));
                    if fed(start, links, order, k as int, t) {
                        let j = choose|j: int|
                            0 <= j < k && j < order.len() && fired(
                                start,
                                links,
                                (#[trigger] order[j]) as int,
                            ) && live_linked(links, order[j] as int, t);
                        assert(0 <= j < k + 1);
                    }
                    if fired(start, links, node as int) && live_linked(links, node as int, t) {
                        assert(order[k as int] == node);
                        assert(fed(start, links, order, k + 1, t));
                    }
                    if fed(start, links, order, k + 1, t) {
                        let j = choose|j: int|
                            0 <= j < k + 1 && j < order.len() && fired(
                                start,
                                links,
                                (#[trigger] order[j]) as int,
                            ) && live_linked(links, order[j] as int, t);
                        if j < k {
                            assert(fed(start, links, order, k as int, t));
                        }
                    }
                }
                assert forall|t: int|
                    0 <= t < start.len() && !(#[trigger] self.nodes()[t]).activated implies self.nodes()[t].input_sum
                    == start[t].input_sum by {
                    assert(!before[t].activated);
                }
            }
            k += 1;
        }
        proof {
            assert forall|t: int| 0 <= t < start.len() implies (
            #[trigger] self.nodes()[t]).activated == (start[t].activated || sparked(
                start,
                links,
                t,
            )) by {
                lemma_fed_by_all(start, links, order, t);
            }
        }
    }

    /// What the output nodes report, output by output: `output_func` of what
    /// the node gathered where something reached it, and what it holds
    /// otherwise, which is zero unless something was put there.
    pub fn activate_output<A: Arithmetic>(&self, output_func: ActivationKind, ops: &A) -> (result:
        Vec<Scalar>)
        requires
            self.shaped(),
        ensures
            result@.len() == self.outputs(),
            forall|k: int|
                0 <= k < self.outputs() && !self.nodes()[self.inputs() + k].activated
                    ==> #[trigger] result@[k] == self.nodes()[self.inputs() + k].input_sum,
            reported(ops, self.nodes(), self.inputs(), output_func, result@),
    {
        let mut result: Vec<Scalar> = Vec::new();
        let input_number = self.input_number();
        let output_number = self.output_number();
        let mut k: usize = 0;
        while k < output_number
            invariant
                k <= output_number,
                self.shaped(),
                input_number == self.inputs(),
                output_number == self.outputs(),
                result@.len() == k,
                forall|j: int|
                    0 <= j < k && !self.nodes()[self.inputs() + j].activated
                        ==> #[trigger] result@[j] == self.nodes()[self.inputs() + j].input_sum,
                reported(ops, self.nodes(), self.inputs(), output_func, result@),
            decreases output_number - k,
        {
            let node = self.node(input_number + k);
            assert(node.kind == kind_at(self.inputs(), self.outputs(), input_number + k));
            match node.activate(output_func, ops) {
                Some(v) => result.push(v),
                None => result.push(Scalar::zero()),
            }
            k += 1;
        }
        result
    }
}

/// One of the first `k` connections of `edges` is switched on and leads to
/// `t`.
pub open spec fn handed(links: Seq<Link>, edges: Seq<usize>, k: int, t: int) -> bool {
    exists|j: int|
        0 <= j < k && j < edges.len() && links[(#[trigger] edges[j]) as int].target == t
            && !links[edges[j] as int].data.disabled
}

/// Taking one more connection into account.
pub proof fn lemma_handed_step(links: Seq<Link>, edges: Seq<usize>, k: int, t: int)
    requires
        0 <= k < edges.len(),
    ensures
        handed(links, edges, k + 1, t) == (handed(links, edges, k, t) || (links[edges[k] as int].target
            == t && !links[edges[k] as int].data.disabled)),
{
    if handed(links, edges, k, t) {
        let j = choose|j: int|
            0 <= j < k && j < edges.len() && links[(#[trigger] edges[j]) as int].target == t
                && !links[edges[j] as int].data.disabled;
        assert(0 <= j < k + 1);
    }
    if links[edges[k] as int].target == t && !links[edges[k] as int].data.disabled {
        let e = edges[k];
        assert(handed(links, edges, k + 1, t));
    }
    if handed(links, edges, k + 1, t) {
        let j = choose|j: int|
            0 <= j < k + 1 && j < edges.len() && links[(#[trigger] edges[j]) as int].target == t
                && !links[edges[j] as int].data.disabled;
        if j < k {
            assert(handed(links, edges, k, t));
        }
    }
}

} // verus!
