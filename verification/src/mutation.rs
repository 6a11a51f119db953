//! What each kind of mutation may make of a genome.
//!
//! Whether a mutation strikes, what it strikes and by how much is drawn at
//! random; what is the same in every case is told here, as a relation
//! between the genome before and the genome after.
use vstd::prelude::*;
use crate::innovation_record::InnovationRecord;
use crate::network::network_graph::{split_links, NetworkGraph};
use crate::network::paths::cyclic;
use crate::network::removal::{bridges_asked, entering, leaving, without_node};
use crate::network::store::swap_removed;
use crate::network::{allowed, connected, perturbed, reweighed, toggled};
use crate::node_data::NodeData;
use crate::node_kind::NodeKind;
use crate::parameters::MutationParameters;
use crate::scalar::{sampled, struck, Arithmetic, Scalar};

verus! {

/// `b` has the nodes and the connections of `a`.
pub open spec fn untouched(a: &NetworkGraph, b: &NetworkGraph) -> bool {
    b.nodes() == a.nodes() && b.links() == a.links()
}

/// `b` is `a` with the weight of one connection perturbed by a change
/// sampled from the range of changes.
pub open spec fn perturbed_once<A: Arithmetic>(
    ops: &A,
    m: &MutationParameters,
    a: &NetworkGraph,
    b: &NetworkGraph,
) -> bool {
    b.nodes() == a.nodes() && exists|e: int, delta: Scalar|
        #![trigger perturbed(ops, a.links(), b.links(), e, delta, m.weight_min, m.weight_max)]
        0 <= e < a.links().len() && sampled(ops, m.perturb_min, m.perturb_max, delta) && perturbed(
            ops,
            a.links(),
            b.links(),
            e,
            delta,
            m.weight_min,
            m.weight_max,
        )
}

/// The weight perturbation has made `b` of `a`: where the draw against its
/// probability hit and `a` has a connection, one weight is perturbed; else
/// nothing has changed.
pub open spec fn weight_perturbed<A: Arithmetic>(
    ops: &A,
    m: &MutationParameters,
    a: &NetworkGraph,
    b: &NetworkGraph,
) -> bool {
    exists|hit: bool| #[trigger]
        struck(ops, m.weight_perturbation, hit) && if hit && a.links().len() > 0 {
            perturbed_once(ops, m, a, b)
        } else {
            untouched(a, b)
        }
}

/// `b` is `a` with the weight of one connection replaced by a weight sampled
/// from the range of weights.
pub open spec fn assigned_once<A: Arithmetic>(
    ops: &A,
    m: &MutationParameters,
    a: &NetworkGraph,
    b: &NetworkGraph,
) -> bool {
    b.nodes() == a.nodes() && exists|e: int, weight: Scalar|
        #![trigger a.links().update(e, reweighed(a.links()[e], weight))]
        0 <= e < a.links().len() && sampled(ops, m.weight_min, m.weight_max, weight) && b.links()
            == a.links().update(e, reweighed(a.links()[e], weight))
}

/// The weight assignment has made `b` of `a`: where the draw against its
/// probability hit and `a` has a connection, one weight is sampled anew;
/// else nothing has changed.
pub open spec fn weight_assigned<A: Arithmetic>(
    ops: &A,
    m: &MutationParameters,
    a: &NetworkGraph,
    b: &NetworkGraph,
) -> bool {
    exists|hit: bool| #[trigger]
        struck(ops, m.weight_assign, hit) && if hit && a.links().len() > 0 {
            assigned_once(ops, m, a, b)
        } else {
            untouched(a, b)
        }
}

/// The genome `a` and the ledger have room for one more node and two more
/// connections.
pub open spec fn room_to_split(a: &NetworkGraph, ledger: &InnovationRecord) -> bool {
    &&& a.nodes().len() < u32::MAX
    &&& a.inputs() + a.outputs() + 1 + 2 * (a.links().len() + 2) <= u32::MAX
    &&& ledger.nodes() < usize::MAX
    &&& ledger.connections() + 2 <= usize::MAX
}

/// `b` is `a` with the connection at `e` split by a new hidden node, whose
/// id and whose connections `ledger`, which was `earlier`, has numbered.
pub open spec fn split_at(
    a: &NetworkGraph,
    b: &NetworkGraph,
    e: int,
    earlier: &InnovationRecord,
    ledger: &InnovationRecord,
) -> bool {
    &&& b.nodes() == a.nodes().push(
        NodeData {
            kind: NodeKind::Hidden,
            id: earlier.nodes() as usize,
            input_sum: Scalar::zero(),
            activated: false,
        },
    )
    &&& b.links() == split_links(
        a.links(),
        e,
        a.nodes().len() as int,
        ledger.innovation(a.source_id(e), earlier.nodes() as usize),
        ledger.innovation(earlier.nodes() as usize, a.target_id(e)),
    )
    &&& ledger.nodes() == earlier.nodes() + 1
    &&& ledger.asked_twice(earlier, a.source_id(e), earlier.nodes() as usize, a.target_id(e))
}

/// The node addition has made `b` of `a`, and `ledger` of `earlier`: where
/// the draw against its probability hit, `a` has a connection and there is
/// room, one connection is split; else nothing has changed.
pub open spec fn node_added<A: Arithmetic>(
    ops: &A,
    m: &MutationParameters,
    a: &NetworkGraph,
    b: &NetworkGraph,
    earlier: &InnovationRecord,
    ledger: &InnovationRecord,
) -> bool {
    exists|hit: bool| #[trigger]
        struck(ops, m.add_node, hit) && if hit && a.links().len() > 0 && room_to_split(
            a,
            earlier,
        ) {
            exists|e: int| 0 <= e < a.links().len() && #[trigger] split_at(a, b, e, earlier, ledger)
        } else {
            untouched(a, b) && *ledger == *earlier
        }
}

/// The genome `a` and the ledger have room for the bridges over `node`.
pub open spec fn room_to_bridge(a: &NetworkGraph, node: int, ledger: &InnovationRecord) -> bool {
    let bridges = entering(a.links(), node, a.links().len()).len() * leaving(
        a.links(),
        node,
        a.links().len(),
    ).len();
    &&& ledger.connections() + bridges <= usize::MAX
    &&& bridges <= u32::MAX
    &&& a.inputs() + a.outputs() + 1 + 2 * (a.links().len() + bridges) <= u32::MAX
}

/// `b` is what the attempt to take node `node` out has made of `a`: where
/// the node is hidden and there is room, it is bridged and taken out; else
/// nothing has changed.
pub open spec fn removal_tried(
    a: &NetworkGraph,
    b: &NetworkGraph,
    node: int,
    earlier: &InnovationRecord,
    ledger: &InnovationRecord,
) -> bool {
    if a.nodes()[node].kind == NodeKind::Hidden && room_to_bridge(a, node, earlier) {
        b.nodes() == swap_removed(a.nodes(), node) && b.links() == without_node(
            a.nodes(),
            a.links(),
            node,
            *ledger,
        ) && ledger.nodes() == earlier.nodes() && bridges_asked(
            *earlier,
            *ledger,
            a.nodes(),
            a.links(),
            node,
            entering(a.links(), node, a.links().len()).len() * leaving(
                a.links(),
                node,
                a.links().len(),
            ).len(),
        )
    } else {
        untouched(a, b) && *ledger == *earlier
    }
}

/// The node removal has made `b` of `a`, and `ledger` of `earlier`: where
/// the draw against its probability hit, the removal of one node was tried;
/// else nothing has changed.
pub open spec fn node_removed<A: Arithmetic>(
    ops: &A,
    m: &MutationParameters,
    a: &NetworkGraph,
    b: &NetworkGraph,
    earlier: &InnovationRecord,
    ledger: &InnovationRecord,
) -> bool {
    exists|hit: bool| #[trigger]
        struck(ops, m.remove_node, hit) && if hit {
            exists|node: int|
                0 <= node < a.nodes().len() && #[trigger] removal_tried(
                    a,
                    b,
                    node,
                    earlier,
                    ledger,
                )
        } else {
            untouched(a, b) && *ledger == *earlier
        }
}

/// The genome `a` and the ledger have room for one more connection.
pub open spec fn room_to_connect(a: &NetworkGraph, ledger: &InnovationRecord) -> bool {
    &&& a.inputs() + a.outputs() + 1 + 2 * (a.links().len() + 1) <= u32::MAX
    &&& ledger.connections() < usize::MAX
}

/// `b` is what the attempt to join node `source` to node `target` by a
/// connection of weight `weight` has made of `a`: where there is room, the
/// connection is allowed and it closes no cycle, it is added; else no node
/// and no connection has changed.
pub open spec fn connection_tried(
    a: &NetworkGraph,
    b: &NetworkGraph,
    source: usize,
    target: usize,
    weight: Scalar,
    earlier: &InnovationRecord,
    ledger: &InnovationRecord,
) -> bool {
    if room_to_connect(a, earlier) {
        b.nodes() == a.nodes() && b.links() == if allowed(a, source, target) && !cyclic(
            connected(a, source, target, weight, ledger),
        ) {
            connected(a, source, target, weight, ledger)
        } else {
            a.links()
        } && ledger.nodes() == earlier.nodes() && if allowed(a, source, target) {
            ledger.asked(earlier, a.nodes()[source as int].id, a.nodes()[target as int].id)
        } else {
            *ledger == *earlier
        }
    } else {
        untouched(a, b) && *ledger == *earlier
    }
}

/// The connection addition has made `b` of `a`, and `ledger` of `earlier`:
/// where the draw against its probability hit, a connection between two
/// nodes, with a weight sampled from the range of weights, was tried; else
/// nothing has changed.
pub open spec fn connection_added<A: Arithmetic>(
    ops: &A,
    m: &MutationParameters,
    a: &NetworkGraph,
    b: &NetworkGraph,
    earlier: &InnovationRecord,
    ledger: &InnovationRecord,
) -> bool {
    exists|hit: bool| #[trigger]
        struck(ops, m.add_connection, hit) && if hit {
            exists|source: usize, target: usize, weight: Scalar|
                source < a.nodes().len() && target < a.nodes().len() && sampled(
                    ops,
                    m.weight_min,
                    m.weight_max,
                    weight,
                ) && #[trigger] connection_tried(a, b, source, target, weight, earlier, ledger)
        } else {
            untouched(a, b) && *ledger == *earlier
        }
}

/// The connection removal has made `b` of `a`: where the draw against its
/// probability hit and `a` has a connection, one connection is taken out;
/// else nothing has changed.
pub open spec fn connection_removed<A: Arithmetic>(
    ops: &A,
    m: &MutationParameters,
    a: &NetworkGraph,
    b: &NetworkGraph,
) -> bool {
    exists|hit: bool| #[trigger]
        struck(ops, m.remove_connection, hit) && if hit && a.links().len() > 0 {
            b.nodes() == a.nodes() && exists|e: int|
                0 <= e < a.links().len() && b.links() == #[trigger] swap_removed(a.links(), e)
        } else {
            untouched(a, b)
        }
}

/// The connection switch has made `b` of `a`: where the draw against its
/// probability hit and `a` has a connection, one connection is switched;
/// else nothing has changed.
pub open spec fn connection_toggled<A: Arithmetic>(
    ops: &A,
    m: &MutationParameters,
    a: &NetworkGraph,
    b: &NetworkGraph,
) -> bool {
    exists|hit: bool| #[trigger]
        struck(ops, m.toggle_connection, hit) && if hit && a.links().len() > 0 {
            b.nodes() == a.nodes() && exists|e: int|
                #![trigger a.links().update(e, toggled(a.links()[e]))]
                0 <= e < a.links().len() && b.links() == a.links().update(e, toggled(a.links()[e]))
        } else {
            untouched(a, b)
        }
}

/// The two mutations of weights, one after the other, have made `b` of `a`.
pub open spec fn reweighted<A: Arithmetic>(
    ops: &A,
    m: &MutationParameters,
    a: &NetworkGraph,
    b: &NetworkGraph,
) -> bool {
    exists|between: NetworkGraph| #[trigger]
        weight_perturbed(ops, m, a, &between) && weight_assigned(ops, m, &between, b)
}

/// The addition of a node and the removal of a node, one after the other,
/// have made `b` of `a`, and `ledger` of `earlier`.
pub open spec fn resized<A: Arithmetic>(
    ops: &A,
    m: &MutationParameters,
    a: &NetworkGraph,
    b: &NetworkGraph,
    earlier: &InnovationRecord,
    ledger: &InnovationRecord,
) -> bool {
    exists|between: NetworkGraph, middle: InnovationRecord| #[trigger]
        node_added(ops, m, a, &between, earlier, &middle) && node_removed(
            ops,
            m,
            &between,
            b,
            &middle,
            ledger,
        )
}

/// The removal of a connection and the switch of a connection, one after
/// the other, have made `b` of `a`.
pub open spec fn rewired<A: Arithmetic>(
    ops: &A,
    m: &MutationParameters,
    a: &NetworkGraph,
    b: &NetworkGraph,
) -> bool {
    exists|between: NetworkGraph| #[trigger]
        connection_removed(ops, m, a, &between) && connection_toggled(ops, m, &between, b)
}

/// All the kinds of mutation, each in its turn, have made `b` of `a`, and
/// `ledger` of `earlier`: first the weights, then a node more and a node
/// less, then a connection more, then a connection less and a connection
/// switched.
pub open spec fn mutation<A: Arithmetic>(
    ops: &A,
    m: &MutationParameters,
    a: &NetworkGraph,
    b: &NetworkGraph,
    earlier: &InnovationRecord,
    ledger: &InnovationRecord,
) -> bool {
    exists|c: NetworkGraph, d: NetworkGraph, f: NetworkGraph, middle: InnovationRecord|
        #![trigger resized(ops, m, &c, &d, earlier, &middle), rewired(ops, m, &f, b)]
        reweighted(ops, m, a, &c) && resized(ops, m, &c, &d, earlier, &middle) && connection_added(
            ops,
            m,
            &d,
            &f,
            &middle,
            ledger,
        ) && rewired(ops, m, &f, b)
}

} // verus!
