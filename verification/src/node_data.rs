//! Node genes.
use vstd::prelude::*;
use crate::activations::{activate, squashed, ActivationKind};
use crate::node_kind::NodeKind;
use crate::scalar::{sum_of, Arithmetic, Scalar};

verus! {

/// A node gene: its kind, its historical id, and what one activation pass
/// has gathered at it so far.
#[derive(Debug, PartialEq, Eq, Clone, Copy, Structural)]
pub struct NodeData {
    pub kind: NodeKind,
    pub id: usize,
    pub input_sum: Scalar,
    pub activated: bool,
}

impl NodeData {
    /// The gene as it stands between two activation passes: nothing
    /// gathered.
    pub open spec fn quiet(self) -> bool {
        self.input_sum == Scalar::zero() && !self.activated
    }

    /// Whether the node has a value to pass on: every node but a hidden one
    /// that nothing has reached.
    pub open spec fn fires(self) -> bool {
        self.kind != NodeKind::Hidden || self.activated
    }

    /// Whether the node passes on what it gathered as it is: an input or bias
    /// node always, an output node while nothing has reached it.
    pub open spec fn passes_sum(self) -> bool {
        self.kind == NodeKind::Input || self.kind == NodeKind::Bias || (self.kind
            == NodeKind::Output && !self.activated)
    }

    /// `after` is this node once `input` has reached it: `ops` has added
    /// `input` to what the node had gathered, and the node counts as reached.
    pub open spec fn took<A: Arithmetic>(self, ops: &A, input: Scalar, after: NodeData) -> bool {
        &&& after.kind == self.kind
        &&& after.id == self.id
        &&& after.activated
        &&& sum_of(ops, self.input_sum, input, after.input_sum)
    }

    /// `value` is what the node passes on: its sum as it is where the node
    /// passes that on, else what `func` comes to on its sum under `ops`. A
    /// hidden node that nothing has reached passes on nothing.
    pub open spec fn emits<A: Arithmetic>(self, ops: &A, func: ActivationKind, value: Scalar) -> bool {
        &&& self.fires()
        &&& self.passes_sum() ==> value == self.input_sum
        &&& !self.passes_sum() ==> squashed(ops, func, self.input_sum, value)
    }

    pub fn new(kind: NodeKind, id: usize) -> (node: Self)
        ensures
            node == (NodeData { kind, id, input_sum: Scalar::zero(), activated: false }),
    {
        Self { kind, id, input_sum: Scalar::zero(), activated: false }
    }

    /// Adds `input` to what the node has gathered and marks it as reached.
    pub fn add_input<A: Arithmetic>(&mut self, input: Scalar, ops: &A)
        ensures
            final(self).kind == old(self).kind,
            final(self).id == old(self).id,
            final(self).activated,
            sum_of(ops, old(self).input_sum, input, final(self).input_sum),
            old(self).took(ops, input, *final(self)),
    {
        self.input_sum = ops.plus(self.input_sum, input);
        self.activated = true;
    }

    /// Forgets what the node has gathered.
    pub fn clear_sum(&mut self)
        ensures
            *final(self) == (NodeData {
                input_sum: Scalar::zero(),
                activated: false,
                ..*old(self)
            }),
            final(self).quiet(),
    {
        self.input_sum = Scalar::zero();
        self.activated = false;
    }

    /// The value the node passes on, if it has one. An input or bias node
    /// passes on its sum as it is; a node that was reached passes on `func`
    /// of its sum; an output node that nothing reached passes on its sum; a
    /// hidden node that nothing reached passes on nothing.
    pub fn activate<A: Arithmetic>(&self, func: ActivationKind, ops: &A) -> (value: Option<Scalar>)
        ensures
            value is Some <==> self.fires(),
            self.passes_sum() ==> value == Some(self.input_sum),
            self.fires() && !self.passes_sum() ==> squashed(
                ops,
                func,
                self.input_sum,
                value.unwrap(),
            ),
            value matches Some(v) ==> self.emits(ops, func, v),
    {
        if self.kind == NodeKind::Input || self.kind == NodeKind::Bias {
            Some(self.input_sum)
        } else if self.activated {
            Some(activate(func, self.input_sum, ops))
        } else if self.kind == NodeKind::Output {
            Some(self.input_sum)
        } else {
            None
        }
    }

    pub fn kind(&self) -> (kind: NodeKind)
        ensures
            kind == self.kind,
    {
        self.kind
    }

    pub fn id(&self) -> (id: usize)
        ensures
            id == self.id,
    {
        self.id
    }
}

} // verus!
