//! A bare node: nothing but its kind.
use vstd::prelude::*;
pub use crate::node_kind::NodeKind;

verus! {

/// A node that is told apart from others by its kind alone.
#[derive(Debug, PartialEq, Eq, Clone, Copy, Structural)]
pub struct Node {
    pub kind: NodeKind,
}

} // verus!
