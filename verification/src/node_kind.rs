use vstd::prelude::*;

verus! {

/// The role a node gene plays in its network.
#[derive(Debug, PartialEq, Eq, Clone, Copy, Structural)]
pub enum NodeKind {
    Input,
    Output,
    Hidden,
    Bias,
}

} // verus!
