//! Connection genes.
use vstd::prelude::*;
use crate::scalar::Scalar;

verus! {

/// A connection gene: its weight, whether it is switched off, and the
/// innovation number of the pair of node ids it joins.
#[derive(Debug, PartialEq, Eq, Clone, Copy, Structural)]
pub struct EdgeData {
    pub weight: Scalar,
    pub disabled: bool,
    pub innov_number: usize,
}

impl Default for EdgeData {
    /// An enabled connection of weight zero under the number zero.
    fn default() -> (edge: Self)
        ensures
            edge == (EdgeData { weight: Scalar::zero(), disabled: false, innov_number: 0 }),
    {
        Self { weight: Scalar::zero(), disabled: false, innov_number: 0 }
    }
}

impl EdgeData {
    /// An enabled connection.
    pub fn new(weight: Scalar, innov_number: usize) -> (edge: Self)
        ensures
            edge == (EdgeData { weight, disabled: false, innov_number }),
    {
        Self { weight, disabled: false, innov_number }
    }

    pub fn disable(&mut self)
        ensures
            *final(self) == (EdgeData { disabled: true, ..*old(self) }),
    {
        self.disabled = true;
    }

    pub fn set_disabled(&mut self, disabled: bool)
        ensures
            *final(self) == (EdgeData { disabled, ..*old(self) }),
    {
        self.disabled = disabled;
    }

    pub fn is_disabled(&self) -> (disabled: bool)
        ensures
            disabled == self.disabled,
    {
        self.disabled
    }

    pub fn set_weight(&mut self, weight: Scalar)
        ensures
            *final(self) == (EdgeData { weight, ..*old(self) }),
    {
        self.weight = weight;
    }

    pub fn get_weight(&self) -> (weight: Scalar)
        ensures
            weight == self.weight,
    {
        self.weight
    }

    pub fn innov_number(&self) -> (innov_number: usize)
        ensures
            innov_number == self.innov_number,
    {
        self.innov_number
    }
}

} // verus!
