//! The settings of a run.
use vstd::prelude::*;
use crate::activations::ActivationKind;
use crate::scalar::Scalar;

verus! {

/// Everything a population is told once, before the first generation.
#[derive(Clone, Copy, Debug)]
pub struct Parameters {
    pub input_number: usize,
    pub output_number: usize,
    pub population: usize,
    pub hidden_activation: ActivationKind,
    pub output_activation: ActivationKind,
    pub mutation: MutationParameters,
    pub speciation: SpeciationParameters,
    pub reproduction: ReproductionParameters,
}

/// How often each kind of mutation strikes an offspring, as a probability,
/// and the ranges that weights and their changes are drawn from.
#[derive(Clone, Copy, Debug)]
pub struct MutationParameters {
    pub weight_perturbation: Scalar,
    pub weight_assign: Scalar,
    pub add_connection: Scalar,
    pub remove_connection: Scalar,
    pub toggle_connection: Scalar,
    pub add_node: Scalar,
    pub remove_node: Scalar,
    pub weight_min: Scalar,
    pub weight_max: Scalar,
    pub perturb_min: Scalar,
    pub perturb_max: Scalar,
}

/// How genomes are told apart into species, and how species are thinned.
#[derive(Clone, Copy, Debug)]
pub struct SpeciationParameters {
    /// The weight of the genes that only one of two genomes has.
    pub c1: Scalar,
    /// The weight of the weight differences of the genes that both have.
    pub c2: Scalar,
    pub compatibility_threshold: Scalar,
    pub survival_rate: Scalar,
    pub stagnant_max: usize,
    pub elitism: usize,
}

/// How offspring are made.
#[derive(Clone, Copy, Debug)]
pub struct ReproductionParameters {
    pub crossover_rate: Scalar,
}

} // verus!
