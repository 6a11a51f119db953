//! NEAT: neuro-evolution of augmenting topologies.
//!
//! A population of small feedforward networks is evolved: both the wiring of
//! each network and its weights change from one generation to the next.
//!
//! * [`innovation_record`] hands out the historical markers of a run.
//! * [`network`] holds the genome, a graph of node and connection genes, with
//!   its mutations, its crossover, its activation and the distance between
//!   two genomes; and the feedforward network that wraps a genome.
//! * [`network_internal`] is a plain network without bias and without
//!   markers, and [`node`] a node that is nothing but its kind.
//! * [`mutation`] tells what each kind of mutation may make of a genome.
//! * [`species`] groups genomes around a representative.
//! * [`pool`] holds the population and takes it from one generation to the
//!   next; [`ranking`] and [`allocation`] are two steps of that.
//! * [`scalar`] carries the numbers. Weights and fitness values are
//!   double-precision numbers, held as their bits; the library compares them
//!   itself and asks an [`scalar::Arithmetic`] for everything else, so that
//!   what it proves holds of every arithmetic.
//!
//! What is proved of a run: every genome stays well formed; every genome of
//! a population stays free of cycles; two genomes never disagree on the
//! innovation number of a connection between the same two node ids; and a
//! population keeps its size. What a network answers, and how a generation
//! is bred from the one before, is stated step by step over what the
//! arithmetic and the random source returned.
pub mod activations;
pub mod allocation;
pub mod edge_data;
pub mod innovation_record;
pub mod mutation;
pub mod network;
pub mod network_internal;
pub mod node;
pub mod node_data;
pub mod node_kind;
pub mod parameters;
pub mod pool;
pub mod random;
pub mod ranking;
pub mod scalar;
pub mod species;
