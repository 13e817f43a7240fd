//! Discrete-logarithm recovery in a pairing target group: a generic
//! baby-step giant-step solver and Cheon's two-stage attack built on it.
//!
//! The algorithms run over any [`group::ScalarGroup`]; [`modular::ModularGroup`]
//! is a concrete instance, the order-`q` subgroup of the units modulo `p`.

pub mod arith;
pub mod order;
pub mod group;
pub mod bsgs;
pub mod modular;
pub mod cheon;
