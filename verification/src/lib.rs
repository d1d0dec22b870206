//! Integer core of a deterministic Bayesian overlapping-graph-clustering
//! toolkit: the seeded xoshiro256** generator and its bounded integer
//! sampler, interaction-graph adjacency, the fixed benchmark graphs, the
//! complete pair set, random sparse pair sets and the best label alignment
//! of predicted communities.
pub mod bethe;
pub mod micro;
pub mod model;
pub mod rng;
pub mod tables;
