//! Randomly wired, sparse, layered networks: generation from a seeded
//! stream, output-layer wiring of unreferenced nodes, and a single-sweep
//! evaluation with clamped fixed-point activations.

pub mod factorio;
pub mod neural;
pub mod random;
pub mod text;
