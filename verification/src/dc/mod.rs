//! Manifold Dual Contouring: corner components, extraction steps, mesh cleanup.
pub mod cleanup;
pub mod component;
pub mod extract;
