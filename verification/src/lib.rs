//! Retrieval core of a recommendation service: an HNSW-style approximate
//! nearest-neighbor vector index with binary persistence, a per-user
//! probabilistic seen-item filter, reciprocal-rank fusion of candidate
//! lists, a popularity-aware ranking pipeline with fallback, and the
//! hydration protocol that reconciles a loaded index with the
//! authoritative item store.
//!
//! Vector components and scores are fixed-point integers: the caller picks
//! a scale, converts its real-valued embeddings once at the boundary, and
//! every similarity in this crate is an exact inner product of the scaled
//! components.

pub mod math;
pub mod filter;
pub mod hnsw;
pub mod fusion;
pub mod model;
pub mod service;
pub mod rank;
pub mod hydrate;
pub mod codec;

pub use math::add;
pub use math::compute_dot_product;
