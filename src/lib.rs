//! A similarity-search tree over embeddings.
//!
//! Vectors are stored in an arena of slots; each slot may link two children
//! with larger indices. Similarity scores are IEEE-754 doubles carried as their
//! bit patterns, so that their ordering can be stated and checked over integers.
pub mod score;
pub mod node;
pub mod error;
pub mod codec;
pub mod reach;
