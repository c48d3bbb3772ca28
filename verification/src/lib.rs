//! Relational-path sampling over a knowledge graph.
//!
//! The crate builds an in-memory multigraph index from (head, relation, tail)
//! triples, draws bounded-length random walks over it, and produces corrupted
//! ("negative") tail labels for contrastive training.

pub mod graph;
pub mod rng;
pub mod seqs;
pub mod text;
pub mod triple;
