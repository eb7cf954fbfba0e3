//! A small autograd engine over an arena of nodes, multilayer perceptrons
//! built on it, and a character-level bigram language model with its
//! counting, sampling and decoding.

pub mod graph;
pub mod reach;
pub mod text;
pub mod dot;
pub mod nn;
pub mod vocab;
pub mod counts;
pub mod sampling;
