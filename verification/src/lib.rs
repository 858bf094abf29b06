//! Inspection tools for Simplicity programs and Elements transactions.
//!
//! The core of the crate recognises the parts of a program that spell out a
//! constant (the *scribe* expressions), selects the outermost of them, and
//! renders the program as a graph in which each such constant is one node:
//!
//! - [`dag`] holds a program as an arena of nodes, [`value`] the constants;
//! - [`compress`] finds the scribe expressions and the maximal ones;
//! - [`graph`] computes what is reached without going below a scribe
//!   expression and renders the program, [`graphviz`] in a plainer form;
//! - [`sharing`] holds the policies by which a traversal shares nodes;
//! - [`semantics`] says what the combinators compute, and that a scribe
//!   expression computes its value.
//!
//! Around it stand the codecs ([`decode`], [`encode`], [`hex`]) and the
//! descriptions of transactions ([`tx`], [`util`]).

pub mod compress;
pub mod dag;
pub mod decode;
pub mod encode;
pub mod error;
pub mod graph;
pub mod graphviz;
pub mod hex;
pub mod semantics;
pub mod shared;
pub mod sharing;
pub mod text;
pub mod tx;
pub mod util;
pub mod value;
