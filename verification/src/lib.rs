//! Reverse-mode automatic differentiation over dynamically built scalar
//! expression graphs.
//!
//! Applications combine [`value::Value`] handles with arithmetic operations,
//! which grows a directed acyclic graph of nodes inside a [`value::Graph`]
//! arena; calling [`value::Value::backprop`] on an output handle seeds its
//! gradient with one and accumulates the gradient of the output with respect
//! to every node the output depends on.
//!
//! Scalars are exact rationals ([`rat::Rat`]), so every forward value and
//! every gradient is stated and proved exactly.

pub mod dtype;
pub mod laws;
pub mod operation;
pub mod rat;
pub mod value;
