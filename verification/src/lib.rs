//! A Patricia (radix) tree keyed by byte strings, with its behaviour stated
//! over a mathematical model of the tree, and the decisions behind the
//! `AutoTryFrom` derive.

pub mod model;
pub mod node;
pub mod laws;
pub mod label;
pub mod auto_impl;
