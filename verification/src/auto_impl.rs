//! The decisions behind the `AutoTryFrom` derive: which identifier and which
//! types its attribute names, and which `TryFrom` impls it writes.

pub mod common;
pub mod convert;
