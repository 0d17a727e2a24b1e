//! A small m4-style macro processor: a delimiter-aware scanner, a
//! shadow-scoped macro table, numbered output diversions, a recursive
//! expansion engine with a nesting-depth guard, and a codec for the
//! frozen-state ("reload-state") record format.

pub mod args;
pub mod codec;
pub mod delim;
pub mod divert;
pub mod engine;
pub mod errors;
pub mod laws;
pub mod roundtrip;
pub mod table;
