//! Text templates with `$[...]` blocks.
pub mod blocks;
pub mod chars;
pub mod eval;
pub mod expand;
pub mod formula;
pub mod grammar;
pub mod laws;
pub mod numbers;

pub use crate::rng::Rng;
pub use eval::{eval_wildcard, BoxContext, Expansion};
pub use expand::{expand_wildcards, resume, Pending, Progress};
