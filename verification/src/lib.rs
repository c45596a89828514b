//! Output compression helpers: text utilities, curl output filtering,
//! line-level deltas, near-duplicate detection and a post-compression verifier.

pub mod text;
pub mod lcs;
pub mod delta;
pub mod simhash;
pub mod curl;
pub mod runner;
pub mod output_check;
