//! Hot-function summaries of sampled profiles: stack walking, weighting,
//! aggregation, ranking and symbol clean-up.

pub mod text;
pub mod number;
pub mod symbol;
pub mod counts;
pub mod profile;
pub mod paths;
pub mod parse;
pub mod args;
pub mod resolve;
pub mod report;
pub mod laws;
