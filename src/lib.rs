//! Collapsing of adjacent identical lines, in the manner of `uniq`.
//!
//! The library holds the argument resolver, the mathematical model of runs of
//! equal lines, and a streaming processor proved against that model.

pub mod config;
pub mod decimal;
pub mod processor;
pub mod runs;

pub use config::{parse_args, Config, Endpoint, Mode};
pub use processor::{collapse, Processor};
