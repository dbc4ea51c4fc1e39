//! Filters a sequence of timestamped subtitle entries, keeping the entries
//! that match a regular-expression pattern together with a configurable
//! window of surrounding context, like a line-oriented grep with context
//! but over time-coded text.

pub mod filter;
pub mod laws;
pub mod machine;
pub mod model;
pub mod rx;

pub use filter::parse;
pub use model::{Config, ContextConfig, Entry, FilterError, Record};
