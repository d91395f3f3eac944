//! Line-oriented substring search over text held in memory.
//!
//! The crate splits a text into lines, tests each line for a query under a
//! case-sensitive or a case-folding comparison, and hands back the matching
//! lines in the order in which they stand in the text. Every executable
//! function carries a contract over the character sequences of its
//! arguments.

pub mod config;
pub mod fold;
pub mod lines;
pub mod order;
pub mod search;
pub mod substring;
pub mod text;

pub use config::{run, Config, ConfigError};
pub use lines::split_lines;
pub use search::{search, search_case_insensitive, search_lines, select_lines};
pub use substring::contains;
