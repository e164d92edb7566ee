//! Line-oriented substring search over in-memory text.

pub mod config;
pub mod encoding;
pub mod laws;
pub mod lines;
pub mod matcher;
pub mod scanner;
pub mod substring;

pub use config::{run, Config};
pub use matcher::CasePolicy;
pub use scanner::{scan, search, search_case_insensitive};
