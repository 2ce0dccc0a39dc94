//! Verified core of a tool that finds inline `sqlx::query*!` SQL string
//! literals in Rust sources, hands each one to an external SQL formatter and
//! rewrites the literals in place.

mod outcome;
pub mod text;
pub mod splice;
pub mod literal;
pub mod normalize;
pub mod plan;
pub mod utf8;
pub mod capture;
mod external;
pub mod formatter;
pub mod command;
pub mod order;
pub mod paths;
pub mod roundtrip;

pub use outcome::{exit_status, FileChange, Mode};
