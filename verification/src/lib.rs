//! Change review, text analysis and learning-memory logic for a local
//! code-change mentor.

pub mod analysis;
pub mod code;
pub mod concepts;
pub mod diff;
pub mod git;
pub mod learning;
pub mod mentor;
pub mod order;
pub mod teaching;
pub mod text;
pub mod watcher;
