//! From an export of conversations to proposals for the knowledge graph.

pub mod import;
pub mod messages;
pub mod naming;
pub mod parser;
pub mod prompt;
pub mod proposal;
pub mod repair;
pub mod run;
