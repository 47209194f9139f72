//! Cairn turns an export of chat conversations into a knowledge graph and
//! answers questions over it.

pub mod archive;
pub mod ask;
pub mod config;
pub mod double;
pub mod graph;
pub mod home;
pub mod ids;
pub mod ingest;
pub mod integrity;
pub mod json;
pub mod kg;
pub mod lens;
pub mod llm;
pub mod natural;
pub mod path;
pub mod search;
pub mod seqs;
pub mod sql;
pub mod store;
pub mod text;
pub mod workbench;
