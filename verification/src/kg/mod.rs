//! The knowledge graph: what is taken out of a conversation.

pub mod extraction;
