//! An in-memory hierarchical key-value store spoken to over a line-oriented
//! text protocol: a typed tree of named nodes, a command grammar, a store
//! that executes commands against the tree, and a line codec that frames
//! commands and serializes responses.

pub mod codec;
pub mod command;
pub mod node;
pub mod nodespec;
pub mod response;
pub mod store;
pub mod text;
pub mod value;
