//! Chunking texts for embedding and assembling retrieval context, with the
//! small tool and JSON-RPC logic of the servers built on them.
pub mod codec;
pub mod crud;
pub mod graphemes;
pub mod loader;
pub mod retrieval;
pub mod rpc;
pub mod splitter;
pub mod text;
pub mod tools;
