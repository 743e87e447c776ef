#![verifier::loop_isolation(false)]
//! A local hybrid document search core: splits text into retrieval-sized
//! chunks, expands queries into lexical variants, fuses vector and lexical
//! result channels, and manages the named containers that scope an index.

pub mod chunking;
pub mod containers;
pub mod query;
pub mod retrieval;
