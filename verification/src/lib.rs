//! A source-ingestion and staged-processing cache for a small configuration
//! language: it stores every piece of source text behind an opaque handle,
//! drives each source through a parse / typecheck / transform pipeline at most
//! once, and resolves imports (including cyclic ones) through a cache-backed
//! protocol.

pub mod store;
pub mod fs;
pub mod position;
pub mod term;
pub mod error;
pub mod parser;
pub mod typecheck;
pub mod cache;
pub mod transform;
pub mod laws;
