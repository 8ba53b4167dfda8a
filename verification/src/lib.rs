//! Declarative, idempotent patching of heading-structured text documents.
//!
//! The library segments a document into heading-delimited sections and typed
//! content blocks with exact byte ranges, resolves a hierarchical heading path
//! to a unique section, applies an append/replace/delete mutation with safety
//! gating, and renders a minimal line-level diff of the change.

pub mod config;
pub mod error;
pub mod output;
pub mod parser;
pub mod patch;
pub mod text;
