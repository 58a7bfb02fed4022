//! Detection and repair of broken registry references in Nix sources.
//!
//! The library has three stages: the scanner extracts `registry.a.b`
//! selections with their exact byte spans, the analyzer classifies each
//! reference against the set of valid registry paths and suggests a
//! replacement, and the rewriter splices accepted replacements into the
//! original text.
pub mod analyzer;
pub mod rewriter;
pub mod scanner;
pub mod text;


pub use analyzer::{BrokenRef, DetectionResult, Diagnostics};
pub use scanner::RegistryRef;
