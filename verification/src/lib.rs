//! A source-to-source annotator: it rewrites a generated Rust source file,
//! inserting serialization-framework annotation lines above selected public
//! declarations so the file suits a cross-language type-sharing generator.

pub mod annotator;
pub mod docs;
pub mod laws;
