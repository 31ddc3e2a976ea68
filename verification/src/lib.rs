//! A locale completeness checker.
//!
//! Given one directory per language, each holding one file per namespace (a
//! flat JSON object mapping translation keys to strings), the library
//! accumulates, per namespace name, the union of the keys seen across every
//! language, and then reports, for each language that has that namespace,
//! which keys of the union its file lacks. An optional mode re-encodes each
//! namespace file with its keys in ascending lexicographic order.

pub mod checker;
pub mod laws;
pub mod loader;
pub mod model;
pub mod order;
pub mod stack;
pub mod tree;
