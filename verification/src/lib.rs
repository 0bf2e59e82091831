//! Canonicalization of structured documents: a tree model of scalars,
//! sequences and mappings; a strict total order over trees; a recursive
//! transform that sorts every sequence; structural diffing; and the
//! multi-document framing used when files are read and written.

pub mod model;
pub mod order;
pub mod canon;
pub mod norm;
pub mod diff;
pub mod yamlio;
pub mod emit;
pub mod pipeline;

pub use canon::canonicalize;
pub use diff::is_changed;
pub use model::Node;
pub use order::Rel;
pub use pipeline::{process_text, Outcome};
