//! A line-addressable model of a block-structured configuration text:
//! curly-brace delimited nested sections, `key = value` entries, file
//! inclusion through `source = path` directives, and `$VAR` substitution.
//! The model supports round-trip parsing, programmatic insertion and
//! update of entries without disturbing unrelated text, and bookkeeping
//! for included files that can be edited and persisted back.
//!
//! All filesystem and environment access is left to the caller: parsing
//! takes the home directory as an argument and returns the resolved paths
//! of the files to include, and editing returns the text that should be
//! written back to an included file's path.

pub mod text;
pub mod model;
pub mod index;
pub mod color;
pub mod parse;
pub mod edit;

pub use model::HyprlandConfig;
pub use model::Section;
pub use model::SourcedSection;
pub use model::WriteRequest;
pub use parse::parse_config;
