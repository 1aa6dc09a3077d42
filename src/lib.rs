//! Extraction of Fluent translation keys from source code, and their
//! reconciliation with the Fluent files already stored for each locale.
//!
//! `matcher` recognizes translation calls, `code_keys` merges the keys of many
//! files, `importer` classifies the entries of a parsed Fluent file,
//! `placeholders` resolves the variables a message needs, `reconciler` decides
//! what becomes of every key of a locale and `writer` lays out the files.
pub mod consts;
pub mod fluent;
pub mod key;
pub mod text;
pub mod placeholders;
pub mod paths;
pub mod matcher;
pub mod commentator;
pub mod importer;
pub mod reconciler;
pub mod seq_facts;
pub mod writer;
pub mod stats;
pub mod code_keys;
pub mod laws;

pub use commentator::{comment_ftl_key, split_content};
pub use consts::{CommentsKeyModes, LineEndings, normalize_line_endings};
pub use key::{ExtractError, FluentKey};
pub use stats::ExtractionStatistics;
