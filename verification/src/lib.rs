//! An ordered model of `.env`-style configuration files.
//!
//! A file is a sequence of rows: blank lines, `# comment` lines, and
//! `KEY=value` declarations. The crate parses text into that model,
//! serializes the model back to text, flattens it to a key-value mapping,
//! and merges a mapping into a file under an override policy.

pub mod chars;
pub mod env_map;
pub mod laws;
pub mod merge;
pub mod model;
pub mod parser;
pub mod roundtrip;
pub mod serializer;
pub mod workflow;

pub use chars::trim_trailing_whitespace;
pub use env_map::{EnvEntry, EnvMap};
pub use model::{EnvDeclaration, EnvFile, EnvFileRow, RowModel};
pub use parser::ParseError;
pub use workflow::{plan_row, resolve_answer, PromptPlan};
