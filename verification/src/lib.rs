//! Converts configuration documents between two textual formats: a
//! structured-config format (key/value lines, sections, typed scalars,
//! datetimes) and a document-object format (objects, arrays, JSON-like
//! scalars). Both are parsed into one value tree (`value`), mapped across
//! the formats' differences (`convert`: datetimes become strings going
//! one way, nulls are rejected with their key path going the other), and
//! serialized (`json_out`, `toml_out`). `pipeline` composes whole-document
//! conversions and `dispatch` picks the direction from a file path's
//! extension. Every function is specified against spec-level parsers and
//! printers over byte sequences, and the round-trip and loss policies are
//! proved as lemmas in `convert`.

pub mod convert;
pub mod dispatch;
pub mod escape;
pub mod json_in;
pub mod json_out;
pub mod lex;
pub mod num;
pub mod pipeline;
pub mod toml_in;
pub mod toml_out;
pub mod value;
