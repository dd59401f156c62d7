//! Position arithmetic, diagnostics and whole-document formatting edits for a
//! YAML language server, with the JSON wire text written by verified code.
pub mod diagnostics;
pub mod format;
pub mod json;
pub mod json_value;
pub mod position;
pub mod text;
