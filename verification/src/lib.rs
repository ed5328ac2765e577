//! Placeholder-resolution and text-substitution engine for secret templates.
//!
//! Input text may contain placeholders of the form `bws://key[/path]`.
//! Scanning finds them, a secret store supplies one raw payload per
//! placeholder, and rendering substitutes each placeholder in place,
//! preserving the surrounding layout (multiline values are reindented when
//! the placeholder is the sole content of its line).

pub mod ascii;
pub mod json;
pub mod models;
pub mod render;
pub mod resolve;
pub mod scan;
