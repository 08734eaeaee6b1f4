//! Markdown snippet extraction, lint decisions and diagnostic positions for gram notation.
pub mod text;
pub mod markdown;
pub mod diagnostics;
pub mod utf16;
pub mod analyze;
pub mod lint;
