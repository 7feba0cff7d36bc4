//! Literal line search: the lines of a text buffer that contain a query,
//! compared byte for byte or after folding both sides to lowercase.
//!
//! Text is modelled by its UTF-8 bytes (`spec_bytes()` of a string slice):
//! lines are cut at line feeds, and a query matches a line when its bytes
//! occur contiguously in the line's bytes.

pub mod text;
pub mod fold;
pub mod search;
pub mod config;
pub mod theorems;

pub use config::{Config, Mode};
pub use fold::lowercased;
pub use search::{lines_containing, search, search_case_insensitive, search_with};
