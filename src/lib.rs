//! A literate-programming preprocessor: markdown lines of the form
//! `^code(file)`, `^code(file, section)` or `^code(file, start, end)` are
//! replaced by fenced code blocks holding the referenced content.

pub mod directive;
pub mod document;
pub mod error;
pub mod extract;
pub mod text;

pub use directive::{detect_type, Directive, LineType};
pub use document::{output_path, process_file};
pub use error::{MdError, MdResult};
pub use extract::{extract, rewrite};
