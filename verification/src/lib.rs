//! Conversion of JSON5 documents to plain JSON, with optional sorting of
//! object keys and a choice of indentation.

pub mod cli;
pub mod convert;
pub mod indent;
pub mod json;
pub mod sort;

pub use convert::{convert, ConvertError};
pub use indent::{detect_indent, IndentOption};
pub use sort::sort_value;
