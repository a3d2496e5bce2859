//! A file-inclusion preprocessor: placeholders in a text file are replaced, recursively,
//! by the content of the files they name, relative to the including file's directory.
//!
//! - `pattern` compiles the placeholder matcher, from a regular expression or from a
//!   pattern with a placeholder token.
//! - `scan` finds the occurrences of a placeholder in a text.
//! - `text` formats nested content with indentation and splices it into a document.
//! - `resolve` drives the recursion as a sequence of reads handed to the caller.
pub mod error;
pub mod pattern;
pub mod resolve;
pub mod scan;
pub mod text;
