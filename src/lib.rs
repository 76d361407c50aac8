//! A format-preserving editor for `KEY=VALUE` configuration files.
//!
//! Text is parsed into a sequence of lines (blank, comment or pair); the
//! document can then be queried, edited in place and rendered back to text.

pub mod doc;
pub mod laws;
pub mod line;
pub mod text;

pub use doc::{Change, EnvFile, EnvFileView, EnvIter, ParseError};
pub use line::{Line, LineView, Pair};
