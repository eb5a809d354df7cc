//! A regular expression library built on a Thompson NFA bytecode.
//!
//! A pattern is parsed into a syntax tree, lowered to a linear bytecode and
//! simulated by a Pike-style virtual machine that reports leftmost matches
//! together with their capture groups.
//!
//! - [`regex`]: the user-facing handle, its builder and the match iterators.
//! - [`thompson`]: the syntax tree, the bytecode, its compiler, the
//!   interpreter, and what the host computes for the native-code engine.
//! - [`scan`]: decoding UTF-8 text one code point at a time.
//! - [`util`]: characters, spans, inputs, matches and interval arithmetic.
//!
//! ```text
//! let re = gregex::Regex::pike_vm(r"\d+").unwrap();
//! let found = re.find(gregex::util::Input::new("abc123")).unwrap();
//! assert_eq!(found.as_str(), "123");
//! ```

pub mod regex;
pub mod scan;
pub mod thompson;
pub mod util;

pub use regex::{Builder, Regex};
