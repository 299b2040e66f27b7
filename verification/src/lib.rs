//! Python-style named-placeholder formatting with machine-checked contracts.
//!
//! A pattern such as `"I'm {name}."` is read once, left to right; every
//! `{key}` is replaced by the text that a [`Dictionary`] holds for `key`, and
//! the doubled braces `{{` and `}}` stand for one literal brace each.
//!
//! ```
//! use dyn_formatting::{dynamic_format, Dictionary};
//!
//! let dictionary = Dictionary::from_pairs(&[("name", "ABC"), ("age", "20")]);
//! assert_eq!(
//!     dynamic_format("I'm {name}. I'm {age} years old now.", &dictionary).unwrap(),
//!     "I'm ABC. I'm 20 years old now."
//! );
//! assert!(dynamic_format("I'm {name{name}}.", &dictionary).is_err());
//! ```
//!
//! [`dynamic_format`] does the work. What it returns is stated over the
//! functions of [`model`], a scanner written as pure functions on sequences.
//! [`laws`] holds what follows from that model for every pattern and every
//! dictionary, and [`grammar`] shows that the scanner accepts exactly the
//! patterns made of plain characters, escapes and placeholders with known
//! keys. A failure is a [`DynamicFormatError`], which names the pattern, the
//! position of the offending brace and the kind of failure.

pub mod decimal;
pub mod dictionary;
pub mod error;
pub mod format;
pub mod grammar;
pub mod laws;
pub mod model;
pub mod text;

pub use dictionary::Dictionary;
pub use error::{DynamicFormatError, DynamicFormatErrorKind};
pub use format::dynamic_format;
