//! Parsing primitives for lexers that switch between verbatim text and
//! marked-up syntax.
//!
//!  - [`not_starting_with`] takes a list of patterns and makes a parser that
//!    takes the shortest piece of the input that diverges from all of them.
//!  - [`not_containing`] takes a list of patterns and makes a parser that
//!    takes a non-empty run of input, piece by piece, and stops where a
//!    pattern begins.
//!  - [`branch`] starts a list of branches. Each branch has a pattern and a
//!    parser. When the pattern stands at the current position, that branch and
//!    that branch only is chosen, even if its parser fails afterwards. The
//!    list is closed by an else branch, which turns a run of text that begins
//!    with none of the patterns into a value.
//!
//! All parsers work on a slice of characters and a position in it, and hand
//! back what they made together with the position at which the input goes on.
//!
//! # Example
//!
//! ```rust
//! use chumsky_branch::prelude::*;
//!
//! let input: Vec<char> = "Hello {{name}}!".chars().collect();
//!
//! // A run of text stops where a pattern begins.
//! let text = not_containing(&["{{", "/*"]).unwrap();
//! assert_eq!(text.parse_at(&input, 0), Some(("Hello ".to_owned(), 6)));
//!
//! // A branch is entered behind its pattern; other text goes to the else branch.
//! fn name(input: &[char], start: usize) -> Option<(String, usize)> {
//!     let len = input[start..].iter().position(|ch| *ch == '}')?;
//!     Some((input[start..start + len].iter().collect(), start + len + 2))
//! }
//! let lexer = branch("{{", name).or_else(|text: String| text.to_uppercase()).unwrap();
//! assert_eq!(lexer.parse_at(&input, 0), Some(("HELLO ".to_owned(), 6)));
//! assert_eq!(lexer.parse_at(&input, 6), Some(("name".to_owned(), 14)));
//! ```

pub mod branch;
pub mod error;
pub mod not_containing;
pub mod not_starting_with;
pub mod patterns;
pub mod prelude;
pub mod subpatterns;

pub use crate::branch::{branch, Branch, Dispatch, Route};
pub use crate::error::PatternError;
pub use crate::not_containing::{not_containing, NotContaining};
pub use crate::not_starting_with::{not_starting_with, NotStartingWith};
