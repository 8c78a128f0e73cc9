//! The front end and the statement executor of an emulator for a small
//! programming language of the punched-card era.
//!
//! A program is a text and, for each of its lines, a card that may carry a
//! label, mark the line as a comment, or mark it as going on in the next
//! line. [`tokenize`] turns the text into tokens; [`id_brackets`] pairs the
//! parentheses; [`combine_and_expand`] folds the arithmetic it can;
//! [`inline_functions`] puts the bodies of one-line functions in place of
//! their calls; [`process`] does all of this in order. [`run`] then executes
//! the tokens line by line and hands control back whenever something has
//! happened that the caller may want to show.
//!
//! Each of these has a contract over a mathematical model of its data, and
//! the contracts are proved.

pub mod arith;
pub mod brackets;
pub mod chars;
pub mod env;
pub mod inliner;
pub mod lexer;
pub mod machine;
pub mod pipeline;
pub mod reducer;
pub mod token;

pub use brackets::id_brackets;
pub use chars::{get_char_type, CharType};
pub use env::Environment;
pub use inliner::inline_functions;
pub use lexer::{classify, lex, lex_classified, normalize, tokenize, LineData};
pub use machine::{run, DoStatement, IO704};
pub use pipeline::{prepare, process};
pub use reducer::combine_and_expand;
pub use token::{FloatExpr, Token};
