//! A streaming CSS tokenizer whose tokens borrow from the source text.
mod bytes;
mod error;
pub mod laws;
mod scan;
mod stream;
mod tokenizer;
pub mod trivia;
pub mod window;

pub use error::{Error, ErrorPos};
pub use scan::{Lexeme, Scan, ScanState, Span, State};
pub use tokenizer::{Combinator, Token, Tokenizer};
