//! SQL text: its tokens and statements.

pub mod ast;
pub mod error;
pub mod guard;
pub mod parser;
mod source;
pub mod tokenizer;

pub use error::Error;
pub use parser::Parser;
pub use tokenizer::Tokenizer;
