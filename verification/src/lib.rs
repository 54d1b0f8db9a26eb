//! A parser for an HTML-like template language over an already lexed token
//! stream, with every rule stated as a contract and proved.

pub mod ast;
pub mod buffer;
pub mod error;
pub mod grammar;
pub mod laws;
pub mod literal;
pub mod parse;
pub mod token;

pub use buffer::{buffer_argument, BufferBorrow, BufferType, OutputBuffer};
pub use parse::parse;
