pub mod cmap;
pub mod lexer;
pub mod number;
pub mod operation;
pub mod parser;
pub mod postscript;
pub mod text;

pub use parser::{Object, Value, PDF};
