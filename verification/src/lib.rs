pub mod env;
pub mod error;
pub mod text;
pub mod unescape;
pub mod lex;
pub mod str_ext;
pub mod literal;
pub mod parse;
pub mod eval;
pub mod calls;
