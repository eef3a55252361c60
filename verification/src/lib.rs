//! A minimal interpreter for a parenthesized, Lisp-style expression
//! language: source text is lexed into tokens, tokens are parsed into a
//! homogeneous tree, and the tree is evaluated against a chain of lexical
//! scopes to produce a runtime value.

pub mod env;
pub mod eval;
pub mod laws;
pub mod parse;
pub mod render;
pub mod token;
pub mod tree;
pub mod value;

pub use env::Env;
pub use eval::eval;
pub use eval::eval_in;
pub use eval::EvalError;
pub use parse::parse;
pub use parse::ParseError;
pub use render::render_tree;
pub use token::tokenize;
pub use tree::Tree;
pub use value::Value;
