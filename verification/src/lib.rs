//! Emily: a small Lisp for configuration and data, compiled to JSON, YAML and
//! TOML. The crate holds its lexer, parser, evaluator and serializers.

pub mod text;
pub mod token;
pub mod lexer;
pub mod ast;
pub mod parser;
pub mod value;
pub mod output;
pub mod env;
pub mod eval;
pub mod frame;
pub mod relex;
pub mod scoping;
