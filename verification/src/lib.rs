//! A parser for a minimal let-language with three constructs: variable
//! references, left-associative function application, and `let`-bindings.
//!
//! The grammar is stated as spec functions in [`grammar`]; the executable
//! recursive-descent parser in [`parser`] is proved to return exactly what
//! the grammar derives, or the first failure the grammar meets. General
//! laws of the grammar — keyword exclusivity, whitespace insensitivity,
//! left-associativity of application chains — are proved in [`laws`].

pub mod ast;
pub mod grammar;
pub mod laws;
pub mod parser;

pub use ast::Expr;
pub use ast::SpecExpr;
pub use grammar::Expected;
pub use parser::parse;
pub use parser::ParseError;
