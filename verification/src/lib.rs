//! Aurora: the front end and scope environment of a tree-walking interpreter
//! for a small dynamically typed scripting language with lexical scope,
//! first-class closures, and single-inheritance classes.  The lexer and
//! parser are each specified by a ghost model and proved to follow it, and
//! the scope environment carries exact contracts; the library holds no
//! evaluator.

pub mod environment;
pub mod errors;
pub mod expressions;
pub mod numbers;
pub mod parser;
pub mod scanner;
pub mod statements;
pub mod token;
