//! Front end of a deterministic, Lisp-like contract language.
//!
//! Source text goes through the lexer and parser into pre-expressions,
//! then through the AST passes (stack depth, expression ids, definition
//! order, sugar expansion). Values keep within size and depth limits and
//! are checked against type signatures; the map built-ins have their type
//! rules here. Costs are metered against a budget, calls keep to a bounded
//! call stack, and a block of work on the store ends by committing or
//! rolling back all it wrote.
pub mod errors;
pub mod names;
pub mod types;
pub mod lexer;
pub mod parser;
pub mod ast;
pub mod definition_sorter;
pub mod sugar;
pub mod maps;
pub mod costs;
pub mod callstack;
pub mod store;
pub mod clarity;
pub mod interpreter;
