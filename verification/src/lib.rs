//! A small Python-subset runtime for NEAR scripts: the source scanner and
//! parser, the control flow of statements, the integer and text computations
//! behind the built-ins, the script storage, and the policy engine that guards
//! write operations.
pub mod text;
pub mod json;
pub mod policy;
pub mod scan;
pub mod ast;
pub mod grammar;
pub mod parser;
pub mod parser_postfix;
pub mod parser_atom;
pub mod parser_block;
pub mod builtins;
pub mod script;
pub mod flow;
pub mod storage;
pub mod grammar_laws;
