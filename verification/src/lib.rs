//! A small Datalog database: relations of ground facts, views defined by
//! rules, and queries answered by trees of resettable plan operators.

pub mod ast;
pub mod cache;
pub mod error;
pub mod eval;
pub mod fixpoint;
pub mod frame;
pub mod laws;
pub mod lexer;
pub mod parser;
pub mod plan;
pub mod pos;
pub mod storage;
pub mod text;
pub mod tok;
pub mod update;
