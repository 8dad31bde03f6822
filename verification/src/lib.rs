pub mod ast;
pub mod bytecode;
pub mod semant;
pub mod lexer;
pub mod parser;
pub mod emitter;
pub mod module;
pub mod compile;
pub mod laws;
