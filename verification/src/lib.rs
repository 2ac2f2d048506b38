pub mod codegen;
pub mod collect;
pub mod compiler;
pub mod depths;
pub mod error;
pub mod expr;
pub mod flatten;
pub mod gather;
pub mod lexer;
pub mod parser;
pub mod rounds;
pub mod syntax;
pub mod text;
pub mod token;
pub mod vm;
