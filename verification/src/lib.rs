pub mod refs;
pub mod utils;
pub mod tokens;
pub mod error;
pub mod chars;
pub mod messages;
pub mod lexer;
pub mod symbols;
pub mod builtins;
pub mod parser;
pub mod compiler;
pub mod codegen;
pub mod printer;
pub mod asm_text;
pub mod symbol_text;
pub mod semantic_analyzer;
pub mod front_end;
