//! A small statically scoped language: a lexer, a recursive-descent parser, a
//! bytecode generator and a stack virtual machine.
//!
//! Each stage is specified by spec functions over mathematical models and
//! its implementation is proved to compute exactly that:
//! - `lexer`: `Lexer::lex` returns `lex_from` of its characters;
//! - `parser`: `Parser::produce_ast` returns the model `parse_spec` gives;
//! - `codegen`: `Codegen::generate` returns `compile` of the program model;
//! - `vm`: `VM::step`, `VM::resume` and `VM::interpret` follow `step`, `run`
//!   and `interpret_spec`;
//! - `pipeline`: `compile_source` chains the first three stages.
//!
//! Properties of the whole are proof functions: every successful lexing ends
//! with the end-of-input token (`lexer`); parsed assignments have identifier
//! targets (`parser`); compiled code is framed by the magic number and
//! `Halt` and survives taking the header off and back on (`pipeline`); its
//! only `Halt` is the last instruction, its jumps land on instructions, and
//! in byte order each load follows a store to the same slot (`layout`); and
//! a run is a function of the bytecode (`vm`).

pub mod tokens;
pub mod lexer;
pub mod ast;
pub mod parser;
pub mod bytecode;
pub mod codegen;
pub mod layout;
pub mod vm;
pub mod pipeline;
pub mod project;
