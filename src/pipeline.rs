use vstd::prelude::*;
use crate::bytecode::{HALT, has_magic, magic_bytes, lemma_magic_round_trip};
use crate::codegen::{Codegen, CodegenError, CodegenErrorKind, compile};
use crate::lexer::{LexError, Lexer, lex_spec};
use crate::parser::{ParseError, Parser, parse_spec};

verus! {

/// The first error of a compilation.
#[derive(Debug)]
pub enum CompileError {
    Lex(LexError),
    Parse(ParseError),
    Codegen(CodegenError),
}

/// The view of a compilation error.
pub enum SpecCompileError {
    Lex(LexError),
    Parse(ParseError),
    Codegen((CodegenErrorKind, Seq<char>)),
}

impl View for CompileError {
    type V = SpecCompileError;

    open spec fn view(&self) -> SpecCompileError {
        match self {
            CompileError::Lex(e) => SpecCompileError::Lex(*e),
            CompileError::Parse(e) => SpecCompileError::Parse(*e),
            CompileError::Codegen(e) => SpecCompileError::Codegen(e@),
        }
    }
}

/// Source text to bytecode: lexing, parsing and generation, stopping at
/// the first error.
pub open spec fn compile_source_spec(s: Seq<char>) -> Result<Seq<u8>, SpecCompileError> {
    match lex_spec(s) {
        Err(e) => Err(SpecCompileError::Lex(e)),
        Ok(tokens) => match parse_spec(tokens) {
            Err(e) => Err(SpecCompileError::Parse(e)),
            Ok(prog) => match compile(prog) {
                Err(e) => Err(SpecCompileError::Codegen(e)),
                Ok(b) => Ok(b),
            },
        },
    }
}

/// Compiles source characters to a bytecode container.
pub fn compile_source(src: Vec<char>) -> (r: Result<Vec<u8>, CompileError>)
    ensures
        match compile_source_spec(src@) {
            Ok(b) => r matches Ok(v) && v@ == b,
            Err(e) => r matches Err(x) && x@ == e,
        },
{
    let mut lexer = Lexer::new(src);
    let tokens = match lexer.lex() {
        Ok(t) => t,
        Err(e) => {
            return Err(CompileError::Lex(e));
        },
    };
    let mut parser = Parser::new(tokens);
    let program = match parser.produce_ast() {
        Ok(p) => p,
        Err(e) => {
            return Err(CompileError::Parse(e));
        },
    };
    let mut codegen = Codegen::new();
    match codegen.generate(program.body) {
        Ok(b) => Ok(b),
        Err(e) => Err(CompileError::Codegen(e)),
    }
}

/// Compiled bytecode starts with the magic number and ends with `Halt`.
pub proof fn lemma_compiled_frame(prog: Seq<crate::ast::StmtModel>)
    ensures
        compile(prog) matches Ok(b) ==> b.len() >= 5 && b.subrange(0, 4) == magic_bytes()
            && b.last() == HALT,
{
    if let Ok(b) = compile(prog) {
        let c = crate::codegen::gen_stmts(prog, seq![Seq::empty()], 0, 4)->Ok_0.0;
        assert(b == magic_bytes() + c + seq![HALT]);
        assert(b.subrange(0, 4) =~= magic_bytes());
    }
}

/// Compiled bytecode passes validation, and taking its magic number off and
/// putting it back gives the same bytes.
pub proof fn lemma_compiled_round_trip(prog: Seq<crate::ast::StmtModel>)
    ensures
        compile(prog) matches Ok(b) ==> has_magic(b) && magic_bytes() + b.subrange(
            4,
            b.len() as int,
        ) == b,
{
    lemma_compiled_frame(prog);
    if let Ok(b) = compile(prog) {
        lemma_magic_round_trip(b);
    }
}

} // verus!
