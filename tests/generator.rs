use cobalt_lang::ast::{Program, Stmt};
use cobalt_lang::bytecode::{
    ADD, HALT, JMP, JMP_IF_FALSE, JMP_IF_FALSE_PEEK, LOAD, POP, PUSH_BOOL, PUSH_INT, STORE,
};
use cobalt_lang::codegen::{Codegen, CodegenErrorKind};
use cobalt_lang::pipeline::{compile_source, CompileError};

const MAGIC: [u8; 4] = [0xde, 0xc0, 0xba, 0xc0];

fn compile(src: &str) -> Result<Vec<u8>, CompileError> {
    compile_source(src.chars().collect())
}

fn with_u64(op: u8, v: u64) -> Vec<u8> {
    let mut r = vec![op];
    r.extend_from_slice(&v.to_le_bytes());
    r
}

fn codegen_kind(src: &str) -> (CodegenErrorKind, String) {
    match compile(src) {
        Err(CompileError::Codegen(e)) => (e.kind, e.name),
        other => panic!("expected a codegen error, got {:?}", other),
    }
}

#[test]
fn declaration_bytes() {
    let mut expected = MAGIC.to_vec();
    expected.extend(with_u64(PUSH_INT, 1));
    expected.extend(with_u64(STORE, 0));
    expected.push(HALT);
    assert_eq!(compile("let x = 1").unwrap(), expected);
}

#[test]
fn compound_assignment_bytes() {
    let code = compile("let x = 5 x += 2").unwrap();
    let mut expected = MAGIC.to_vec();
    expected.extend(with_u64(PUSH_INT, 5));
    expected.extend(with_u64(STORE, 0));
    expected.extend(with_u64(LOAD, 0));
    expected.extend(with_u64(PUSH_INT, 2));
    expected.push(ADD);
    expected.extend(with_u64(STORE, 0));
    expected.push(HALT);
    assert_eq!(code, expected);
}

#[test]
fn and_is_patched_past_right_operand() {
    let code = compile("true && false").unwrap();
    let mut expected = MAGIC.to_vec();
    expected.extend([PUSH_BOOL, 1]);
    expected.extend(with_u64(JMP_IF_FALSE_PEEK, 4 + 2 + 9 + 1 + 2));
    expected.push(POP);
    expected.extend([PUSH_BOOL, 0]);
    expected.push(HALT);
    assert_eq!(code, expected);
}

#[test]
fn if_else_is_patched() {
    let code = compile("if true 1 else 2").unwrap();
    let mut expected = MAGIC.to_vec();
    expected.extend([PUSH_BOOL, 1]);
    expected.extend(with_u64(JMP_IF_FALSE, 4 + 2 + 9 + 9 + 9));
    expected.extend(with_u64(PUSH_INT, 1));
    expected.extend(with_u64(JMP, 4 + 2 + 9 + 9 + 9 + 9));
    expected.extend(with_u64(PUSH_INT, 2));
    expected.push(HALT);
    assert_eq!(code, expected);
}

#[test]
fn compiled_code_is_framed() {
    let code = compile("let a = 1 if a == 1 { a = 2 }").unwrap();
    assert_eq!(&code[..4], &MAGIC);
    assert_eq!(*code.last().unwrap(), HALT);
    assert!(cobalt_lang::vm::VM::new(code.clone(), false).validate_bytecode());
    let stripped = cobalt_lang::bytecode::strip_magic(&code);
    assert_eq!(cobalt_lang::bytecode::prepend_magic(&stripped), code);
}

#[test]
fn codegen_errors() {
    assert_eq!(codegen_kind("y + 1"), (CodegenErrorKind::UndefinedVariable, "y".to_string()));
    assert_eq!(codegen_kind("let x = x"), (CodegenErrorKind::UndefinedVariable, "x".to_string()));
    assert_eq!(
        codegen_kind("let a = 1 let a = 2"),
        (CodegenErrorKind::DuplicateDeclaration, "a".to_string())
    );
    assert_eq!(codegen_kind("1 <= 2"), (CodegenErrorKind::UnsupportedOperator, String::new()));
    assert_eq!(codegen_kind("const k = 1 k *= 2"), (CodegenErrorKind::AssignToConstant, "k".to_string()));
    assert!(compile("let a = 1 { let a = 2 }").is_ok());
}

#[test]
fn nested_program_is_rejected() {
    let mut codegen = Codegen::new();
    let err = codegen.generate(vec![Stmt::Program(Program { body: vec![] })]).unwrap_err();
    assert_eq!(err.kind, CodegenErrorKind::NestedProgram);
}

#[test]
fn operand_encodings() {
    assert_eq!(Codegen::emit_u64(0x0102), vec![2, 1, 0, 0, 0, 0, 0, 0]);
    assert_eq!(Codegen::emit_str("hi").unwrap(), vec![2, b'h', b'i']);
    assert_eq!(Codegen::emit_str("").unwrap(), vec![0]);
    assert_eq!(Codegen::emit_str(&"x".repeat(255)).unwrap().len(), 256);
    assert_eq!(Codegen::emit_str(&"x".repeat(256)).unwrap_err().kind, CodegenErrorKind::StringTooLong);
}
