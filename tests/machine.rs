use cobalt_lang::bytecode::{
    ADD, CALL, DIV, EQ, HALT, JMP, LOAD, LOAD_LOCAL, MOD, NEG, POP, PUSH_BOOL, PUSH_INT, PUSH_STR,
    RET, STORE_LOCAL,
};
use cobalt_lang::codegen::Codegen;
use cobalt_lang::pipeline::compile_source;
use cobalt_lang::vm::{Status, Value, VmError, VmErrorKind, VM};

fn program(body: &[u8]) -> Vec<u8> {
    let mut code = vec![0xde, 0xc0, 0xba, 0xc0];
    code.extend_from_slice(body);
    code
}

fn with_u64(op: u8, v: u64) -> Vec<u8> {
    let mut r = vec![op];
    r.extend_from_slice(&v.to_le_bytes());
    r
}

fn push_int(v: i64) -> Vec<u8> {
    with_u64(PUSH_INT, v as u64)
}

fn push_str(text: &str) -> Vec<u8> {
    let mut r = vec![PUSH_STR];
    r.extend(Codegen::emit_str(text).unwrap());
    r
}

fn run_bytes(body: Vec<u8>) -> Result<VM, VmError> {
    let mut vm = VM::new(program(&body), false);
    match vm.interpret(10_000)? {
        Status::Halted => Ok(vm),
        Status::OutOfFuel => panic!("did not halt"),
    }
}

fn top_int(vm: &VM) -> i64 {
    match vm.stack().last() {
        Some(Value::Int(i)) => *i,
        other => panic!("expected an integer on top, got {:?}", other),
    }
}

fn binary(a: i64, b: i64, op: u8) -> Result<VM, VmError> {
    let mut body = push_int(a);
    body.extend(push_int(b));
    body.push(op);
    body.push(HALT);
    run_bytes(body)
}

fn run_source(src: &str) -> VM {
    let mut vm = VM::new(compile_source(src.chars().collect()).unwrap(), false);
    assert_eq!(vm.interpret(10_000).unwrap(), Status::Halted);
    vm
}

#[test]
fn arithmetic_wraps_and_truncates() {
    assert_eq!(top_int(&binary(i64::MAX, 1, ADD).unwrap()), i64::MIN);
    assert_eq!(top_int(&binary(-7, 2, DIV).unwrap()), -3);
    assert_eq!(top_int(&binary(-7, 2, MOD).unwrap()), -1);
    assert_eq!(top_int(&binary(7, -2, MOD).unwrap()), 1);
    assert_eq!(top_int(&binary(i64::MIN, -1, DIV).unwrap()), i64::MIN);
    assert_eq!(top_int(&binary(i64::MIN, -1, MOD).unwrap()), 0);
    let mut body = push_int(i64::MIN);
    body.push(NEG);
    body.push(HALT);
    assert_eq!(top_int(&run_bytes(body).unwrap()), i64::MIN);
}

#[test]
fn source_level_operators() {
    let vm = run_source("let x = 17 x %= 5 x *= -3 x -= 1");
    match vm.global(0) {
        Some(Value::Int(v)) => assert_eq!(v, -7),
        other => panic!("unexpected {:?}", other),
    }
    let vm = run_source("!(1 > 2) && +3 < 4");
    assert!(matches!(vm.stack().last(), Some(Value::Bool(true))));
    let vm = run_source("let a = 1 { let a = 2 } a");
    assert_eq!(top_int(&vm), 1);
    assert!(matches!(vm.global(1), Some(Value::Int(2))));
}

#[test]
fn runtime_errors() {
    let kind = |r: Result<VM, VmError>| r.err().map(|e| e.kind);
    assert_eq!(kind(binary(1, 0, MOD)), Some(VmErrorKind::ModulusByZero));
    assert_eq!(kind(run_bytes(vec![POP, HALT])), Some(VmErrorKind::StackUnderflow));
    assert_eq!(kind(run_bytes(vec![RET])), Some(VmErrorKind::CallStackUnderflow));
    assert_eq!(kind(run_bytes(vec![0xff])), Some(VmErrorKind::UnknownOpcode(0xff)));
    assert_eq!(kind(run_bytes(with_u64(LOAD, 5))), Some(VmErrorKind::MissingVariable(5)));
    assert_eq!(kind(run_bytes(vec![PUSH_INT, 1, 2, 3])), Some(VmErrorKind::OutOfBoundsFetch));
    assert_eq!(kind(run_bytes(vec![])), Some(VmErrorKind::OutOfBoundsFetch));
    let mut body = push_int(1);
    body.extend([PUSH_BOOL, 1, ADD, HALT]);
    assert_eq!(kind(run_bytes(body)), Some(VmErrorKind::TypeMismatch));
    assert_eq!(kind(run_bytes(vec![PUSH_STR, 1, 0xff, HALT])), Some(VmErrorKind::InvalidString));
}

#[test]
fn invalid_container_is_rejected() {
    for bytes in [vec![], vec![0xde, 0xc0, 0xba], vec![0, 0, 0, 0, HALT]] {
        let mut vm = VM::new(bytes, false);
        let err = vm.interpret(10).unwrap_err();
        assert_eq!(err, VmError { kind: VmErrorKind::InvalidBytecode, ip: 4 });
    }
}

#[test]
fn strings_concatenate_and_compare() {
    let mut body = push_str("ab");
    body.extend(push_str("cd"));
    body.push(ADD);
    body.extend(push_str("abcd"));
    body.push(EQ);
    body.push(HALT);
    let vm = run_bytes(body).unwrap();
    assert!(matches!(vm.stack().last(), Some(Value::Bool(true))));
    let mut body = push_str("é");
    body.extend(push_str("!"));
    body.push(ADD);
    body.push(HALT);
    let vm = run_bytes(body).unwrap();
    assert!(matches!(vm.stack().last(), Some(Value::Str(s)) if s == "é!"));
}

#[test]
fn calls_return_and_locals() {
    // Call jumps over Halt into a routine that returns to it.
    let mut body = with_u64(CALL, 4 + 9 + 1);
    body.push(HALT);
    body.extend(push_int(3));
    body.extend(with_u64(STORE_LOCAL, 2));
    body.extend(with_u64(LOAD_LOCAL, 2));
    body.push(RET);
    let vm = run_bytes(body).unwrap();
    assert_eq!(top_int(&vm), 3);
    assert_eq!(vm.ip(), 4 + 9 + 1);
}

#[test]
fn endless_loop_runs_out_of_fuel_and_resumes() {
    let mut vm = VM::new(program(&with_u64(JMP, 4)), false);
    assert_eq!(vm.interpret(5).unwrap(), Status::OutOfFuel);
    assert_eq!(vm.ip(), 4);
    assert_eq!(vm.resume(5).unwrap(), Status::OutOfFuel);
}

#[test]
fn running_twice_gives_the_same_result() {
    let code = compile_source("let a = 2 let b = a * 21 b == 42".chars().collect()).unwrap();
    let mut first = VM::new(code.clone(), false);
    let mut second = VM::new(code, true);
    assert_eq!(first.interpret(1000), second.interpret(1000));
    assert_eq!(format!("{:?}", first.stack()), format!("{:?}", second.stack()));
    assert_eq!(format!("{:?}", first.global(1)), format!("{:?}", second.global(1)));
    assert!(second.debug_mode());
    assert_eq!(first.globals().len(), 2);
}

#[test]
fn declaration_in_skipped_unbraced_branch_is_missing_at_run_time() {
    let code = compile_source("let c = false\n if c let x = 1\n x".chars().collect()).unwrap();
    let mut vm = VM::new(code, false);
    assert_eq!(vm.interpret(100).unwrap_err().kind, VmErrorKind::MissingVariable(1));
}
