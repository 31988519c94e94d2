use cobalt_lang::bytecode::{DIV, HALT, PUSH_INT};
use cobalt_lang::codegen::CodegenErrorKind;
use cobalt_lang::pipeline::{compile_source, CompileError};
use cobalt_lang::vm::{Status, Value, VmErrorKind, VM};

fn compile(src: &str) -> Result<Vec<u8>, CompileError> {
    compile_source(src.chars().collect())
}

fn run(src: &str) -> VM {
    let code = compile(src).expect("compiles");
    let mut vm = VM::new(code, false);
    let status = vm.interpret(1_000_000).expect("runs");
    assert_eq!(status, Status::Halted);
    vm
}

fn as_int(v: Option<Value>) -> i64 {
    match v {
        Some(Value::Int(i)) => i,
        other => panic!("expected an integer, got {:?}", other),
    }
}

#[test]
fn store_of_a_sum() {
    let vm = run("let x = 974 + 26");
    assert_eq!(as_int(vm.global(0)), 1000);
    assert!(vm.stack().is_empty());
}

#[test]
fn comparison_leaves_true() {
    let vm = run("let x = 974 + 26\n x == 1000");
    assert!(matches!(vm.stack().last(), Some(Value::Bool(true))));
}

#[test]
fn assignment_to_constant_is_rejected() {
    match compile("const c = 5\n c = 6") {
        Err(CompileError::Codegen(e)) => {
            assert_eq!(e.kind, CodegenErrorKind::AssignToConstant);
            assert_eq!(e.name, "c");
        }
        other => panic!("expected a codegen error, got {:?}", other),
    }
}

#[test]
fn if_else_stores_only_the_taken_branch() {
    let vm = run("let a = 1\n if a == 1 { let b = 2 } else { let b = 3 }");
    assert_eq!(as_int(vm.global(0)), 1);
    assert_eq!(as_int(vm.global(1)), 2);
    assert!(vm.global(2).is_none());
}

#[test]
fn or_short_circuits() {
    let vm = run("let a = true\n let b = false\n a || b");
    assert!(matches!(vm.stack().last(), Some(Value::Bool(true))));
    assert_eq!(vm.stack().len(), 1);
    // the right operand would fail with a type error if it were evaluated
    let vm = run("let a = true\n a || (1 + true)");
    assert!(matches!(vm.stack().last(), Some(Value::Bool(true))));
}

#[test]
fn division_by_zero_fails_at_run_time() {
    let mut code = vec![0xde, 0xc0, 0xba, 0xc0];
    code.push(PUSH_INT);
    code.extend_from_slice(&10u64.to_le_bytes());
    code.push(PUSH_INT);
    code.extend_from_slice(&0u64.to_le_bytes());
    code.push(DIV);
    code.push(HALT);
    let mut vm = VM::new(code, false);
    let err = vm.interpret(100).unwrap_err();
    assert_eq!(err.kind, VmErrorKind::DivisionByZero);
}
