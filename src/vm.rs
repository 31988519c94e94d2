use vstd::prelude::*;
use vstd::bytes::{spec_u64_from_le_bytes, u64_from_le_bytes};
use vstd::math::abs;
use vstd::string::StrSliceExecFns;
use vstd::utf8::{decode_utf8, valid_utf8};
use std::collections::HashMap;
use crate::bytecode::{Opcode, has_magic, magic_bytes, opcode_of};

verus! {

/// A runtime value.
#[derive(Debug)]
pub enum Value {
    Int(i64),
    Bool(bool),
    Str(String),
}

/// The mathematical view of a runtime value.
pub enum SpecValue {
    Int(i64),
    Bool(bool),
    Str(Seq<char>),
}

impl View for Value {
    type V = SpecValue;

    open spec fn view(&self) -> SpecValue {
        match self {
            Value::Int(i) => SpecValue::Int(*i),
            Value::Bool(b) => SpecValue::Bool(*b),
            Value::Str(s) => SpecValue::Str(s@),
        }
    }
}

impl Value {
    /// A copy of the value.
    pub fn duplicate(&self) -> (r: Value)
        ensures
            r@ == self@,
    {
        match self {
            Value::Int(i) => Value::Int(*i),
            Value::Bool(b) => Value::Bool(*b),
            Value::Str(s) => Value::Str(s.clone()),
        }
    }
}

/// What went wrong at run time.
#[derive(Debug, Clone, Copy, PartialEq, Eq, Structural)]
pub enum VmErrorKind {
    /// The bytes do not start with the magic number.
    InvalidBytecode,
    /// A read past the end of the bytecode.
    OutOfBoundsFetch,
    /// An instruction found too few values on the stack.
    StackUnderflow,
    /// `Ret` with no return address.
    CallStackUnderflow,
    /// Operands of the wrong kinds for an instruction.
    TypeMismatch,
    DivisionByZero,
    ModulusByZero,
    /// A byte that is no instruction.
    UnknownOpcode(u8),
    /// A load from a slot that was never stored.
    MissingVariable(u64),
    /// A string operand that is not UTF-8.
    InvalidString,
}

/// A runtime error and the instruction pointer where it happened.
#[derive(Debug, Clone, Copy, PartialEq, Eq, Structural)]
pub struct VmError {
    pub kind: VmErrorKind,
    pub ip: usize,
}

/// How a bounded run ended without error.
#[derive(Debug, Clone, Copy, PartialEq, Eq, Structural)]
pub enum Status {
    /// `Halt` was executed.
    Halted,
    /// The step budget ran out first.
    OutOfFuel,
}

// ---------------------------------------------------------------------------
// Specification
// ---------------------------------------------------------------------------

/// The machine state besides the (immutable) bytecode.
pub struct VmState {
    pub ip: usize,
    pub stack: Seq<SpecValue>,
    pub calls: Seq<usize>,
    pub globals: Map<u64, SpecValue>,
    pub locals: Map<u64, SpecValue>,
}

/// The result of executing one instruction.
pub enum Step {
    Next(VmState),
    Halt(VmState),
    Fault(VmError),
}

pub open spec fn fault(kind: VmErrorKind, ip: usize) -> Step {
    Step::Fault(VmError { kind, ip })
}

pub open spec fn at_ip(s: VmState, ip: usize) -> VmState {
    VmState { ip, ..s }
}

pub open spec fn with_stack(s: VmState, stack: Seq<SpecValue>) -> VmState {
    VmState { stack, ..s }
}

/// The eight-byte little-endian operand at `ip`, if it lies inside `code`.
pub open spec fn operand_at(code: Seq<u8>, ip: int) -> Option<u64> {
    if 0 <= ip && ip + 8 <= code.len() {
        Some(spec_u64_from_le_bytes(code.subrange(ip, ip + 8)))
    } else {
        None
    }
}

/// Two's-complement 64-bit division truncating toward zero; `MIN / -1`
/// wraps to `MIN`.
pub open spec fn int_div(a: i64, b: i64) -> i64 {
    let q = abs(a as int) / abs(b as int);
    if (a < 0) != (b < 0) {
        (-q) as i64
    } else if q > i64::MAX {
        i64::MIN
    } else {
        q as i64
    }
}

/// Remainder of truncating division: the sign of the dividend.
pub open spec fn int_rem(a: i64, b: i64) -> i64 {
    let m = abs(a as int) % abs(b as int);
    if a < 0 {
        (-m) as i64
    } else {
        m as i64
    }
}

/// The value an arithmetic or comparison instruction computes from its two
/// operands.
pub open spec fn binary_value(o: Opcode, l: SpecValue, r: SpecValue) -> Result<SpecValue, VmErrorKind> {
    match (l, r) {
        (SpecValue::Int(a), SpecValue::Int(b)) => match o {
            Opcode::Add => Ok(SpecValue::Int(a.wrapping_add(b))),
            Opcode::Sub => Ok(SpecValue::Int(a.wrapping_sub(b))),
            Opcode::Mul => Ok(SpecValue::Int(a.wrapping_mul(b))),
            Opcode::Div => if b == 0 {
                Err(VmErrorKind::DivisionByZero)
            } else {
                Ok(SpecValue::Int(int_div(a, b)))
            },
            Opcode::Mod => if b == 0 {
                Err(VmErrorKind::ModulusByZero)
            } else {
                Ok(SpecValue::Int(int_rem(a, b)))
            },
            Opcode::Eq => Ok(SpecValue::Bool(a == b)),
            Opcode::Neq => Ok(SpecValue::Bool(a != b)),
            Opcode::Lt => Ok(SpecValue::Bool(a < b)),
            _ => Ok(SpecValue::Bool(a > b)),
        },
        (SpecValue::Bool(a), SpecValue::Bool(b)) => match o {
            Opcode::Eq => Ok(SpecValue::Bool(a == b)),
            Opcode::Neq => Ok(SpecValue::Bool(a != b)),
            _ => Err(VmErrorKind::TypeMismatch),
        },
        (SpecValue::Str(a), SpecValue::Str(b)) => match o {
            Opcode::Add => Ok(SpecValue::Str(a + b)),
            Opcode::Eq => Ok(SpecValue::Bool(a == b)),
            Opcode::Neq => Ok(SpecValue::Bool(a != b)),
            _ => Err(VmErrorKind::TypeMismatch),
        },
        _ => Err(VmErrorKind::TypeMismatch),
    }
}

pub open spec fn is_binary(o: Opcode) -> bool {
    o == Opcode::Add || o == Opcode::Sub || o == Opcode::Mul || o == Opcode::Div || o
        == Opcode::Mod || o == Opcode::Eq || o == Opcode::Neq || o == Opcode::Lt || o == Opcode::Gt
}

/// Instructions that only rearrange or combine stack values. `s.ip` is
/// already past the opcode.
pub open spec fn stack_step(o: Opcode, s: VmState) -> Step {
    let n = s.stack.len();
    if o == Opcode::Pop {
        if n == 0 {
            fault(VmErrorKind::StackUnderflow, s.ip)
        } else {
            Step::Next(with_stack(s, s.stack.drop_last()))
        }
    } else if o == Opcode::Neg || o == Opcode::Not {
        if n == 0 {
            fault(VmErrorKind::StackUnderflow, s.ip)
        } else {
            match (o, s.stack.last()) {
                (Opcode::Neg, SpecValue::Int(a)) => Step::Next(
                    with_stack(s, s.stack.drop_last().push(SpecValue::Int(0i64.wrapping_sub(a)))),
                ),
                (Opcode::Not, SpecValue::Bool(b)) => Step::Next(
                    with_stack(s, s.stack.drop_last().push(SpecValue::Bool(!b))),
                ),
                _ => fault(VmErrorKind::TypeMismatch, s.ip),
            }
        }
    } else {
        if n < 2 {
            fault(VmErrorKind::StackUnderflow, s.ip)
        } else {
            match binary_value(o, s.stack[n - 2], s.stack[n - 1]) {
                Ok(v) => Step::Next(with_stack(s, s.stack.subrange(0, n - 2).push(v))),
                Err(k) => fault(k, s.ip),
            }
        }
    }
}

/// Instructions that push a constant from the bytecode.
pub open spec fn push_step(code: Seq<u8>, o: Opcode, s: VmState) -> Step {
    let ip = s.ip as int;
    if o == Opcode::PushInt {
        match operand_at(code, ip) {
            None => fault(VmErrorKind::OutOfBoundsFetch, s.ip),
            Some(v) => Step::Next(
                at_ip(with_stack(s, s.stack.push(SpecValue::Int(v as i64))), (ip + 8) as usize),
            ),
        }
    } else if o == Opcode::PushBool {
        if ip >= code.len() {
            fault(VmErrorKind::OutOfBoundsFetch, s.ip)
        } else {
            Step::Next(
                at_ip(with_stack(s, s.stack.push(SpecValue::Bool(code[ip] != 0))), (ip + 1) as usize),
            )
        }
    } else {
        if ip >= code.len() {
            fault(VmErrorKind::OutOfBoundsFetch, s.ip)
        } else {
            let n = code[ip] as int;
            if ip + 1 + n > code.len() {
                fault(VmErrorKind::OutOfBoundsFetch, (ip + 1) as usize)
            } else {
                let bytes = code.subrange(ip + 1, ip + 1 + n);
                if valid_utf8(bytes) {
                    Step::Next(
                        at_ip(
                            with_stack(s, s.stack.push(SpecValue::Str(decode_utf8(bytes)))),
                            (ip + 1 + n) as usize,
                        ),
                    )
                } else {
                    fault(VmErrorKind::InvalidString, (ip + 1 + n) as usize)
                }
            }
        }
    }
}

/// The boolean sense on which a conditional jump is taken.
pub open spec fn jump_sense(o: Opcode) -> bool {
    o == Opcode::JmpIfTrue || o == Opcode::JmpIfTruePeek
}

pub open spec fn jump_pops(o: Opcode) -> bool {
    o == Opcode::JmpIfTrue || o == Opcode::JmpIfFalse
}

/// Jumps, calls and returns.
pub open spec fn control_step(code: Seq<u8>, o: Opcode, s: VmState) -> Step {
    let ip = s.ip as int;
    if o == Opcode::Ret {
        if s.calls.len() == 0 {
            fault(VmErrorKind::CallStackUnderflow, s.ip)
        } else {
            Step::Next(VmState { ip: s.calls.last(), calls: s.calls.drop_last(), ..s })
        }
    } else {
        match operand_at(code, ip) {
            None => fault(VmErrorKind::OutOfBoundsFetch, s.ip),
            Some(a) => {
                let after = (ip + 8) as usize;
                if a > usize::MAX {
                    fault(VmErrorKind::OutOfBoundsFetch, after)
                } else if o == Opcode::Jmp {
                    Step::Next(at_ip(s, a as usize))
                } else if o == Opcode::Call {
                    Step::Next(VmState { ip: a as usize, calls: s.calls.push(after), ..s })
                } else if s.stack.len() == 0 {
                    fault(VmErrorKind::StackUnderflow, after)
                } else {
                    let rest = if jump_pops(o) {
                        s.stack.drop_last()
                    } else {
                        s.stack
                    };
                    match s.stack.last() {
                        SpecValue::Bool(b) => Step::Next(
                            at_ip(
                                with_stack(s, rest),
                                if b == jump_sense(o) {
                                    a as usize
                                } else {
                                    after
                                },
                            ),
                        ),
                        _ => fault(VmErrorKind::TypeMismatch, after),
                    }
                }
            },
        }
    }
}

/// Loads and stores of global and local slots.
pub open spec fn var_step(code: Seq<u8>, o: Opcode, s: VmState) -> Step {
    let ip = s.ip as int;
    match operand_at(code, ip) {
        None => fault(VmErrorKind::OutOfBoundsFetch, s.ip),
        Some(slot) => {
            let after = (ip + 8) as usize;
            let table = if o == Opcode::Load || o == Opcode::Store {
                s.globals
            } else {
                s.locals
            };
            if o == Opcode::Load || o == Opcode::LoadLocal {
                if table.contains_key(slot) {
                    Step::Next(at_ip(with_stack(s, s.stack.push(table[slot])), after))
                } else {
                    fault(VmErrorKind::MissingVariable(slot), after)
                }
            } else if s.stack.len() == 0 {
                fault(VmErrorKind::StackUnderflow, after)
            } else {
                let t = at_ip(with_stack(s, s.stack.drop_last()), after);
                if o == Opcode::Store {
                    Step::Next(VmState { globals: s.globals.insert(slot, s.stack.last()), ..t })
                } else {
                    Step::Next(VmState { locals: s.locals.insert(slot, s.stack.last()), ..t })
                }
            }
        },
    }
}

/// One fetch-decode-execute cycle.
pub open spec fn step(code: Seq<u8>, s: VmState) -> Step {
    let ip = s.ip as int;
    if ip >= code.len() {
        fault(VmErrorKind::OutOfBoundsFetch, s.ip)
    } else {
        let t = at_ip(s, (ip + 1) as usize);
        match opcode_of(code[ip]) {
            None => fault(VmErrorKind::UnknownOpcode(code[ip]), t.ip),
            Some(o) => match o {
                Opcode::Halt => Step::Halt(t),
                Opcode::PushInt | Opcode::PushBool | Opcode::PushStr => push_step(code, o, t),
                Opcode::Jmp | Opcode::JmpIfTrue | Opcode::JmpIfFalse | Opcode::JmpIfTruePeek
                | Opcode::JmpIfFalsePeek | Opcode::Call | Opcode::Ret => control_step(code, o, t),
                Opcode::Load | Opcode::Store | Opcode::LoadLocal | Opcode::StoreLocal => var_step(
                    code,
                    o,
                    t,
                ),
                _ => stack_step(o, t),
            },
        }
    }
}

/// The end of a run of at most `fuel` steps.
pub enum Outcome {
    Halted(VmState),
    Failed(VmError),
    OutOfFuel(VmState),
}

pub open spec fn run(code: Seq<u8>, s: VmState, fuel: nat) -> Outcome
    decreases fuel,
{
    if fuel == 0 {
        Outcome::OutOfFuel(s)
    } else {
        match step(code, s) {
            Step::Next(t) => run(code, t, (fuel - 1) as nat),
            Step::Halt(t) => Outcome::Halted(t),
            Step::Fault(e) => Outcome::Failed(e),
        }
    }
}

/// The state in which execution starts: just past the magic number, with
/// empty stacks and tables.
pub open spec fn initial_state() -> VmState {
    VmState {
        ip: 4,
        stack: Seq::empty(),
        calls: Seq::empty(),
        globals: Map::empty(),
        locals: Map::empty(),
    }
}

/// What running `code` from the start for at most `fuel` steps yields.
pub open spec fn interpret_spec(code: Seq<u8>, fuel: nat) -> Outcome {
    if has_magic(code) {
        run(code, initial_state(), fuel)
    } else {
        Outcome::Failed(VmError { kind: VmErrorKind::InvalidBytecode, ip: 4 })
    }
}

/// Running the same bytecode twice, with the same budget, ends in the same
/// stack, variable tables and outcome.
pub proof fn lemma_run_deterministic(code1: Seq<u8>, code2: Seq<u8>, fuel: nat)
    requires
        code1 == code2,
    ensures
        interpret_spec(code1, fuel) == interpret_spec(code2, fuel),
{
}

// ---------------------------------------------------------------------------
// Implementation
// ---------------------------------------------------------------------------

/// Relies on std::str::from_utf8: it succeeds exactly on well-formed UTF-8,
/// and the text's characters are what the bytes encode.
#[verifier::external_body]
fn decode_text(b: &[u8]) -> (r: Option<String>)
    ensures
        r is Some <==> valid_utf8(b@),
        r matches Some(s) ==> s@ == decode_utf8(b@),
{
    std::str::from_utf8(b).ok().map(|s| s.to_string())
}

pub open spec fn values_view(s: Seq<Value>) -> Seq<SpecValue> {
    s.map_values(|v: Value| v@)
}

pub open spec fn table_view(m: Map<u64, Value>) -> Map<u64, SpecValue> {
    m.map_values(|v: Value| v@)
}

/// `r` reports the step `st`, which leads to state `after`.
pub open spec fn stepped(after: VmState, r: Result<bool, VmError>, st: Step) -> bool {
    match st {
        Step::Next(t) => r == Ok::<bool, VmError>(false) && after == t,
        Step::Halt(t) => r == Ok::<bool, VmError>(true) && after == t,
        Step::Fault(e) => r == Err::<bool, VmError>(e),
    }
}

fn magnitude(a: i64) -> (r: u64)
    ensures
        r == abs(a as int),
{
    if a == i64::MIN {
        0x8000_0000_0000_0000
    } else if a < 0 {
        (-a) as u64
    } else {
        a as u64
    }
}

fn divide(a: i64, b: i64) -> (r: i64)
    requires
        b != 0,
    ensures
        r == int_div(a, b),
{
    let ua = magnitude(a);
    let ub = magnitude(b);
    let q = ua / ub;
    assert(q <= ua) by (nonlinear_arith)
        requires
            ub >= 1,
            q == ua / ub,
    ;
    if (a < 0) != (b < 0) {
        if q == 0x8000_0000_0000_0000 {
            i64::MIN
        } else {
            -(q as i64)
        }
    } else if q > i64::MAX as u64 {
        i64::MIN
    } else {
        q as i64
    }
}

fn remainder(a: i64, b: i64) -> (r: i64)
    requires
        b != 0,
    ensures
        r == int_rem(a, b),
{
    let ua = magnitude(a);
    let ub = magnitude(b);
    let m = ua % ub;
    assert(m < ub) by (nonlinear_arith)
        requires
            ub >= 1,
            m == ua % ub,
    ;
    if a < 0 {
        -(m as i64)
    } else {
        m as i64
    }
}

/// The concatenation of two strings.
fn concat(a: &String, b: &String) -> (r: String)
    ensures
        r@ == a@ + b@,
{
    let mut r = a.clone();
    let t = b.as_str();
    let n = t.unicode_len();
    let mut i: usize = 0;
    while i < n
        invariant
            n == b@.len(),
            t@ == b@,
            i <= n,
            r@ == a@ + b@.subrange(0, i as int),
        decreases n - i,
    {
        crate::lexer::push_char(&mut r, t.get_char(i));
        i = i + 1;
        assert(r@ =~= a@ + b@.subrange(0, i as int));
    }
    assert(b@.subrange(0, n as int) =~= b@);
    r
}

fn binary_op(o: Opcode, l: &Value, r: &Value) -> (res: Result<Value, VmErrorKind>)
    ensures
        match binary_value(o, l@, r@) {
            Ok(v) => res matches Ok(x) && x@ == v,
            Err(k) => res == Err::<Value, VmErrorKind>(k),
        },
{
    match (l, r) {
        (Value::Int(a), Value::Int(b)) => {
            let (a, b) = (*a, *b);
            match o {
                Opcode::Add => Ok(Value::Int(a.wrapping_add(b))),
                Opcode::Sub => Ok(Value::Int(a.wrapping_sub(b))),
                Opcode::Mul => Ok(Value::Int(a.wrapping_mul(b))),
                Opcode::Div => if b == 0 {
                    Err(VmErrorKind::DivisionByZero)
                } else {
                    Ok(Value::Int(divide(a, b)))
                },
                Opcode::Mod => if b == 0 {
                    Err(VmErrorKind::ModulusByZero)
                } else {
                    Ok(Value::Int(remainder(a, b)))
                },
                Opcode::Eq => Ok(Value::Bool(a == b)),
                Opcode::Neq => Ok(Value::Bool(a != b)),
                Opcode::Lt => Ok(Value::Bool(a < b)),
                _ => Ok(Value::Bool(a > b)),
            }
        },
        (Value::Bool(a), Value::Bool(b)) => match o {
            Opcode::Eq => Ok(Value::Bool(*a == *b)),
            Opcode::Neq => Ok(Value::Bool(*a != *b)),
            _ => Err(VmErrorKind::TypeMismatch),
        },
        (Value::Str(a), Value::Str(b)) => match o {
            Opcode::Add => Ok(Value::Str(concat(a, b))),
            Opcode::Eq => Ok(Value::Bool(*a == *b)),
            Opcode::Neq => Ok(Value::Bool(!(*a == *b))),
            _ => Err(VmErrorKind::TypeMismatch),
        },
        _ => Err(VmErrorKind::TypeMismatch),
    }
}

/// A stack machine executing bytecode.
pub struct VM {
    bytecode: Vec<u8>,
    ip: usize,
    stack: Vec<Value>,
    call_stack: Vec<usize>,
    global: HashMap<u64, Value>,
    local: HashMap<u64, Value>,
    debug_mode: bool,
}

impl VM {
    /// The bytecode being executed.
    pub closed spec fn code(&self) -> Seq<u8> {
        self.bytecode@
    }

    /// The machine state.
    pub closed spec fn state(&self) -> VmState {
        VmState {
            ip: self.ip,
            stack: values_view(self.stack@),
            calls: self.call_stack@,
            globals: table_view(self.global@),
            locals: table_view(self.local@),
        }
    }

    pub closed spec fn debug(&self) -> bool {
        self.debug_mode
    }

    pub fn new(bytecode: Vec<u8>, debug_mode: bool) -> (r: VM)
        ensures
            r.code() == bytecode@,
            r.debug() == debug_mode,
            r.state() == (VmState { ip: 0, ..initial_state() }),
    {
        let r = VM {
            bytecode,
            ip: 0,
            stack: Vec::new(),
            call_stack: Vec::new(),
            global: HashMap::new(),
            local: HashMap::new(),
            debug_mode,
        };
        assert(values_view(r.stack@) =~= Seq::empty());
        assert(table_view(r.global@) =~= Map::empty());
        assert(table_view(r.local@) =~= Map::empty());
        assert(r.call_stack@ =~= Seq::empty());
        r
    }

    /// Whether the final state is to be reported.
    pub fn debug_mode(&self) -> (r: bool)
        ensures
            r == self.debug(),
    {
        self.debug_mode
    }

    pub fn ip(&self) -> (r: usize)
        ensures
            r == self.state().ip,
    {
        self.ip
    }

    /// The value stack, bottom first.
    pub fn stack(&self) -> (r: &Vec<Value>)
        ensures
            values_view(r@) == self.state().stack,
    {
        &self.stack
    }

    /// The global variable table.
    pub fn globals(&self) -> (r: &HashMap<u64, Value>)
        ensures
            table_view(r@) == self.state().globals,
    {
        &self.global
    }

    /// The value of a global slot, if it was stored.
    pub fn global(&self, slot: u64) -> (r: Option<Value>)
        ensures
            match r {
                Some(v) => self.state().globals.contains_key(slot) && v@
                    == self.state().globals[slot],
                None => !self.state().globals.contains_key(slot),
            },
    {
        match self.global.get(&slot) {
            Some(v) => Some(v.duplicate()),
            None => None,
        }
    }

    /// Whether the bytecode is at least four bytes long and starts with the
    /// magic number.
    pub fn validate_bytecode(&self) -> (r: bool)
        ensures
            r == has_magic(self.code()),
    {
        let b = &self.bytecode;
        if b.len() < 4 {
            return false;
        }
        let ok = b[0] == 0xde && b[1] == 0xc0 && b[2] == 0xba && b[3] == 0xc0;
        if ok {
            assert(b@.subrange(0, 4) =~= magic_bytes());
        } else {
            assert(b@.subrange(0, 4)[0] == b@[0]);
            assert(b@.subrange(0, 4)[1] == b@[1]);
            assert(b@.subrange(0, 4)[2] == b@[2]);
            assert(b@.subrange(0, 4)[3] == b@[3]);
        }
        ok
    }

    fn error(&self, kind: VmErrorKind) -> (e: VmError)
        ensures
            e == (VmError { kind, ip: self.ip }),
    {
        VmError { kind, ip: self.ip }
    }

    /// The eight-byte operand at the instruction pointer.
    fn operand(&self) -> (r: Option<u64>)
        ensures
            r == operand_at(self.bytecode@, self.ip as int),
            r is Some ==> self.ip + 8 <= self.bytecode.len(),
    {
        let len = self.bytecode.len();
        if self.ip > len || len - self.ip < 8 {
            return None;
        }
        let mut buf: Vec<u8> = Vec::new();
        let mut k: usize = 0;
        while k < 8
            invariant
                k <= 8,
                len == self.bytecode@.len(),
                self.ip + 8 <= self.bytecode@.len(),
                buf@ == self.bytecode@.subrange(self.ip as int, self.ip + k),
            decreases 8 - k,
        {
            buf.push(self.bytecode[self.ip + k]);
            k = k + 1;
            assert(buf@ =~= self.bytecode@.subrange(self.ip as int, self.ip + k));
        }
        Some(u64_from_le_bytes(buf.as_slice()))
    }

    fn pop_value(&mut self) -> (r: Value)
        requires
            old(self).stack.len() > 0,
        ensures
            r == old(self).stack@.last(),
            final(self).stack@ == old(self).stack@.drop_last(),
            final(self).bytecode == old(self).bytecode,
            final(self).ip == old(self).ip,
            final(self).call_stack == old(self).call_stack,
            final(self).global == old(self).global,
            final(self).local == old(self).local,
            final(self).debug_mode == old(self).debug_mode,
    {
        let v = self.stack.pop();
        match v {
            Some(v) => v,
            None => {
                assert(false);
                Value::Bool(false)
            },
        }
    }

    /// `Pop`, `Neg`, `Not` and the two-operand instructions.
    fn stack_instr(&mut self, o: Opcode) -> (r: Result<bool, VmError>)
        ensures
            final(self).bytecode == old(self).bytecode,
            final(self).debug_mode == old(self).debug_mode,
            stepped(final(self).state(), r, stack_step(o, old(self).state())),
    {
        let ghost s0 = self.state();
        let n = self.stack.len();
        assert(values_view(self.stack@).len() == n);
        if o == Opcode::Pop {
            if n == 0 {
                return Err(self.error(VmErrorKind::StackUnderflow));
            }
            self.pop_value();
            assert(values_view(self.stack@) =~= s0.stack.drop_last());
            Ok(false)
        } else if o == Opcode::Neg || o == Opcode::Not {
            if n == 0 {
                return Err(self.error(VmErrorKind::StackUnderflow));
            }
            let v = self.pop_value();
            assert(v@ == s0.stack.last());
            let res = match (o, v) {
                (Opcode::Neg, Value::Int(a)) => Value::Int(0i64.wrapping_sub(a)),
                (Opcode::Not, Value::Bool(b)) => Value::Bool(!b),
                _ => {
                    return Err(self.error(VmErrorKind::TypeMismatch));
                },
            };
            let ghost rv = res@;
            self.stack.push(res);
            assert(values_view(self.stack@) =~= s0.stack.drop_last().push(rv));
            Ok(false)
        } else {
            if n < 2 {
                return Err(self.error(VmErrorKind::StackUnderflow));
            }
            let right = self.pop_value();
            let left = self.pop_value();
            assert(left@ == s0.stack[n - 2]);
            assert(right@ == s0.stack[n - 1]);
            match binary_op(o, &left, &right) {
                Ok(v) => {
                    let ghost rv = v@;
                    self.stack.push(v);
                    assert(values_view(self.stack@) =~= s0.stack.subrange(0, n - 2).push(rv));
                    Ok(false)
                },
                Err(k) => Err(self.error(k)),
            }
        }
    }

    /// `PushInt`, `PushBool` and `PushStr`.
    fn push_instr(&mut self, o: Opcode) -> (r: Result<bool, VmError>)
        requires
            o == Opcode::PushInt || o == Opcode::PushBool || o == Opcode::PushStr,
        ensures
            final(self).bytecode == old(self).bytecode,
            final(self).debug_mode == old(self).debug_mode,
            stepped(final(self).state(), r, push_step(old(self).bytecode@, o, old(self).state())),
    {
        let ghost s0 = self.state();
        let len = self.bytecode.len();
        let ip = self.ip;
        if o == Opcode::PushInt {
            match self.operand() {
                None => Err(self.error(VmErrorKind::OutOfBoundsFetch)),
                Some(v) => {
                    self.stack.push(Value::Int(v as i64));
                    self.ip = ip + 8;
                    assert(values_view(self.stack@) =~= s0.stack.push(SpecValue::Int(v as i64)));
                    Ok(false)
                },
            }
        } else if o == Opcode::PushBool {
            if ip >= len {
                return Err(self.error(VmErrorKind::OutOfBoundsFetch));
            }
            let b = self.bytecode[ip];
            self.stack.push(Value::Bool(b != 0));
            self.ip = ip + 1;
            assert(values_view(self.stack@) =~= s0.stack.push(SpecValue::Bool(b != 0)));
            Ok(false)
        } else {
            if ip >= len {
                return Err(self.error(VmErrorKind::OutOfBoundsFetch));
            }
            let n = self.bytecode[ip] as usize;
            if len - (ip + 1) < n {
                return Err(VmError { kind: VmErrorKind::OutOfBoundsFetch, ip: ip + 1 });
            }
            let mut bytes: Vec<u8> = Vec::new();
            let mut k: usize = 0;
            while k < n
                invariant
                    k <= n,
                    len == self.bytecode@.len(),
                    ip + 1 + n <= len,
                    bytes@ == self.bytecode@.subrange(ip + 1, ip + 1 + k),
                decreases n - k,
            {
                bytes.push(self.bytecode[ip + 1 + k]);
                k = k + 1;
                assert(bytes@ =~= self.bytecode@.subrange(ip + 1, ip + 1 + k));
            }
            match decode_text(bytes.as_slice()) {
                Some(text) => {
                    let ghost tv = text@;
                    self.stack.push(Value::Str(text));
                    self.ip = ip + 1 + n;
                    assert(values_view(self.stack@) =~= s0.stack.push(SpecValue::Str(tv)));
                    Ok(false)
                },
                None => Err(VmError { kind: VmErrorKind::InvalidString, ip: ip + 1 + n }),
            }
        }
    }

    /// Jumps, `Call` and `Ret`.
    fn control_instr(&mut self, o: Opcode) -> (r: Result<bool, VmError>)
        ensures
            final(self).bytecode == old(self).bytecode,
            final(self).debug_mode == old(self).debug_mode,
            stepped(final(self).state(), r, control_step(old(self).bytecode@, o, old(self).state())),
    {
        let ghost s0 = self.state();
        if o == Opcode::Ret {
            return match self.call_stack.pop() {
                Some(a) => {
                    self.ip = a;
                    Ok(false)
                },
                None => Err(self.error(VmErrorKind::CallStackUnderflow)),
            };
        }
        let a = match self.operand() {
            Some(a) => a,
            None => {
                return Err(self.error(VmErrorKind::OutOfBoundsFetch));
            },
        };
        let after = self.ip + 8;
        if a > usize::MAX as u64 {
            return Err(VmError { kind: VmErrorKind::OutOfBoundsFetch, ip: after });
        }
        let target = a as usize;
        if o == Opcode::Jmp {
            self.ip = target;
            return Ok(false);
        }
        if o == Opcode::Call {
            self.call_stack.push(after);
            self.ip = target;
            return Ok(false);
        }
        let n = self.stack.len();
        if n == 0 {
            return Err(VmError { kind: VmErrorKind::StackUnderflow, ip: after });
        }
        let cond = match &self.stack[n - 1] {
            Value::Bool(b) => *b,
            _ => {
                return Err(VmError { kind: VmErrorKind::TypeMismatch, ip: after });
            },
        };
        if o == Opcode::JmpIfTrue || o == Opcode::JmpIfFalse {
            self.pop_value();
            assert(values_view(self.stack@) =~= s0.stack.drop_last());
        }
        let sense = o == Opcode::JmpIfTrue || o == Opcode::JmpIfTruePeek;
        self.ip = if cond == sense {
            target
        } else {
            after
        };
        Ok(false)
    }

    /// Loads and stores of global and local slots.
    fn var_instr(&mut self, o: Opcode) -> (r: Result<bool, VmError>)
        requires
            o == Opcode::Load || o == Opcode::Store || o == Opcode::LoadLocal || o
                == Opcode::StoreLocal,
        ensures
            final(self).bytecode == old(self).bytecode,
            final(self).debug_mode == old(self).debug_mode,
            stepped(final(self).state(), r, var_step(old(self).bytecode@, o, old(self).state())),
    {
        let ghost s0 = self.state();
        let slot = match self.operand() {
            Some(a) => a,
            None => {
                return Err(self.error(VmErrorKind::OutOfBoundsFetch));
            },
        };
        let after = self.ip + 8;
        let is_global = o == Opcode::Load || o == Opcode::Store;
        if o == Opcode::Load || o == Opcode::LoadLocal {
            let found = if is_global {
                self.global.get(&slot)
            } else {
                self.local.get(&slot)
            };
            let v = match found {
                Some(v) => v.duplicate(),
                None => {
                    return Err(VmError { kind: VmErrorKind::MissingVariable(slot), ip: after });
                },
            };
            let ghost vv = v@;
            self.stack.push(v);
            self.ip = after;
            assert(values_view(self.stack@) =~= s0.stack.push(vv));
            Ok(false)
        } else {
            if self.stack.len() == 0 {
                return Err(VmError { kind: VmErrorKind::StackUnderflow, ip: after });
            }
            let v = self.pop_value();
            let ghost vv = v@;
            assert(values_view(self.stack@) =~= s0.stack.drop_last());
            if is_global {
                let ghost g0 = self.global@;
                self.global.insert(slot, v);
                assert(table_view(self.global@) =~= table_view(g0).insert(slot, vv));
            } else {
                let ghost l0 = self.local@;
                self.local.insert(slot, v);
                assert(table_view(self.local@) =~= table_view(l0).insert(slot, vv));
            }
            self.ip = after;
            Ok(false)
        }
    }

    /// Executes one instruction: `Ok(true)` when it was `Halt`.
    pub fn step(&mut self) -> (r: Result<bool, VmError>)
        ensures
            final(self).code() == old(self).code(),
            final(self).debug() == old(self).debug(),
            stepped(final(self).state(), r, step(old(self).code(), old(self).state())),
    {
        if self.ip >= self.bytecode.len() {
            return Err(self.error(VmErrorKind::OutOfBoundsFetch));
        }
        let byte = self.bytecode[self.ip];
        self.ip = self.ip + 1;
        match Opcode::from_u8(byte) {
            None => Err(self.error(VmErrorKind::UnknownOpcode(byte))),
            Some(o) => match o {
                Opcode::Halt => Ok(true),
                Opcode::PushInt | Opcode::PushBool | Opcode::PushStr => self.push_instr(o),
                Opcode::Jmp | Opcode::JmpIfTrue | Opcode::JmpIfFalse | Opcode::JmpIfTruePeek
                | Opcode::JmpIfFalsePeek | Opcode::Call | Opcode::Ret => self.control_instr(o),
                Opcode::Load | Opcode::Store | Opcode::LoadLocal | Opcode::StoreLocal => self.var_instr(o),
                _ => self.stack_instr(o),
            },
        }
    }

    /// Continues execution from the current state for at most `fuel` steps.
    pub fn resume(&mut self, fuel: u64) -> (r: Result<Status, VmError>)
        ensures
            final(self).code() == old(self).code(),
            final(self).debug() == old(self).debug(),
            match run(old(self).code(), old(self).state(), fuel as nat) {
                Outcome::Halted(t) => r == Ok::<Status, VmError>(Status::Halted) && final(self).state() == t,
                Outcome::OutOfFuel(t) => r == Ok::<Status, VmError>(Status::OutOfFuel)
                    && final(self).state() == t,
                Outcome::Failed(e) => r == Err::<Status, VmError>(e),
            },
    {
        let mut left = fuel;
        while left > 0
            invariant
                self.code() == old(self).code(),
                self.debug() == old(self).debug(),
                run(old(self).code(), old(self).state(), fuel as nat) == run(
                    self.code(),
                    self.state(),
                    left as nat,
                ),
            decreases left,
        {
            match self.step() {
                Ok(true) => {
                    return Ok(Status::Halted);
                },
                Ok(false) => {},
                Err(e) => {
                    return Err(e);
                },
            }
            left = left - 1;
        }
        Ok(Status::OutOfFuel)
    }

    /// Checks the magic number, then runs the bytecode from its start for at
    /// most `fuel` steps.
    pub fn interpret(&mut self, fuel: u64) -> (r: Result<Status, VmError>)
        ensures
            final(self).code() == old(self).code(),
            final(self).debug() == old(self).debug(),
            !has_magic(old(self).code()) ==> final(self).state() == old(self).state(),
            match interpret_spec(old(self).code(), fuel as nat) {
                Outcome::Halted(t) => r == Ok::<Status, VmError>(Status::Halted) && final(self).state() == t,
                Outcome::OutOfFuel(t) => r == Ok::<Status, VmError>(Status::OutOfFuel)
                    && final(self).state() == t,
                Outcome::Failed(e) => r == Err::<Status, VmError>(e),
            },
    {
        if !self.validate_bytecode() {
            return Err(VmError { kind: VmErrorKind::InvalidBytecode, ip: 4 });
        }
        self.ip = 4;
        self.stack = Vec::new();
        self.call_stack = Vec::new();
        self.global = HashMap::new();
        self.local = HashMap::new();
        assert(values_view(self.stack@) =~= Seq::empty());
        assert(table_view(self.global@) =~= Map::empty());
        assert(table_view(self.local@) =~= Map::empty());
        assert(self.call_stack@ =~= Seq::empty());
        assert(self.state() == initial_state());
        self.resume(fuel)
    }
}

} // verus!
