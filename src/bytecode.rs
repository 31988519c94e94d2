use vstd::prelude::*;
use vstd::bytes::spec_u64_to_le_bytes;

verus! {

/// The bytecode's magic number, stored little-endian in its first four bytes.
pub const MAGIC_NUMBER: u32 = 0xc0bac0de;

// stack manipulation
pub const PUSH_INT: u8 = 0x01;
pub const PUSH_STR: u8 = 0x02;
pub const POP: u8 = 0x03;
pub const PUSH_BOOL: u8 = 0x18;
// arithmetic
pub const ADD: u8 = 0x04;
pub const SUB: u8 = 0x05;
pub const MUL: u8 = 0x06;
pub const DIV: u8 = 0x07;
pub const MOD: u8 = 0x15;
pub const NEG: u8 = 0x17;
pub const NOT: u8 = 0x19;
// comparisons
pub const EQ: u8 = 0x08;
pub const NEQ: u8 = 0x09;
pub const LT: u8 = 0x0a;
pub const GT: u8 = 0x0b;
// control flow
pub const JMP: u8 = 0x0c;
pub const JMP_IF_TRUE: u8 = 0x0d;
pub const JMP_IF_FALSE: u8 = 0x0e;
pub const JMP_IF_TRUE_PEEK: u8 = 0x1a;
pub const JMP_IF_FALSE_PEEK: u8 = 0x1b;
pub const CALL: u8 = 0x0f;
pub const RET: u8 = 0x10;
// variables
pub const LOAD_LOCAL: u8 = 0x11;
pub const STORE_LOCAL: u8 = 0x12;
pub const LOAD: u8 = 0x13;
pub const STORE: u8 = 0x14;
// program
pub const HALT: u8 = 0x16;

/// The four bytes of the magic number, little-endian.
pub open spec fn magic_bytes() -> Seq<u8> {
    seq![0xdeu8, 0xc0u8, 0xbau8, 0xc0u8]
}

/// An opcode followed by its eight-byte little-endian operand.
pub open spec fn with_operand(op: u8, v: u64) -> Seq<u8> {
    seq![op] + spec_u64_to_le_bytes(v)
}

/// The instructions the virtual machine executes.
#[derive(Debug, Clone, Copy, PartialEq, Eq, Structural)]
pub enum Opcode {
    PushInt,
    PushStr,
    PushBool,
    Pop,
    Add,
    Sub,
    Mul,
    Div,
    Mod,
    Neg,
    Not,
    Eq,
    Neq,
    Lt,
    Gt,
    Jmp,
    JmpIfTrue,
    JmpIfFalse,
    JmpIfTruePeek,
    JmpIfFalsePeek,
    Call,
    Ret,
    Load,
    Store,
    LoadLocal,
    StoreLocal,
    Halt,
}

/// The instruction a byte encodes, if any.
pub open spec fn opcode_of(b: u8) -> Option<Opcode> {
    if b == PUSH_INT {
        Some(Opcode::PushInt)
    } else if b == PUSH_STR {
        Some(Opcode::PushStr)
    } else if b == PUSH_BOOL {
        Some(Opcode::PushBool)
    } else if b == POP {
        Some(Opcode::Pop)
    } else if b == ADD {
        Some(Opcode::Add)
    } else if b == SUB {
        Some(Opcode::Sub)
    } else if b == MUL {
        Some(Opcode::Mul)
    } else if b == DIV {
        Some(Opcode::Div)
    } else if b == MOD {
        Some(Opcode::Mod)
    } else if b == NEG {
        Some(Opcode::Neg)
    } else if b == NOT {
        Some(Opcode::Not)
    } else if b == EQ {
        Some(Opcode::Eq)
    } else if b == NEQ {
        Some(Opcode::Neq)
    } else if b == LT {
        Some(Opcode::Lt)
    } else if b == GT {
        Some(Opcode::Gt)
    } else if b == JMP {
        Some(Opcode::Jmp)
    } else if b == JMP_IF_TRUE {
        Some(Opcode::JmpIfTrue)
    } else if b == JMP_IF_FALSE {
        Some(Opcode::JmpIfFalse)
    } else if b == JMP_IF_TRUE_PEEK {
        Some(Opcode::JmpIfTruePeek)
    } else if b == JMP_IF_FALSE_PEEK {
        Some(Opcode::JmpIfFalsePeek)
    } else if b == CALL {
        Some(Opcode::Call)
    } else if b == RET {
        Some(Opcode::Ret)
    } else if b == LOAD {
        Some(Opcode::Load)
    } else if b == LOAD_LOCAL {
        Some(Opcode::LoadLocal)
    } else if b == STORE_LOCAL {
        Some(Opcode::StoreLocal)
    } else if b == STORE {
        Some(Opcode::Store)
    } else if b == HALT {
        Some(Opcode::Halt)
    } else {
        None
    }
}

impl Opcode {
    pub fn from_u8(byte: u8) -> (r: Option<Opcode>)
        ensures
            r == opcode_of(byte),
    {
        match byte {
            0x01 => Some(Opcode::PushInt),
            0x02 => Some(Opcode::PushStr),
            0x18 => Some(Opcode::PushBool),
            0x03 => Some(Opcode::Pop),
            0x04 => Some(Opcode::Add),
            0x05 => Some(Opcode::Sub),
            0x06 => Some(Opcode::Mul),
            0x07 => Some(Opcode::Div),
            0x15 => Some(Opcode::Mod),
            0x17 => Some(Opcode::Neg),
            0x19 => Some(Opcode::Not),
            0x08 => Some(Opcode::Eq),
            0x09 => Some(Opcode::Neq),
            0x0a => Some(Opcode::Lt),
            0x0b => Some(Opcode::Gt),
            0x0c => Some(Opcode::Jmp),
            0x0d => Some(Opcode::JmpIfTrue),
            0x0e => Some(Opcode::JmpIfFalse),
            0x1a => Some(Opcode::JmpIfTruePeek),
            0x1b => Some(Opcode::JmpIfFalsePeek),
            0x0f => Some(Opcode::Call),
            0x10 => Some(Opcode::Ret),
            0x13 => Some(Opcode::Load),
            0x11 => Some(Opcode::LoadLocal),
            0x12 => Some(Opcode::StoreLocal),
            0x14 => Some(Opcode::Store),
            0x16 => Some(Opcode::Halt),
            _ => None,
        }
    }
}

/// Whether `b` is a bytecode container: at least four bytes, starting with
/// the magic number.
pub open spec fn has_magic(b: Seq<u8>) -> bool {
    b.len() >= 4 && b.subrange(0, 4) == magic_bytes()
}

/// Takes off the four-byte header of a container.
pub fn strip_magic(b: &Vec<u8>) -> (r: Vec<u8>)
    requires
        b.len() >= 4,
    ensures
        r@ == b@.subrange(4, b@.len() as int),
{
    let mut r: Vec<u8> = Vec::new();
    let mut i: usize = 4;
    while i < b.len()
        invariant
            4 <= i <= b.len(),
            r@ == b@.subrange(4, i as int),
        decreases b.len() - i,
    {
        r.push(b[i]);
        i = i + 1;
        assert(r@ =~= b@.subrange(4, i as int));
    }
    r
}

/// Puts the four-byte header in front of an instruction stream.
pub fn prepend_magic(code: &Vec<u8>) -> (r: Vec<u8>)
    ensures
        r@ == magic_bytes() + code@,
{
    let mut r: Vec<u8> = vec![0xde, 0xc0, 0xba, 0xc0];
    let mut i: usize = 0;
    assert(r@ =~= magic_bytes() + code@.subrange(0, 0));
    while i < code.len()
        invariant
            i <= code.len(),
            r@ == magic_bytes() + code@.subrange(0, i as int),
        decreases code.len() - i,
    {
        r.push(code[i]);
        i = i + 1;
        assert(r@ =~= magic_bytes() + code@.subrange(0, i as int));
    }
    assert(code@.subrange(0, code@.len() as int) =~= code@);
    r
}

/// Stripping the header of a container and putting it back gives the same
/// bytes.
pub proof fn lemma_magic_round_trip(b: Seq<u8>)
    requires
        has_magic(b),
    ensures
        magic_bytes() + b.subrange(4, b.len() as int) == b,
{
    assert(magic_bytes() + b.subrange(4, b.len() as int) =~= b) by {
        assert(b.subrange(0, 4) == magic_bytes());
        assert forall|i: int| 0 <= i < 4 implies b[i] == magic_bytes()[i] by {
            assert(b.subrange(0, 4)[i] == b[i]);
        }
    }
}

} // verus!
