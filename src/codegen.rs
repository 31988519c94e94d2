use vstd::prelude::*;
use vstd::bytes::{spec_u64_to_le_bytes, u64_to_le_bytes};
use vstd::string::StringSliceAdditionalSpecFns;
use crate::ast::{
    AssignOperator, AssignmentExpr, BinaryExpr, BinaryOperator, BlockStatement, Expr, IfStatement,
    LogicalExpr, UnaryExpr, VariableDeclaration, ExprModel, LogicalOperator, Stmt, StmtModel,
    UnaryOperator, lemma_stmts_model, stmts_model,
};
use crate::bytecode::{
    ADD, DIV, EQ, GT, HALT, JMP, JMP_IF_FALSE, JMP_IF_FALSE_PEEK, JMP_IF_TRUE_PEEK, LOAD, LT, MOD,
    MUL, NEG, NEQ, NOT, POP, PUSH_BOOL, PUSH_INT, STORE, SUB, magic_bytes, with_operand,
};

verus! {

/// What went wrong while generating bytecode.
#[derive(Debug, Clone, Copy, PartialEq, Eq, Structural)]
pub enum CodegenErrorKind {
    /// A name that no enclosing scope declares.
    UndefinedVariable,
    /// A second declaration of a name in the same scope.
    DuplicateDeclaration,
    /// An assignment to a name declared with `const`.
    AssignToConstant,
    /// An assignment whose left-hand side is not an identifier.
    InvalidAssignmentTarget,
    /// An operator that has no instruction (`<=`, `>=`).
    UnsupportedOperator,
    /// A program node nested inside a program.
    NestedProgram,
    /// A string operand longer than 255 bytes.
    StringTooLong,
}

/// A code generation error and the identifier it concerns (empty when it
/// concerns none).
#[derive(Debug, Clone)]
pub struct CodegenError {
    pub kind: CodegenErrorKind,
    pub name: String,
}

impl View for CodegenError {
    type V = (CodegenErrorKind, Seq<char>);

    open spec fn view(&self) -> (CodegenErrorKind, Seq<char>) {
        (self.kind, self.name@)
    }
}

/// A declared variable: whether it is constant, and its slot.
#[derive(Debug, Clone, Copy, PartialEq, Eq, Structural)]
pub struct Variable {
    pub constant: bool,
    pub id: u64,
}

// ---------------------------------------------------------------------------
// Specification
// ---------------------------------------------------------------------------

/// A scope frame: its declarations in order. The scope stack lists frames
/// from outermost to innermost.
pub type Frame = Seq<(Seq<char>, Variable)>;

pub type GenError = (CodegenErrorKind, Seq<char>);

/// The variable a frame declares under `x`.
pub open spec fn frame_find(f: Frame, x: Seq<char>) -> Option<Variable>
    decreases f.len(),
{
    if f.len() == 0 {
        None
    } else if f.last().0 == x {
        Some(f.last().1)
    } else {
        frame_find(f.drop_last(), x)
    }
}

/// The variable `x` names: the innermost frame that declares it wins.
pub open spec fn resolve(fs: Seq<Frame>, x: Seq<char>) -> Option<Variable>
    decreases fs.len(),
{
    if fs.len() == 0 {
        None
    } else {
        match frame_find(fs.last(), x) {
            Some(v) => Some(v),
            None => resolve(fs.drop_last(), x),
        }
    }
}

/// The scope stack after declaring `x` as `v` in the innermost frame.
pub open spec fn declare(fs: Seq<Frame>, x: Seq<char>, v: Variable) -> Seq<Frame> {
    if fs.len() == 0 {
        seq![seq![(x, v)]]
    } else {
        fs.update(fs.len() - 1, fs.last().push((x, v)))
    }
}

pub open spec fn binary_code(op: BinaryOperator) -> Option<u8> {
    match op {
        BinaryOperator::Add => Some(ADD),
        BinaryOperator::Sub => Some(SUB),
        BinaryOperator::Mul => Some(MUL),
        BinaryOperator::Div => Some(DIV),
        BinaryOperator::Mod => Some(MOD),
        BinaryOperator::Eq => Some(EQ),
        BinaryOperator::Neq => Some(NEQ),
        BinaryOperator::Lt => Some(LT),
        BinaryOperator::Gt => Some(GT),
        BinaryOperator::Le => None,
        BinaryOperator::Ge => None,
    }
}

/// The arithmetic instruction of a compound assignment.
pub open spec fn compound_code(op: AssignOperator) -> u8 {
    match op {
        AssignOperator::SubAssign => SUB,
        AssignOperator::MulAssign => MUL,
        AssignOperator::DivAssign => DIV,
        AssignOperator::ModAssign => MOD,
        _ => ADD,
    }
}

pub open spec fn no_name() -> Seq<char> {
    Seq::empty()
}

/// The code of expression `e` under scope stack `fs`, when it is placed at
/// byte offset `base` of the container.
pub open spec fn gen_expr(e: ExprModel, fs: Seq<Frame>, base: int) -> Result<Seq<u8>, GenError>
    decreases e,
{
    match e {
        ExprModel::Number(n) => Ok(with_operand(PUSH_INT, n as u64)),
        ExprModel::Bool(b) => Ok(seq![PUSH_BOOL, if b { 1u8 } else { 0u8 }]),
        ExprModel::Ident(x) => match resolve(fs, x) {
            Some(v) => Ok(with_operand(LOAD, v.id)),
            None => Err((CodegenErrorKind::UndefinedVariable, x)),
        },
        ExprModel::Unary(op, a) => match gen_expr(*a, fs, base) {
            Err(err) => Err(err),
            Ok(c) => Ok(
                match op {
                    UnaryOperator::Plus => c,
                    UnaryOperator::Minus => c.push(NEG),
                    UnaryOperator::Not => c.push(NOT),
                },
            ),
        },
        ExprModel::Binary(op, l, r) => match gen_expr(*l, fs, base) {
            Err(err) => Err(err),
            Ok(lc) => match gen_expr(*r, fs, base + lc.len()) {
                Err(err) => Err(err),
                Ok(rc) => match binary_code(op) {
                    Some(b) => Ok(lc + rc + seq![b]),
                    None => Err((CodegenErrorKind::UnsupportedOperator, no_name())),
                },
            },
        },
        ExprModel::Logical(op, l, r) => match gen_expr(*l, fs, base) {
            Err(err) => Err(err),
            Ok(lc) => match gen_expr(*r, fs, base + lc.len() + 10) {
                Err(err) => Err(err),
                Ok(rc) => {
                    let jump = if op == LogicalOperator::And {
                        JMP_IF_FALSE_PEEK
                    } else {
                        JMP_IF_TRUE_PEEK
                    };
                    let end = base + lc.len() + 10 + rc.len();
                    Ok(lc + with_operand(jump, end as u64) + seq![POP] + rc)
                },
            },
        },
        ExprModel::Assign(target, op, value) => match *target {
            ExprModel::Ident(x) => match resolve(fs, x) {
                None => Err((CodegenErrorKind::UndefinedVariable, x)),
                Some(v) => {
                    if v.constant {
                        Err((CodegenErrorKind::AssignToConstant, x))
                    } else if op == AssignOperator::Assign {
                        match gen_expr(*value, fs, base) {
                            Err(err) => Err(err),
                            Ok(vc) => Ok(vc + with_operand(STORE, v.id)),
                        }
                    } else {
                        match gen_expr(*value, fs, base + 9) {
                            Err(err) => Err(err),
                            Ok(vc) => Ok(
                                with_operand(LOAD, v.id) + vc + seq![compound_code(op)]
                                    + with_operand(STORE, v.id),
                            ),
                        }
                    }
                },
            },
            _ => Err((CodegenErrorKind::InvalidAssignmentTarget, no_name())),
        },
    }
}

/// What generating a statement produces: its code, the scope stack after
/// it, and the next free slot.
pub type StmtGen = Result<(Seq<u8>, Seq<Frame>, nat), GenError>;

/// The code of statement `s` at offset `base`, with scope stack `fs` and
/// next free slot `next`.
pub open spec fn gen_stmt(s: StmtModel, fs: Seq<Frame>, next: nat, base: int) -> StmtGen
    decreases s,
{
    match s {
        StmtModel::VarDecl(x, constant, e) => match gen_expr(e, fs, base) {
            Err(err) => Err(err),
            Ok(c) => {
                if fs.len() > 0 && frame_find(fs.last(), x).is_some() {
                    Err((CodegenErrorKind::DuplicateDeclaration, x))
                } else {
                    Ok(
                        (
                            c + with_operand(STORE, next as u64),
                            declare(fs, x, Variable { constant, id: next as u64 }),
                            next + 1,
                        ),
                    )
                }
            },
        },
        StmtModel::If(test, body, alt) => match gen_expr(test, fs, base) {
            Err(err) => Err(err),
            Ok(cc) => {
                let body_at = base + cc.len() + 9;
                match gen_stmt(*body, fs, next, body_at) {
                    Err(err) => Err(err),
                    Ok((bc, fs1, next1)) => match alt {
                        None => Ok(
                            (
                                cc + with_operand(JMP_IF_FALSE, (body_at + bc.len()) as u64) + bc,
                                fs1,
                                next1,
                            ),
                        ),
                        Some(a) => {
                            let alt_at = body_at + bc.len() + 9;
                            match gen_stmt(*a, fs1, next1, alt_at) {
                                Err(err) => Err(err),
                                Ok((ac, fs2, next2)) => Ok(
                                    (
                                        cc + with_operand(JMP_IF_FALSE, alt_at as u64) + bc
                                            + with_operand(JMP, (alt_at + ac.len()) as u64) + ac,
                                        fs2,
                                        next2,
                                    ),
                                ),
                            }
                        },
                    },
                }
            },
        },
        StmtModel::Block(body) => match gen_stmts(body, fs.push(Seq::empty()), next, base) {
            Err(err) => Err(err),
            Ok((c, fs1, next1)) => Ok((c, fs1.drop_last(), next1)),
        },
        StmtModel::ExprStmt(e) => match gen_expr(e, fs, base) {
            Err(err) => Err(err),
            Ok(c) => Ok((c, fs, next)),
        },
        StmtModel::Program(_) => Err((CodegenErrorKind::NestedProgram, no_name())),
    }
}

/// The code of a sequence of statements, one after another.
pub open spec fn gen_stmts(ss: Seq<StmtModel>, fs: Seq<Frame>, next: nat, base: int) -> StmtGen
    decreases ss,
{
    if ss.len() == 0 {
        Ok((Seq::empty(), fs, next))
    } else {
        match gen_stmt(ss[0], fs, next, base) {
            Err(err) => Err(err),
            Ok((c, fs1, next1)) => match gen_stmts(
                ss.subrange(1, ss.len() as int),
                fs1,
                next1,
                base + c.len(),
            ) {
                Err(err) => Err(err),
                Ok((rest, fs2, next2)) => Ok((c + rest, fs2, next2)),
            },
        }
    }
}

/// The bytecode container of a program: the magic number, the code of its
/// statements in one global scope, and `Halt`.
pub open spec fn compile(prog: Seq<StmtModel>) -> Result<Seq<u8>, GenError> {
    match gen_stmts(prog, seq![Seq::empty()], 0, 4) {
        Err(err) => Err(err),
        Ok((c, _, _)) => Ok(magic_bytes() + c + seq![HALT]),
    }
}

/// The code so far `pre` followed by what a generation step produced.
pub open spec fn then_code(pre: Seq<u8>, r: StmtGen) -> StmtGen {
    match r {
        Ok((c, fs, n)) => Ok((pre + c, fs, n)),
        Err(err) => Err(err),
    }
}

/// `r` reports the outcome `g` of generating code that was appended to
/// `before`, giving `after`.
pub open spec fn emitted(
    before: Seq<u8>,
    after: Seq<u8>,
    r: Result<(), CodegenError>,
    g: Result<Seq<u8>, GenError>,
) -> bool {
    match g {
        Ok(c) => r is Ok && after == before + c,
        Err(err) => r matches Err(x) && x@ == err,
    }
}

/// `r` reports the outcome `g` of generating a statement's code, which
/// took the generator from `before` to `after`.
pub open spec fn stmt_emitted(before: Codegen, after: Codegen, r: Result<(), CodegenError>,
    g: StmtGen) -> bool {
    match g {
        Ok((c, fs, n)) => r is Ok && after.code() == before.code() + c && after.frames() == fs
            && after.next_slot() == n,
        Err(err) => r matches Err(x) && x@ == err,
    }
}

/// `s` with the eight bytes at `pos` replaced by the encoding of `v`.
pub open spec fn patched(s: Seq<u8>, pos: int, v: u64) -> Seq<u8> {
    s.subrange(0, pos) + spec_u64_to_le_bytes(v) + s.subrange(pos + 8, s.len() as int)
}

proof fn lemma_operand_len(v: u64)
    ensures
        spec_u64_to_le_bytes(v).len() == 8,
        with_operand(0, v).len() == 9,
{
    vstd::bytes::lemma_auto_spec_u64_to_from_le_bytes();
}

proof fn lemma_patch(pre: Seq<u8>, op: u8, old_v: u64, new_v: u64, post: Seq<u8>)
    ensures
        patched(pre + with_operand(op, old_v) + post, pre.len() as int + 1, new_v) == pre + with_operand(
            op,
            new_v,
        ) + post,
{
    vstd::bytes::lemma_auto_spec_u64_to_from_le_bytes();
    let s = pre + with_operand(op, old_v) + post;
    assert(patched(s, pre.len() as int + 1, new_v) =~= pre + with_operand(op, new_v) + post);
}

// ---------------------------------------------------------------------------
// Implementation
// ---------------------------------------------------------------------------

/// One declaration of a scope frame.
struct Binding {
    name: String,
    var: Variable,
}

spec fn frame_view(f: Seq<Binding>) -> Frame {
    f.map_values(|b: Binding| (b.name@, b.var))
}

spec fn scopes_view(s: Seq<Vec<Binding>>) -> Seq<Frame> {
    s.map_values(|f: Vec<Binding>| frame_view(f@))
}

fn frame_lookup(f: &Vec<Binding>, name: &String) -> (r: Option<Variable>)
    ensures
        r == frame_find(frame_view(f@), name@),
{
    let mut j = f.len();
    assert(f@.subrange(0, j as int) =~= f@);
    while j > 0
        invariant
            j <= f.len(),
            frame_find(frame_view(f@), name@) == frame_find(
                frame_view(f@.subrange(0, j as int)),
                name@,
            ),
        decreases j,
    {
        let ghost g = frame_view(f@.subrange(0, j as int));
        assert(g.drop_last() =~= frame_view(f@.subrange(0, j - 1)));
        if f[j - 1].name == *name {
            return Some(f[j - 1].var);
        }
        j = j - 1;
    }
    assert(frame_view(f@.subrange(0, 0)) =~= Seq::empty());
    None
}

/// Lowers a syntax tree to bytecode.
pub struct Codegen {
    bytecode: Vec<u8>,
    scopes: Vec<Vec<Binding>>,
    next_var_id: u64,
}

impl Codegen {
    /// The eight little-endian bytes of `value`.
    pub fn emit_u64(value: u64) -> (r: Vec<u8>)
        ensures
            r@ == spec_u64_to_le_bytes(value),
    {
        u64_to_le_bytes(value)
    }

    /// The operand of a `PushStr` instruction for `value`: a one-byte length
    /// followed by the UTF-8 bytes; fails when the text is longer than 255
    /// bytes. The opcode itself is left to the caller.
    pub fn emit_str(value: &str) -> (r: Result<Vec<u8>, CodegenError>)
        ensures
            value.spec_bytes().len() <= 255 ==> (r matches Ok(v) && v@ == seq![
                value.spec_bytes().len() as u8,
            ] + value.spec_bytes()),
            value.spec_bytes().len() > 255 ==> (r matches Err(e) && e@ == (
                CodegenErrorKind::StringTooLong,
                no_name(),
            )),
    {
        let bytes = value.as_bytes();
        let length = bytes.len();
        if length > 255 {
            return Err(CodegenError { kind: CodegenErrorKind::StringTooLong, name: String::new() });
        }
        let mut result: Vec<u8> = Vec::new();
        result.push(length as u8);
        let mut i: usize = 0;
        while i < length
            invariant
                length == bytes@.len(),
                bytes@ == value.spec_bytes(),
                length <= 255,
                i <= length,
                result@ == seq![length as u8] + bytes@.subrange(0, i as int),
            decreases length - i,
        {
            result.push(bytes[i]);
            i = i + 1;
            assert(result@ =~= seq![length as u8] + bytes@.subrange(0, i as int));
        }
        assert(bytes@.subrange(0, length as int) =~= bytes@);
        Ok(result)
    }

    /// The scope stack, outermost frame first.
    pub closed spec fn frames(&self) -> Seq<Frame> {
        scopes_view(self.scopes@)
    }

    /// The code emitted so far.
    pub closed spec fn code(&self) -> Seq<u8> {
        self.bytecode@
    }

    /// The next free variable slot.
    pub closed spec fn next_slot(&self) -> nat {
        self.next_var_id as nat
    }

    /// At least one scope is open, and slots are bounded by the code size
    /// (each declaration emits a store).
    pub closed spec fn wf(&self) -> bool {
        self.scopes.len() >= 1 && self.next_var_id <= self.bytecode.len()
    }

    pub fn new() -> (r: Codegen)
        ensures
            r.wf(),
            r.code() == Seq::<u8>::empty(),
            r.frames() == seq![Seq::<(Seq<char>, Variable)>::empty()],
            r.next_slot() == 0,
    {
        let r = Codegen { bytecode: Vec::new(), scopes: vec![Vec::new()], next_var_id: 0 };
        assert(frame_view(r.scopes@[0]@) =~= Seq::<(Seq<char>, Variable)>::empty());
        assert(r.frames() =~= seq![Seq::<(Seq<char>, Variable)>::empty()]);
        r
    }

    fn emit(&mut self, b: u8)
        ensures
            final(self).bytecode@ == old(self).bytecode@.push(b),
            final(self).scopes == old(self).scopes,
            final(self).next_var_id == old(self).next_var_id,
    {
        self.bytecode.push(b);
    }

    fn emit_operand(&mut self, v: u64)
        ensures
            final(self).bytecode@ == old(self).bytecode@ + spec_u64_to_le_bytes(v),
            final(self).scopes == old(self).scopes,
            final(self).next_var_id == old(self).next_var_id,
    {
        let bytes = Self::emit_u64(v);
        proof {
            lemma_operand_len(v);
        }
        let mut k: usize = 0;
        while k < 8
            invariant
                bytes@ == spec_u64_to_le_bytes(v),
                bytes@.len() == 8,
                k <= 8,
                self.bytecode@ == old(self).bytecode@ + bytes@.subrange(0, k as int),
                self.scopes == old(self).scopes,
                self.next_var_id == old(self).next_var_id,
            decreases 8 - k,
        {
            self.bytecode.push(bytes[k]);
            k = k + 1;
            assert(self.bytecode@ =~= old(self).bytecode@ + bytes@.subrange(0, k as int));
        }
        assert(bytes@.subrange(0, 8) =~= bytes@);
    }

    fn emit_with_operand(&mut self, op: u8, v: u64)
        ensures
            final(self).bytecode@ == old(self).bytecode@ + with_operand(op, v),
            final(self).scopes == old(self).scopes,
            final(self).next_var_id == old(self).next_var_id,
    {
        self.emit(op);
        self.emit_operand(v);
        assert(self.bytecode@ =~= old(self).bytecode@ + with_operand(op, v));
    }

    /// Overwrites the placeholder operand at `pos` with the offset `target`.
    fn patch_jump(&mut self, pos: usize, target: usize)
        requires
            pos + 8 <= old(self).bytecode.len(),
        ensures
            final(self).bytecode@ == patched(old(self).bytecode@, pos as int, target as u64),
            final(self).bytecode@.len() == old(self).bytecode@.len(),
            final(self).scopes == old(self).scopes,
            final(self).next_var_id == old(self).next_var_id,
    {
        let bytes = Self::emit_u64(target as u64);
        proof {
            lemma_operand_len(target as u64);
        }
        let mut k: usize = 0;
        while k < 8
            invariant
                bytes@ == spec_u64_to_le_bytes(target as u64),
                bytes@.len() == 8,
                k <= 8,
                pos + 8 <= old(self).bytecode.len(),
                self.bytecode@.len() == old(self).bytecode@.len(),
                forall|i: int|
                    0 <= i < self.bytecode@.len() ==> #[trigger] self.bytecode@[i] == if pos <= i
                        < pos + k {
                        bytes@[i - pos]
                    } else {
                        old(self).bytecode@[i]
                    },
                self.scopes == old(self).scopes,
                self.next_var_id == old(self).next_var_id,
            decreases 8 - k,
        {
            self.bytecode[pos + k] = bytes[k];
            k = k + 1;
        }
        assert(self.bytecode@ =~= patched(old(self).bytecode@, pos as int, target as u64));
    }

    /// The variable `name` refers to, searching scopes inside out.
    fn get_var(&self, name: &String) -> (r: Option<Variable>)
        ensures
            r == resolve(self.frames(), name@),
    {
        let mut i = self.scopes.len();
        assert(self.scopes@.subrange(0, i as int) =~= self.scopes@);
        while i > 0
            invariant
                i <= self.scopes.len(),
                resolve(self.frames(), name@) == resolve(
                    scopes_view(self.scopes@.subrange(0, i as int)),
                    name@,
                ),
            decreases i,
        {
            let ghost g = scopes_view(self.scopes@.subrange(0, i as int));
            assert(g.drop_last() =~= scopes_view(self.scopes@.subrange(0, i - 1)));
            assert(g.last() == frame_view(self.scopes@[i - 1]@));
            if let Some(v) = frame_lookup(&self.scopes[i - 1], name) {
                return Some(v);
            }
            i = i - 1;
        }
        assert(scopes_view(self.scopes@.subrange(0, 0)) =~= Seq::empty());
        None
    }

    fn error(kind: CodegenErrorKind, name: &String) -> (e: CodegenError)
        ensures
            e@ == (kind, name@),
    {
        CodegenError { kind, name: name.clone() }
    }

    fn plain_error(kind: CodegenErrorKind) -> (e: CodegenError)
        ensures
            e@ == (kind, no_name()),
    {
        CodegenError { kind, name: String::new() }
    }

    fn binary_opcode(op: BinaryOperator) -> (r: Option<u8>)
        ensures
            r == binary_code(op),
    {
        match op {
            BinaryOperator::Add => Some(ADD),
            BinaryOperator::Sub => Some(SUB),
            BinaryOperator::Mul => Some(MUL),
            BinaryOperator::Div => Some(DIV),
            BinaryOperator::Mod => Some(MOD),
            BinaryOperator::Eq => Some(EQ),
            BinaryOperator::Neq => Some(NEQ),
            BinaryOperator::Lt => Some(LT),
            BinaryOperator::Gt => Some(GT),
            BinaryOperator::Le => None,
            BinaryOperator::Ge => None,
        }
    }

    fn compound_opcode(op: AssignOperator) -> (r: u8)
        ensures
            r == compound_code(op),
    {
        match op {
            AssignOperator::SubAssign => SUB,
            AssignOperator::MulAssign => MUL,
            AssignOperator::DivAssign => DIV,
            AssignOperator::ModAssign => MOD,
            _ => ADD,
        }
    }

    /// Appends the code of `e`.
    fn generate_expr(&mut self, e: &Expr) -> (r: Result<(), CodegenError>)
        requires
            old(self).wf(),
        ensures
            final(self).wf(),
            final(self).scopes == old(self).scopes,
            final(self).next_var_id == old(self).next_var_id,
            old(self).bytecode@.len() <= final(self).bytecode@.len(),
            emitted(
                old(self).bytecode@,
                final(self).bytecode@,
                r,
                gen_expr(e.model(), old(self).frames(), old(self).bytecode@.len() as int),
            ),
        decreases e,
    {
        let ghost b0 = self.bytecode@;
        match e {
            Expr::NumericLiteral(n) => {
                self.emit_with_operand(PUSH_INT, n.value as u64);
                Ok(())
            },
            Expr::BooleanLiteral(b) => {
                self.emit(PUSH_BOOL);
                self.emit(if b.value { 1 } else { 0 });
                assert(self.bytecode@ =~= b0 + seq![PUSH_BOOL, if b.value { 1u8 } else { 0u8 }]);
                Ok(())
            },
            Expr::Identifier(i) => match self.get_var(&i.symbol) {
                Some(v) => {
                    self.emit_with_operand(LOAD, v.id);
                    Ok(())
                },
                None => Err(Self::error(CodegenErrorKind::UndefinedVariable, &i.symbol)),
            },
            Expr::UnaryExpr(u) => self.generate_unary_expr(u),
            Expr::Binary(b) => self.generate_binary_expr(b),
            Expr::Logical(l) => self.generate_logical_expr(l),
            Expr::AssignmentExpr(a) => self.generate_assignment_expr(a),
        }
    }

    /// The operand, then `Neg` for `-` and `Not` for `!`.
    fn generate_unary_expr(&mut self, u: &UnaryExpr) -> (r: Result<(), CodegenError>)
        requires
            old(self).wf(),
        ensures
            final(self).wf(),
            final(self).scopes == old(self).scopes,
            final(self).next_var_id == old(self).next_var_id,
            old(self).bytecode@.len() <= final(self).bytecode@.len(),
            emitted(
                old(self).bytecode@,
                final(self).bytecode@,
                r,
                gen_expr(ExprModel::Unary(u.operator, Box::new(u.value.model())),
                    old(self).frames(), old(self).bytecode@.len() as int),
            ),
        decreases u,
    {
        let ghost b0 = self.bytecode@;
        match self.generate_expr(&u.value) {
            Ok(()) => {},
            Err(x) => {
                return Err(x);
            },
        }
        let ghost b1 = self.bytecode@;
        match u.operator {
            UnaryOperator::Plus => {},
            UnaryOperator::Minus => {
                self.emit(NEG);
                assert(self.bytecode@ =~= b0 + (b1.subrange(b0.len() as int, b1.len() as int)).push(NEG));
            },
            UnaryOperator::Not => {
                self.emit(NOT);
                assert(self.bytecode@ =~= b0 + (b1.subrange(b0.len() as int, b1.len() as int)).push(NOT));
            },
        }
        proof {
            assert(b1 =~= b0 + b1.subrange(b0.len() as int, b1.len() as int));
        }
        Ok(())
    }

    /// Left operand, right operand, then the operator's instruction.
    fn generate_binary_expr(&mut self, b: &BinaryExpr) -> (r: Result<(), CodegenError>)
        requires
            old(self).wf(),
        ensures
            final(self).wf(),
            final(self).scopes == old(self).scopes,
            final(self).next_var_id == old(self).next_var_id,
            old(self).bytecode@.len() <= final(self).bytecode@.len(),
            emitted(
                old(self).bytecode@,
                final(self).bytecode@,
                r,
                gen_expr(ExprModel::Binary(b.operator, Box::new(b.left.model()),
                    Box::new(b.right.model())), old(self).frames(),
                    old(self).bytecode@.len() as int),
            ),
        decreases b,
    {
        let ghost b0 = self.bytecode@;
        match self.generate_expr(&b.left) {
            Ok(()) => {},
            Err(x) => {
                return Err(x);
            },
        }
        let ghost b1 = self.bytecode@;
        match self.generate_expr(&b.right) {
            Ok(()) => {},
            Err(x) => {
                return Err(x);
            },
        }
        let ghost b2 = self.bytecode@;
        match Self::binary_opcode(b.operator) {
            Some(code) => {
                self.emit(code);
                proof {
                    let fs = old(self).frames();
                    let lc = gen_expr(b.left.model(), fs, b0.len() as int)->Ok_0;
                    let rc = gen_expr(b.right.model(), fs, b1.len() as int)->Ok_0;
                    assert(self.bytecode@ =~= b0 + (lc + rc + seq![code]));
                }
                Ok(())
            },
            None => Err(Self::plain_error(CodegenErrorKind::UnsupportedOperator)),
        }
    }

    /// The left operand, a peeking jump past the right operand, `Pop`, and
    /// the right operand.
    fn generate_logical_expr(&mut self, l: &LogicalExpr) -> (r: Result<(), CodegenError>)
        requires
            old(self).wf(),
        ensures
            final(self).wf(),
            final(self).scopes == old(self).scopes,
            final(self).next_var_id == old(self).next_var_id,
            old(self).bytecode@.len() <= final(self).bytecode@.len(),
            emitted(
                old(self).bytecode@,
                final(self).bytecode@,
                r,
                gen_expr(ExprModel::Logical(l.operator, Box::new(l.left.model()),
                    Box::new(l.right.model())), old(self).frames(),
                    old(self).bytecode@.len() as int),
            ),
        decreases l,
    {
        let ghost b0 = self.bytecode@;
        match self.generate_expr(&l.left) {
            Ok(()) => {},
            Err(x) => {
                return Err(x);
            },
        }
        let ghost b1 = self.bytecode@;
        let jump = match l.operator {
            LogicalOperator::And => JMP_IF_FALSE_PEEK,
            LogicalOperator::Or => JMP_IF_TRUE_PEEK,
        };
        self.emit(jump);
        let slot = self.bytecode.len();
        self.emit_operand(0);
        self.emit(POP);
        proof {
            lemma_operand_len(0);
            assert(self.bytecode@ =~= b1 + with_operand(jump, 0) + seq![POP]);
        }
        let ghost b2 = self.bytecode@;
        match self.generate_expr(&l.right) {
            Ok(()) => {},
            Err(x) => {
                return Err(x);
            },
        }
        let ghost b3 = self.bytecode@;
        let end = self.bytecode.len();
        self.patch_jump(slot, end);
        proof {
            let fs = old(self).frames();
            let lc = gen_expr(l.left.model(), fs, b0.len() as int)->Ok_0;
            let rc = gen_expr(l.right.model(), fs, b2.len() as int)->Ok_0;
            assert(b2.len() == b0.len() + lc.len() + 10);
            assert(b3 =~= (b0 + lc) + with_operand(jump, 0) + (seq![POP] + rc));
            lemma_patch(b0 + lc, jump, 0, end as u64, seq![POP] + rc);
            assert(self.bytecode@ =~= b0 + (lc + with_operand(jump, end as u64) + seq![POP] + rc));
        }
        Ok(())
    }

    /// A store of the value to the target's slot; a compound assignment
    /// first loads the target and applies the operator.
    fn generate_assignment_expr(&mut self, a: &AssignmentExpr) -> (r: Result<(), CodegenError>)
        requires
            old(self).wf(),
        ensures
            final(self).wf(),
            final(self).scopes == old(self).scopes,
            final(self).next_var_id == old(self).next_var_id,
            old(self).bytecode@.len() <= final(self).bytecode@.len(),
            emitted(
                old(self).bytecode@,
                final(self).bytecode@,
                r,
                gen_expr(ExprModel::Assign(Box::new(a.assignee.model()), a.operator,
                    Box::new(a.value.model())), old(self).frames(),
                    old(self).bytecode@.len() as int),
            ),
        decreases a,
    {
        let ghost b0 = self.bytecode@;
        let name = match &*a.assignee {
            Expr::Identifier(i) => &i.symbol,
            _ => {
                return Err(Self::plain_error(CodegenErrorKind::InvalidAssignmentTarget));
            },
        };
        let v = match self.get_var(name) {
            Some(v) => v,
            None => {
                return Err(Self::error(CodegenErrorKind::UndefinedVariable, name));
            },
        };
        if v.constant {
            return Err(Self::error(CodegenErrorKind::AssignToConstant, name));
        }
        if a.operator == AssignOperator::Assign {
            match self.generate_expr(&a.value) {
                Ok(()) => {},
                Err(x) => {
                    return Err(x);
                },
            }
            let ghost b1 = self.bytecode@;
            self.emit_with_operand(STORE, v.id);
            proof {
                let vc = gen_expr(a.value.model(), old(self).frames(), b0.len() as int)->Ok_0;
                assert(self.bytecode@ =~= b0 + (vc + with_operand(STORE, v.id)));
            }
        } else {
            self.emit_with_operand(LOAD, v.id);
            proof {
                lemma_operand_len(v.id);
            }
            let ghost b1 = self.bytecode@;
            match self.generate_expr(&a.value) {
                Ok(()) => {},
                Err(x) => {
                    return Err(x);
                },
            }
            let ghost b2 = self.bytecode@;
            let code = Self::compound_opcode(a.operator);
            self.emit(code);
            self.emit_with_operand(STORE, v.id);
            proof {
                let vc = gen_expr(a.value.model(), old(self).frames(), b1.len() as int)->Ok_0;
                assert(self.bytecode@ =~= b0
                    + (with_operand(LOAD, v.id) + vc + seq![code] + with_operand(STORE, v.id)));
            }
        }
        Ok(())
    }

    /// Appends the code of `s`, declaring its variables.
    fn generate_stmt(&mut self, s: &Stmt) -> (r: Result<(), CodegenError>)
        requires
            old(self).wf(),
        ensures
            final(self).wf(),
            old(self).bytecode@.len() <= final(self).bytecode@.len(),
            r is Ok ==> final(self).scopes.len() == old(self).scopes.len(),
            stmt_emitted(*old(self), *final(self), r, gen_stmt(
                s.model(),
                old(self).frames(),
                old(self).next_slot(),
                old(self).bytecode@.len() as int,
            )),
        decreases s,
    {
        match s {
            Stmt::VariableDeclaration(v) => self.generate_vardecl_stmt(v),
            Stmt::IfStatement(i) => self.generate_if_stmt(i),
            Stmt::BlockStatement(b) => self.generate_block_stmt(b),
            Stmt::Expr(e) => self.generate_expr(e),
            Stmt::Program(_) => Err(Self::plain_error(CodegenErrorKind::NestedProgram)),
        }
    }

    /// The value, a store to the next free slot, and then the declaration in
    /// the innermost scope (so that the value cannot see the name).
    fn generate_vardecl_stmt(&mut self, v: &VariableDeclaration) -> (r: Result<(), CodegenError>)
        requires
            old(self).wf(),
        ensures
            final(self).wf(),
            old(self).bytecode@.len() <= final(self).bytecode@.len(),
            r is Ok ==> final(self).scopes.len() == old(self).scopes.len(),
            stmt_emitted(*old(self), *final(self), r, gen_stmt(
                StmtModel::VarDecl(v.identifier@, v.constant, v.value.model()),
                old(self).frames(),
                old(self).next_slot(),
                old(self).bytecode@.len() as int,
            )),
        decreases v,
    {
        let ghost b0 = self.bytecode@;
        match self.generate_expr(&v.value) {
            Ok(()) => {},
            Err(x) => {
                return Err(x);
            },
        }
        let id = self.next_var_id;
        self.emit_with_operand(STORE, id);
        proof {
            lemma_operand_len(id);
            assert(id < self.bytecode.len());
        }
        let top = self.scopes.len() - 1;
        if frame_lookup(&self.scopes[top], &v.identifier).is_some() {
            return Err(Self::error(CodegenErrorKind::DuplicateDeclaration, &v.identifier));
        }
        let mut frame = self.scopes.pop().unwrap();
        let ghost f0 = frame@;
        let binding = Binding { name: v.identifier.clone(), var: Variable { constant: v.constant, id } };
        let ghost bd = binding;
        frame.push(binding);
        self.scopes.push(frame);
        self.next_var_id = id + 1;
        proof {
            let fs = old(self).frames();
            let c = gen_expr(v.value.model(), fs, b0.len() as int)->Ok_0;
            assert(self.bytecode@ =~= b0 + (c + with_operand(STORE, id)));
            assert(frame_view(f0.push(bd))
                =~= frame_view(f0).push((v.identifier@, Variable { constant: v.constant, id })));
            assert(self.frames() =~= declare(fs, v.identifier@, Variable { constant: v.constant, id }));
        }
        Ok(())
    }

    /// The test, a conditional jump over the body, the body, and for an
    /// `else` a jump over the alternate; jump operands are patched once known.
    #[verifier::rlimit(40)]
    fn generate_if_stmt(&mut self, i: &IfStatement) -> (r: Result<(), CodegenError>)
        requires
            old(self).wf(),
        ensures
            final(self).wf(),
            old(self).bytecode@.len() <= final(self).bytecode@.len(),
            r is Ok ==> final(self).scopes.len() == old(self).scopes.len(),
            stmt_emitted(*old(self), *final(self), r, gen_stmt(
                StmtModel::If(
                    i.test.model(),
                    Box::new(i.body.model()),
                    match i.alternate {
                        Some(a) => Some(Box::new(a.model())),
                        None => None,
                    },
                ),
                old(self).frames(),
                old(self).next_slot(),
                old(self).bytecode@.len() as int,
            )),
        decreases i,
    {
        let ghost b0 = self.bytecode@;
        let ghost fs = self.frames();
        match self.generate_expr(&i.test) {
            Ok(()) => {},
            Err(x) => {
                return Err(x);
            },
        }
        let ghost b1 = self.bytecode@;
        self.emit(JMP_IF_FALSE);
        let else_slot = self.bytecode.len();
        self.emit_operand(0);
        proof {
            lemma_operand_len(0);
            assert(self.bytecode@ =~= b1 + with_operand(JMP_IF_FALSE, 0));
        }
        let ghost b2 = self.bytecode@;
        match self.generate_stmt(&i.body) {
            Ok(()) => {},
            Err(x) => {
                return Err(x);
            },
        }
        let ghost b3 = self.bytecode@;
        let ghost cc = gen_expr(i.test.model(), fs, b0.len() as int)->Ok_0;
        let ghost bres = gen_stmt(i.body.model(), fs, old(self).next_slot(), b2.len() as int)->Ok_0;
        let ghost bc = bres.0;
        assert(b3 =~= (b0 + cc) + with_operand(JMP_IF_FALSE, 0) + bc);
        match &i.alternate {
            None => {
                let end = self.bytecode.len();
                self.patch_jump(else_slot, end);
                proof {
                    lemma_patch(b0 + cc, JMP_IF_FALSE, 0, end as u64, bc);
                    assert(self.bytecode@ =~= b0 + (cc + with_operand(JMP_IF_FALSE, end as u64) + bc));
                }
            },
            Some(a) => {
                self.emit(JMP);
                let end_slot = self.bytecode.len();
                self.emit_operand(0);
                let alt_at = self.bytecode.len();
                self.patch_jump(else_slot, alt_at);
                proof {
                    assert(self.bytecode@
                        =~= patched((b0 + cc) + with_operand(JMP_IF_FALSE, 0)
                        + (bc + with_operand(JMP, 0)), else_slot as int, alt_at as u64));
                    lemma_patch(b0 + cc, JMP_IF_FALSE, 0, alt_at as u64, bc + with_operand(JMP, 0));
                }
                let ghost b4 = self.bytecode@;
                match self.generate_stmt(a) {
                    Ok(()) => {},
                    Err(x) => {
                        return Err(x);
                    },
                }
                let ghost b5 = self.bytecode@;
                let ghost ac = gen_stmt(a.model(), bres.1, bres.2, b4.len() as int)->Ok_0.0;
                let end = self.bytecode.len();
                self.patch_jump(end_slot, end);
                proof {
                    let pre = b0 + cc + with_operand(JMP_IF_FALSE, alt_at as u64) + bc;
                    assert(b5 =~= pre + with_operand(JMP, 0) + ac);
                    lemma_patch(pre, JMP, 0, end as u64, ac);
                    assert(self.bytecode@ =~= b0
                        + (cc + with_operand(JMP_IF_FALSE, alt_at as u64) + bc
                        + with_operand(JMP, end as u64) + ac));
                }
            },
        }
        Ok(())
    }

    /// The body's code inside a fresh innermost scope.
    fn generate_block_stmt(&mut self, b: &BlockStatement) -> (r: Result<(), CodegenError>)
        requires
            old(self).wf(),
        ensures
            final(self).wf(),
            old(self).bytecode@.len() <= final(self).bytecode@.len(),
            r is Ok ==> final(self).scopes.len() == old(self).scopes.len(),
            stmt_emitted(*old(self), *final(self), r, gen_stmt(
                StmtModel::Block(stmts_model(b.body@)),
                old(self).frames(),
                old(self).next_slot(),
                old(self).bytecode@.len() as int,
            )),
        decreases b,
    {
        self.scopes.push(Vec::new());
        proof {
            assert(frame_view(self.scopes@.last()@) =~= Seq::<(Seq<char>, Variable)>::empty());
            assert(self.frames() =~= old(self).frames().push(Seq::empty()));
        }
        match self.generate_stmts(&b.body) {
            Ok(()) => {},
            Err(x) => {
                return Err(x);
            },
        }
        let ghost sc = self.scopes@;
        self.scopes.pop();
        proof {
            assert(self.frames() =~= scopes_view(sc).drop_last());
        }
        Ok(())
    }

    /// Appends the code of the statements of `body` in order.
    fn generate_stmts(&mut self, body: &Vec<Stmt>) -> (r: Result<(), CodegenError>)
        requires
            old(self).wf(),
        ensures
            final(self).wf(),
            old(self).bytecode@.len() <= final(self).bytecode@.len(),
            r is Ok ==> final(self).scopes.len() == old(self).scopes.len(),
            stmt_emitted(*old(self), *final(self), r, gen_stmts(
                stmts_model(body@),
                old(self).frames(),
                old(self).next_slot(),
                old(self).bytecode@.len() as int,
            )),
        decreases body,
    {
        let ghost ms = stmts_model(body@);
        let ghost b0 = self.bytecode@;
        proof {
            lemma_stmts_model(body@);
            assert(ms.subrange(0, ms.len() as int) =~= ms);
        }
        let mut i: usize = 0;
        while i < body.len()
            invariant
                self.wf(),
                self.scopes.len() == old(self).scopes.len(),
                i <= body.len(),
                ms == stmts_model(body@),
                ms.len() == body.len(),
                forall|k: int| 0 <= k < body.len() ==> #[trigger] ms[k] == body@[k].model(),
                b0 == old(self).bytecode@,
                b0.len() <= self.bytecode@.len(),
                self.bytecode@.subrange(0, b0.len() as int) == b0,
                gen_stmts(ms, old(self).frames(), old(self).next_slot(), b0.len() as int)
                    == then_code(
                    self.bytecode@.subrange(b0.len() as int, self.bytecode@.len() as int),
                    gen_stmts(
                        ms.subrange(i as int, ms.len() as int),
                        self.frames(),
                        self.next_slot(),
                        self.bytecode@.len() as int,
                    ),
                ),
            decreases body.len() - i,
        {
            let ghost before = self.bytecode@;
            let ghost fs = self.frames();
            let ghost n = self.next_slot();
            let ghost rest = ms.subrange(i as int, ms.len() as int);
            assert(rest[0] == body@[i as int].model());
            assert(rest.subrange(1, rest.len() as int) =~= ms.subrange(i + 1, ms.len() as int));
            match self.generate_stmt(&body[i]) {
                Ok(()) => {},
                Err(x) => {
                    return Err(x);
                },
            }
            proof {
                let c = gen_stmt(rest[0], fs, n, before.len() as int)->Ok_0.0;
                let done = before.subrange(b0.len() as int, before.len() as int);
                assert(self.bytecode@ == before + c);
                assert(self.bytecode@.subrange(0, b0.len() as int) =~= b0);
                assert(self.bytecode@.subrange(b0.len() as int, self.bytecode@.len() as int) =~= done + c);
                match gen_stmts(ms.subrange(i + 1, ms.len() as int), self.frames(),
                    self.next_slot(), self.bytecode@.len() as int) {
                    Ok((x, _, _)) => {
                        assert(done + (c + x) =~= (done + c) + x);
                    },
                    Err(_) => {},
                }
            }
            i = i + 1;
        }
        proof {
            assert(self.bytecode@ =~= b0
                + self.bytecode@.subrange(b0.len() as int, self.bytecode@.len() as int));
        }
        Ok(())
    }

    /// The bytecode container of a program.
    pub fn generate(&mut self, ast: Vec<Stmt>) -> (r: Result<Vec<u8>, CodegenError>)
        ensures
            match compile(stmts_model(ast@)) {
                Ok(b) => r matches Ok(v) && v@ == b,
                Err(err) => r matches Err(x) && x@ == err,
            },
    {
        self.bytecode = Vec::new();
        self.scopes = vec![Vec::new()];
        self.next_var_id = 0;
        self.emit(0xde);
        self.emit(0xc0);
        self.emit(0xba);
        self.emit(0xc0);
        proof {
            assert(self.bytecode@ =~= magic_bytes());
            assert(frame_view(self.scopes@[0]@) =~= Seq::<(Seq<char>, Variable)>::empty());
            assert(self.frames() =~= seq![Seq::<(Seq<char>, Variable)>::empty()]);
        }
        match self.generate_stmts(&ast) {
            Ok(()) => {},
            Err(x) => {
                return Err(x);
            },
        }
        self.emit(HALT);
        let mut out: Vec<u8> = Vec::new();
        std::mem::swap(&mut out, &mut self.bytecode);
        Ok(out)
    }
}

} // verus!
