use vstd::prelude::*;
use vstd::bytes::{spec_u64_from_le_bytes, spec_u64_to_le_bytes};
use crate::ast::{AssignOperator, ExprModel, LogicalOperator, StmtModel, UnaryOperator};
use crate::codegen::{
    Frame, Variable, binary_code, compile, compound_code, declare, frame_find, gen_expr, gen_stmt,
    gen_stmts, resolve,
};
use crate::bytecode::{
    HALT, NEG, NOT, POP,
    CALL, JMP, JMP_IF_FALSE, JMP_IF_FALSE_PEEK, JMP_IF_TRUE, JMP_IF_TRUE_PEEK, LOAD, LOAD_LOCAL,
    PUSH_BOOL, PUSH_INT, PUSH_STR, STORE, STORE_LOCAL, with_operand,
};

verus! {

/// The number of operand bytes after an opcode (other than `PushStr`).
pub open spec fn operand_width(op: u8) -> int {
    if op == PUSH_INT || op == JMP || op == JMP_IF_TRUE || op == JMP_IF_FALSE || op
        == JMP_IF_TRUE_PEEK || op == JMP_IF_FALSE_PEEK || op == CALL || op == LOAD || op == STORE
        || op == LOAD_LOCAL || op == STORE_LOCAL {
        8
    } else if op == PUSH_BOOL {
        1
    } else {
        0
    }
}

/// Whether an opcode's operand is a code address.
pub open spec fn is_jump(op: u8) -> bool {
    op == JMP || op == JMP_IF_TRUE || op == JMP_IF_FALSE || op == JMP_IF_TRUE_PEEK || op
        == JMP_IF_FALSE_PEEK || op == CALL
}

/// The length of the instruction that starts `c`.
pub open spec fn instr_len(c: Seq<u8>) -> int {
    if c[0] == PUSH_STR {
        if c.len() >= 2 {
            2 + c[1]
        } else {
            2
        }
    } else {
        1 + operand_width(c[0])
    }
}

/// Whether `c` is a sequence of whole instructions.
pub open spec fn decodes(c: Seq<u8>) -> bool
    decreases c.len(),
{
    if c.len() == 0 {
        true
    } else {
        let n = instr_len(c);
        1 <= n <= c.len() && decodes(c.subrange(n, c.len() as int))
    }
}

/// Whether an instruction starts at offset `k` when `c` is read from its
/// first byte on.
pub open spec fn is_start(c: Seq<u8>, k: int) -> bool
    decreases c.len(),
{
    if c.len() == 0 {
        false
    } else if k == 0 {
        true
    } else {
        let n = instr_len(c);
        1 <= n <= c.len() && k >= n && is_start(c.subrange(n, c.len() as int), k - n)
    }
}

/// The address operand of the instruction at `k`.
pub open spec fn target_at(c: Seq<u8>, k: int) -> int {
    spec_u64_from_le_bytes(c.subrange(k + 1, k + 9)) as int
}

/// Every jump in `c`, placed at offset `base`, lands on an instruction of
/// `c` or just past its end.
pub open spec fn jumps_closed(c: Seq<u8>, base: int) -> bool {
    forall|k: int|
        #![trigger is_start(c, k), is_jump(c[k])]
        is_start(c, k) && is_jump(c[k]) ==> (target_at(c, k) == base + c.len() || is_start(
            c,
            target_at(c, k) - base,
        ))
}

/// Whole instructions whose jumps stay inside.
pub open spec fn well_laid(c: Seq<u8>, base: int) -> bool {
    decodes(c) && jumps_closed(c, base)
}

proof fn lemma_start_in_bounds(c: Seq<u8>, k: int)
    requires
        decodes(c),
        is_start(c, k),
    ensures
        0 <= k < c.len(),
        c[k] != PUSH_STR ==> k + 1 + operand_width(c[k]) <= c.len(),
    decreases c.len(),
{
    if k != 0 {
        let n = instr_len(c);
        let rest = c.subrange(n, c.len() as int);
        lemma_start_in_bounds(rest, k - n);
        assert(rest[k - n] == c[k]);
    }
}

/// Reading `a + b`: `b`'s instructions follow `a`'s.
proof fn lemma_concat(a: Seq<u8>, b: Seq<u8>)
    requires
        decodes(a),
    ensures
        decodes(a + b) == decodes(b),
        forall|k: int| #[trigger]
            is_start(a + b, k) == (is_start(a, k) || is_start(b, k - a.len())),
    decreases a.len(),
{
    if a.len() == 0 {
        assert(a + b =~= b);
        assert forall|k: int| #[trigger] is_start(a + b, k)
            == (is_start(a, k) || is_start(b, k - a.len())) by {}
    } else {
        let n = instr_len(a);
        let ra = a.subrange(n, a.len() as int);
        lemma_concat(ra, b);
        let ab = a + b;
        assert(ab[0] == a[0]);
        if a[0] == PUSH_STR {
            assert(ab[1] == a[1]);
        }
        assert(instr_len(ab) == n);
        assert(ab.subrange(n, ab.len() as int) =~= ra + b);
        assert forall|k: int| #[trigger] is_start(a + b, k)
            == (is_start(a, k) || is_start(b, k - a.len())) by {
            if k != 0 {
                assert(is_start(ra + b, k - n) == (is_start(ra, k - n) || is_start(b, k - n - ra.len())));
            }
        }
    }
}

/// Joining two well-laid pieces, the second placed right after the first.
pub proof fn lemma_join(a: Seq<u8>, b: Seq<u8>, base: int)
    requires
        well_laid(a, base),
        well_laid(b, base + a.len()),
    ensures
        well_laid(a + b, base),
{
    lemma_concat(a, b);
    let ab = a + b;
    assert forall|k: int| #![trigger is_start(ab, k), is_jump(ab[k])] is_start(ab, k)
        && is_jump(ab[k])
            implies (target_at(ab, k) == base + ab.len()
            || is_start(ab, target_at(ab, k) - base)) by {
        if is_start(a, k) {
            lemma_start_in_bounds(a, k);
            assert(ab[k] == a[k]);
            assert(ab.subrange(k + 1, k + 9) =~= a.subrange(k + 1, k + 9));
            let t = target_at(a, k);
            if t == base + a.len() {
                if b.len() > 0 {
                    assert(is_start(b, 0));
                    assert(is_start(ab, t - base));
                }
            } else {
                assert(is_start(ab, t - base));
            }
        } else {
            let j = k - a.len();
            assert(is_start(b, j));
            lemma_start_in_bounds(b, j);
            assert(ab[k] == b[j]);
            assert(ab.subrange(k + 1, k + 9) =~= b.subrange(j + 1, j + 9));
            let t = target_at(b, j);
            if t != base + a.len() + b.len() {
                assert(is_start(b, t - base - a.len()));
                assert(is_start(ab, t - base));
            }
        }
    }
}

/// An instruction without an address operand.
pub proof fn lemma_plain(op: u8, operand: Seq<u8>, base: int)
    requires
        op != PUSH_STR,
        !is_jump(op),
        operand.len() == operand_width(op),
    ensures
        well_laid(seq![op] + operand, base),
{
    let c = seq![op] + operand;
    assert(c[0] == op);
    assert(instr_len(c) == c.len());
    assert(c.subrange(c.len() as int, c.len() as int) =~= Seq::<u8>::empty());
    assert(decodes(c.subrange(c.len() as int, c.len() as int)));
    assert forall|k: int| #![trigger is_start(c, k), is_jump(c[k])] is_start(c, k) && is_jump(c[k])
        implies (target_at(c, k) == base + c.len() || is_start(c, target_at(c, k) - base)) by {
        if k != 0 {
            assert(!is_start(c.subrange(c.len() as int, c.len() as int), k - c.len()));
        }
    }
}

/// A single jump instruction: one start, and its operand is the target.
pub proof fn lemma_jump_instr(op: u8, v: u64)
    requires
        is_jump(op),
    ensures
        decodes(with_operand(op, v)),
        with_operand(op, v).len() == 9,
        forall|k: int| #[trigger] is_start(with_operand(op, v), k) <==> k == 0,
        with_operand(op, v)[0] == op,
        target_at(with_operand(op, v), 0) == v,
{
    vstd::bytes::lemma_auto_spec_u64_to_from_le_bytes();
    let c = with_operand(op, v);
    assert(c.len() == 9);
    assert(c[0] == op);
    assert(instr_len(c) == 9);
    assert(c.subrange(9, 9) =~= Seq::<u8>::empty());
    assert(decodes(c.subrange(9, 9)));
    assert(c.subrange(1, 9) =~= spec_u64_to_le_bytes(v));
    assert forall|k: int| #[trigger] is_start(c, k) <==> k == 0 by {
        if k != 0 {
            assert(!is_start(c.subrange(9, 9), k - 9));
        }
    }
}

/// A jump placed in front of a well-laid piece, landing on one of the
/// piece's instructions or just past it.
pub proof fn lemma_prefix_jump(op: u8, v: u64, rest: Seq<u8>, base: int)
    requires
        is_jump(op),
        well_laid(rest, base + 9),
        v == base + 9 + rest.len() || is_start(rest, v - base - 9),
    ensures
        well_laid(with_operand(op, v) + rest, base),
{
    lemma_jump_instr(op, v);
    let j = with_operand(op, v);
    lemma_concat(j, rest);
    let c = j + rest;
    assert forall|k: int| #![trigger is_start(c, k), is_jump(c[k])] is_start(c, k) && is_jump(c[k])
        implies (target_at(c, k) == base + c.len() || is_start(c, target_at(c, k) - base)) by {
        if k == 0 {
            assert(c.subrange(1, 9) =~= j.subrange(1, 9));
            assert(target_at(c, 0) == v);
            if v != base + 9 + rest.len() {
                assert(is_start(rest, v - base - 9));
                assert(is_start(c, v - base));
            }
        } else {
            let i = k - 9;
            assert(is_start(rest, i));
            lemma_start_in_bounds(rest, i);
            assert(c[k] == rest[i]);
            assert(c.subrange(k + 1, k + 9) =~= rest.subrange(i + 1, i + 9));
            let t = target_at(rest, i);
            if t != base + 9 + rest.len() {
                assert(is_start(rest, t - base - 9));
                assert(is_start(c, t - base));
            }
        }
    }
}

pub open spec fn fits(base: int, c: Seq<u8>) -> bool {
    0 <= base && base + c.len() <= u64::MAX
}

proof fn lemma_operand_instr(op: u8, v: u64, base: int)
    requires
        operand_width(op) == 8,
        !is_jump(op),
    ensures
        well_laid(with_operand(op, v), base),
        with_operand(op, v).len() == 9,
{
    vstd::bytes::lemma_auto_spec_u64_to_from_le_bytes();
    lemma_plain(op, spec_u64_to_le_bytes(v), base);
}

proof fn lemma_single(op: u8, base: int)
    requires
        operand_width(op) == 0,
        !is_jump(op),
        op != PUSH_STR,
    ensures
        well_laid(seq![op], base),
{
    lemma_plain(op, Seq::empty(), base);
    assert(seq![op] + Seq::<u8>::empty() =~= seq![op]);
}

/// The code of every expression is whole instructions whose jumps stay
/// inside it.
pub proof fn lemma_expr_laid(e: ExprModel, fs: Seq<Frame>, base: int)
    ensures
        gen_expr(e, fs, base) matches Ok(c) ==> (fits(base, c) ==> well_laid(c, base)),
    decreases e,
{
    vstd::bytes::lemma_auto_spec_u64_to_from_le_bytes();
    if let Ok(c) = gen_expr(e, fs, base) {
        if fits(base, c) {
            match e {
                ExprModel::Number(n) => {
                    lemma_operand_instr(PUSH_INT, n as u64, base);
                },
                ExprModel::Bool(b) => {
                    lemma_plain(PUSH_BOOL, seq![if b { 1u8 } else { 0u8 }], base);
                    assert(c =~= seq![PUSH_BOOL] + seq![if b { 1u8 } else { 0u8 }]);
                },
                ExprModel::Ident(_) => {
                    let v = crate::codegen::resolve(fs, e->Ident_0)->Some_0.id;
                    lemma_operand_instr(crate::bytecode::LOAD, v, base);
                },
                ExprModel::Unary(op, a) => {
                    lemma_expr_laid(*a, fs, base);
                    let ac = gen_expr(*a, fs, base)->Ok_0;
                    if op == UnaryOperator::Minus {
                        lemma_single(NEG, base + ac.len());
                        lemma_join(ac, seq![NEG], base);
                        assert(c =~= ac + seq![NEG]);
                    } else if op == UnaryOperator::Not {
                        lemma_single(NOT, base + ac.len());
                        lemma_join(ac, seq![NOT], base);
                        assert(c =~= ac + seq![NOT]);
                    }
                },
                ExprModel::Binary(op, l, r) => {
                    lemma_expr_laid(*l, fs, base);
                    let lc = gen_expr(*l, fs, base)->Ok_0;
                    lemma_expr_laid(*r, fs, base + lc.len());
                    let rc = gen_expr(*r, fs, base + lc.len())->Ok_0;
                    let b = binary_code(op)->Some_0;
                    lemma_join(lc, rc, base);
                    lemma_single(b, base + lc.len() + rc.len());
                    lemma_join(lc + rc, seq![b], base);
                },
                ExprModel::Logical(op, l, r) => {
                    lemma_expr_laid(*l, fs, base);
                    let lc = gen_expr(*l, fs, base)->Ok_0;
                    lemma_expr_laid(*r, fs, base + lc.len() + 10);
                    let rc = gen_expr(*r, fs, base + lc.len() + 10)->Ok_0;
                    let jump = if op == LogicalOperator::And {
                        JMP_IF_FALSE_PEEK
                    } else {
                        JMP_IF_TRUE_PEEK
                    };
                    let end = base + lc.len() + 10 + rc.len();
                    lemma_single(POP, base + lc.len() + 9);
                    lemma_join(seq![POP], rc, base + lc.len() + 9);
                    lemma_prefix_jump(jump, end as u64, seq![POP] + rc, base + lc.len());
                    lemma_join(lc, with_operand(jump, end as u64) + (seq![POP] + rc), base);
                    assert(c =~= lc + (with_operand(jump, end as u64) + (seq![POP] + rc)));
                },
                ExprModel::Assign(t, op, value) => {
                    let v = crate::codegen::resolve(fs, t->Ident_0)->Some_0;
                    if op == AssignOperator::Assign {
                        lemma_expr_laid(*value, fs, base);
                        let vc = gen_expr(*value, fs, base)->Ok_0;
                        lemma_operand_instr(STORE, v.id, base + vc.len());
                        lemma_join(vc, with_operand(STORE, v.id), base);
                    } else {
                        lemma_operand_instr(crate::bytecode::LOAD, v.id, base);
                        lemma_expr_laid(*value, fs, base + 9);
                        let vc = gen_expr(*value, fs, base + 9)->Ok_0;
                        lemma_join(with_operand(crate::bytecode::LOAD, v.id), vc, base);
                        let k = compound_code(op);
                        lemma_single(k, base + 9 + vc.len());
                        lemma_join(with_operand(crate::bytecode::LOAD, v.id) + vc, seq![k], base);
                        lemma_operand_instr(STORE, v.id, base + 10 + vc.len());
                        lemma_join(
                            with_operand(crate::bytecode::LOAD, v.id) + vc + seq![k],
                            with_operand(STORE, v.id),
                            base,
                        );
                    }
                },
            }
        }
    }
}

/// The code of every statement is whole instructions whose jumps stay
/// inside it.
pub proof fn lemma_stmt_laid(s: StmtModel, fs: Seq<Frame>, next: nat, base: int)
    ensures
        gen_stmt(s, fs, next, base) matches Ok((c, _, _)) ==> (fits(base, c) ==> well_laid(c, base)),
    decreases s,
{
    vstd::bytes::lemma_auto_spec_u64_to_from_le_bytes();
    if let Ok((c, _, _)) = gen_stmt(s, fs, next, base) {
        if fits(base, c) {
            match s {
                StmtModel::VarDecl(x, constant, e) => {
                    lemma_expr_laid(e, fs, base);
                    let ec = gen_expr(e, fs, base)->Ok_0;
                    lemma_operand_instr(STORE, next as u64, base + ec.len());
                    lemma_join(ec, with_operand(STORE, next as u64), base);
                },
                StmtModel::ExprStmt(e) => {
                    lemma_expr_laid(e, fs, base);
                },
                StmtModel::Block(body) => {
                    lemma_stmts_laid(body, fs.push(Seq::empty()), next, base);
                },
                StmtModel::Program(_) => {},
                StmtModel::If(test, body, alt) => {
                    lemma_expr_laid(test, fs, base);
                    let cc = gen_expr(test, fs, base)->Ok_0;
                    let body_at = base + cc.len() + 9;
                    lemma_stmt_laid(*body, fs, next, body_at);
                    let (bc, fs1, next1) = gen_stmt(*body, fs, next, body_at)->Ok_0;
                    match alt {
                        None => {
                            let end = body_at + bc.len();
                            lemma_prefix_jump(JMP_IF_FALSE, end as u64, bc, base + cc.len());
                            lemma_join(cc, with_operand(JMP_IF_FALSE, end as u64) + bc, base);
                            assert(c =~= cc + (with_operand(JMP_IF_FALSE, end as u64) + bc));
                        },
                        Some(a) => {
                            let alt_at = body_at + bc.len() + 9;
                            lemma_stmt_laid(*a, fs1, next1, alt_at);
                            let ac = gen_stmt(*a, fs1, next1, alt_at)->Ok_0.0;
                            let end = alt_at + ac.len();
                            let tail = with_operand(JMP, end as u64) + ac;
                            lemma_prefix_jump(JMP, end as u64, ac, body_at + bc.len());
                            lemma_join(bc, tail, body_at);
                            lemma_concat(bc, tail);
                            lemma_jump_instr(JMP, end as u64);
                            lemma_concat(with_operand(JMP, end as u64), ac);
                            if ac.len() > 0 {
                                assert(is_start(ac, 0));
                                assert(is_start(tail, 9));
                                assert(is_start(bc + tail, bc.len() as int + 9));
                            }
                            lemma_prefix_jump(JMP_IF_FALSE, alt_at as u64, bc + tail, base + cc.len());
                            lemma_join(cc, with_operand(JMP_IF_FALSE, alt_at as u64) + (bc + tail), base);
                            assert(c =~= cc + (with_operand(JMP_IF_FALSE, alt_at as u64) + (bc + tail)));
                        },
                    }
                },
            }
        }
    }
}

/// The code of a statement sequence is whole instructions whose jumps stay
/// inside it.
pub proof fn lemma_stmts_laid(ss: Seq<StmtModel>, fs: Seq<Frame>, next: nat, base: int)
    ensures
        gen_stmts(ss, fs, next, base) matches Ok((c, _, _)) ==> (fits(base, c) ==> well_laid(c, base)),
    decreases ss,
{
    if ss.len() > 0 {
        if let Ok((c, _, _)) = gen_stmts(ss, fs, next, base) {
            if fits(base, c) {
                lemma_stmt_laid(ss[0], fs, next, base);
                let (c0, fs1, next1) = gen_stmt(ss[0], fs, next, base)->Ok_0;
                let rest = ss.subrange(1, ss.len() as int);
                lemma_stmts_laid(rest, fs1, next1, base + c0.len());
                let rc = gen_stmts(rest, fs1, next1, base + c0.len())->Ok_0.0;
                lemma_join(c0, rc, base);
            }
        }
    } else {
        assert(decodes(Seq::<u8>::empty()));
    }
}

/// In compiled bytecode, read from just past the magic number, every jump
/// operand is the offset of an instruction.
pub proof fn lemma_compiled_jumps(prog: Seq<StmtModel>)
    ensures
        compile(prog) matches Ok(b) ==> (b.len() <= u64::MAX ==> {
            let code = b.subrange(4, b.len() as int);
            &&& decodes(code)
            &&& forall|k: int|
                #![trigger is_start(code, k), is_jump(code[k])]
                is_start(code, k) && is_jump(code[k]) ==> is_start(code, target_at(code, k) - 4)
        }),
{
    if let Ok(b) = compile(prog) {
        if b.len() <= u64::MAX {
            let c = gen_stmts(prog, seq![Seq::empty()], 0, 4)->Ok_0.0;
            lemma_stmts_laid(prog, seq![Seq::empty()], 0, 4);
            let code = b.subrange(4, b.len() as int);
            assert(code =~= c + seq![HALT]);
            lemma_single(HALT, 4 + c.len() as int);
            lemma_concat(c, seq![HALT]);
            assert forall|k: int|
                #![trigger is_start(code, k), is_jump(code[k])]
                is_start(code, k) && is_jump(code[k]) implies is_start(code, target_at(code, k) - 4) by {
                if is_start(c, k) {
                    lemma_start_in_bounds(c, k);
                    assert(code[k] == c[k]);
                    assert(code.subrange(k + 1, k + 9) =~= c.subrange(k + 1, k + 9));
                    let t = target_at(c, k);
                    if t == 4 + c.len() {
                        assert(is_start(seq![HALT], 0));
                    }
                } else {
                    assert(is_start(seq![HALT], k - c.len()));
                    lemma_start_in_bounds(seq![HALT], k - c.len());
                    assert(code[k] == HALT);
                }
            }
        }
    }
}

// ---------------------------------------------------------------------------
// Every load in compiled code follows a store to the same slot
// ---------------------------------------------------------------------------

/// The slot operand of the instruction at `k`.
pub open spec fn slot_at(c: Seq<u8>, k: int) -> u64 {
    spec_u64_from_le_bytes(c.subrange(k + 1, k + 9))
}

/// Some `Store` to slot `s` starts before offset `k`.
pub open spec fn stored_before(c: Seq<u8>, k: int, s: u64) -> bool {
    exists|j: int|
        #![trigger is_start(c, j), slot_at(c, j)]
        0 <= j < k && is_start(c, j) && c[j] == STORE && slot_at(c, j) == s
}

/// Every `Load` in `c` reads a slot in `vis` or one stored earlier in `c`.
pub open spec fn loads_covered(c: Seq<u8>, vis: Set<u64>) -> bool {
    forall|k: int|
        #![trigger is_start(c, k), slot_at(c, k)]
        is_start(c, k) && c[k] == LOAD ==> vis.contains(slot_at(c, k)) || stored_before(
            c,
            k,
            slot_at(c, k),
        )
}

/// No instruction of `c` is `Halt`.
pub open spec fn halt_free(c: Seq<u8>) -> bool {
    forall|k: int| #[trigger] is_start(c, k) ==> c[k] != HALT
}

/// The slots of all declarations in a scope stack.
pub open spec fn slots_of(fs: Seq<Frame>) -> Set<u64> {
    Set::new(
        |s: u64|
            exists|i: int, j: int|
                0 <= i < fs.len() && 0 <= j < fs[i].len() && (#[trigger] fs[i][j]).1.id == s,
    )
}

proof fn lemma_frame_find_in(f: Frame, x: Seq<char>)
    ensures
        frame_find(f, x) matches Some(v) ==> exists|j: int| 0 <= j < f.len() && #[trigger] f[j].1 == v,
    decreases f.len(),
{
    if f.len() > 0 && f.last().0 != x {
        lemma_frame_find_in(f.drop_last(), x);
        if let Some(v) = frame_find(f, x) {
            let j = choose|j: int| 0 <= j < f.drop_last().len() && #[trigger] f.drop_last()[j].1 == v;
            assert(f[j] == f.drop_last()[j]);
        }
    }
}

proof fn lemma_resolve_in(fs: Seq<Frame>, x: Seq<char>)
    ensures
        resolve(fs, x) matches Some(v) ==> slots_of(fs).contains(v.id),
    decreases fs.len(),
{
    if fs.len() > 0 {
        lemma_frame_find_in(fs.last(), x);
        match frame_find(fs.last(), x) {
            Some(v) => {
                let j = choose|j: int| 0 <= j < fs.last().len() && #[trigger] fs.last()[j].1 == v;
                assert(fs[fs.len() - 1][j].1.id == v.id);
            },
            None => {
                lemma_resolve_in(fs.drop_last(), x);
                if let Some(v) = resolve(fs, x) {
                    let (i, j) = choose|i: int, j: int|
                        0 <= i < fs.drop_last().len() && 0 <= j < fs.drop_last()[i].len() && (
                        #[trigger] fs.drop_last()[i][j]).1.id == v.id;
                    assert(fs[i][j] == fs.drop_last()[i][j]);
                }
            },
        }
    }
}

/// Joining pieces: loads of the second piece may also rely on stores of
/// the first.
proof fn lemma_join_loads(a: Seq<u8>, b: Seq<u8>, vis: Set<u64>, vis_b: Set<u64>)
    requires
        decodes(a),
        decodes(b),
        loads_covered(a, vis),
        loads_covered(b, vis_b),
        forall|s: u64| vis_b.contains(s) ==> vis.contains(s) || stored_before(a, a.len() as int, s),
    ensures
        loads_covered(a + b, vis),
        forall|s: u64| stored_before(a, a.len() as int, s) ==> stored_before(a + b, (a + b).len() as int, s),
        forall|s: u64| stored_before(b, b.len() as int, s) ==> stored_before(a + b, (a + b).len() as int, s),
        halt_free(a) && halt_free(b) ==> halt_free(a + b),
{
    lemma_concat(a, b);
    let ab = a + b;
    if halt_free(a) && halt_free(b) {
        assert forall|k: int| #[trigger] is_start(ab, k) implies ab[k] != HALT by {
            if is_start(a, k) {
                lemma_start_in_bounds(a, k);
                assert(ab[k] == a[k]);
            } else {
                lemma_start_in_bounds(b, k - a.len());
                assert(ab[k] == b[k - a.len()]);
            }
        }
    }
    assert forall|k: int| #![trigger is_start(ab, k), slot_at(ab, k)] is_start(ab, k)
        && ab[k] == LOAD implies vis.contains(slot_at(ab, k)) || stored_before(ab, k, slot_at(ab, k)) by {
        if is_start(a, k) {
            lemma_start_in_bounds(a, k);
            assert(ab[k] == a[k]);
            assert(ab.subrange(k + 1, k + 9) =~= a.subrange(k + 1, k + 9));
            if !vis.contains(slot_at(a, k)) {
                let j = choose|j: int| #![trigger is_start(a, j), slot_at(a, j)] 0 <= j < k
                    && is_start(a, j) && a[j] == STORE && slot_at(a, j) == slot_at(a, k);
                lemma_start_in_bounds(a, j);
                assert(ab.subrange(j + 1, j + 9) =~= a.subrange(j + 1, j + 9));
                assert(is_start(ab, j) && slot_at(ab, j) == slot_at(a, j));
            }
        } else {
            let i = k - a.len();
            assert(is_start(b, i));
            lemma_start_in_bounds(b, i);
            assert(ab[k] == b[i]);
            assert(ab.subrange(k + 1, k + 9) =~= b.subrange(i + 1, i + 9));
            let s = slot_at(b, i);
            if !vis.contains(s) {
                if vis_b.contains(s) {
                    let j = choose|j: int| #![trigger is_start(a, j), slot_at(a,
                        j)] 0 <= j < a.len() && is_start(a, j) && a[j] == STORE && slot_at(a,
                        j) == s;
                    lemma_start_in_bounds(a, j);
                    assert(ab.subrange(j + 1, j + 9) =~= a.subrange(j + 1, j + 9));
                    assert(is_start(ab, j) && slot_at(ab, j) == s);
                } else {
                    let j = choose|j: int| #![trigger is_start(b, j), slot_at(b, j)] 0 <= j < i
                        && is_start(b, j) && b[j] == STORE && slot_at(b, j) == s;
                    lemma_start_in_bounds(b, j);
                    assert(ab.subrange(j + a.len() + 1, j + a.len() + 9) =~= b.subrange(j + 1, j + 9));
                    assert(is_start(ab, j + a.len()) && slot_at(ab, j + a.len()) == s);
                }
            }
        }
    }
    assert forall|s: u64| stored_before(a, a.len() as int, s)
        implies stored_before(ab, ab.len() as int, s) by {
        let j = choose|j: int| #![trigger is_start(a, j), slot_at(a, j)] 0 <= j < a.len()
            && is_start(a, j) && a[j] == STORE && slot_at(a, j) == s;
        lemma_start_in_bounds(a, j);
        assert(ab.subrange(j + 1, j + 9) =~= a.subrange(j + 1, j + 9));
        assert(is_start(ab, j) && slot_at(ab, j) == s);
    }
    assert forall|s: u64| stored_before(b, b.len() as int, s)
        implies stored_before(ab, ab.len() as int, s) by {
        let j = choose|j: int| #![trigger is_start(b, j), slot_at(b, j)] 0 <= j < b.len()
            && is_start(b, j) && b[j] == STORE && slot_at(b, j) == s;
        lemma_start_in_bounds(b, j);
        assert(ab.subrange(j + a.len() + 1, j + a.len() + 9) =~= b.subrange(j + 1, j + 9));
        assert(is_start(ab, j + a.len()) && slot_at(ab, j + a.len()) == s);
    }
}

proof fn lemma_one_instr(c: Seq<u8>, vis: Set<u64>)
    requires
        c.len() >= 1,
        c[0] != PUSH_STR,
        instr_len(c) == c.len(),
        c[0] == LOAD ==> vis.contains(slot_at(c, 0)),
    ensures
        decodes(c),
        forall|k: int| #[trigger] is_start(c, k) <==> k == 0,
        loads_covered(c, vis),
        forall|s: u64| stored_before(c, c.len() as int, s) ==> c[0] == STORE && slot_at(c, 0) == s,
        c[0] != HALT ==> halt_free(c),
{
    assert(c.subrange(c.len() as int, c.len() as int) =~= Seq::<u8>::empty());
    assert(decodes(c.subrange(c.len() as int, c.len() as int)));
    assert forall|k: int| #[trigger] is_start(c, k) <==> k == 0 by {
        if k != 0 {
            assert(!is_start(c.subrange(c.len() as int, c.len() as int), k - c.len()));
        }
    }
}

proof fn lemma_operand_loads(op: u8, v: u64, vis: Set<u64>)
    requires
        operand_width(op) == 8,
        op == LOAD ==> vis.contains(v),
    ensures
        decodes(with_operand(op, v)),
        with_operand(op, v).len() == 9,
        loads_covered(with_operand(op, v), vis),
        op == STORE ==> stored_before(with_operand(op, v), 9, v),
        forall|s: u64| stored_before(with_operand(op, v), 9, s) ==> op == STORE && v == s,
        halt_free(with_operand(op, v)),
{
    vstd::bytes::lemma_auto_spec_u64_to_from_le_bytes();
    let c = with_operand(op, v);
    assert(c[0] == op);
    assert(c.subrange(1, 9) =~= spec_u64_to_le_bytes(v));
    lemma_one_instr(c, vis);
    if op == STORE {
        assert(is_start(c, 0) && slot_at(c, 0) == v);
    }
}

proof fn lemma_byte_loads(op: u8, vis: Set<u64>)
    requires
        operand_width(op) == 0,
        op != PUSH_STR,
    ensures
        decodes(seq![op]),
        loads_covered(seq![op], vis),
        forall|s: u64| !stored_before(seq![op], 1, s),
        op != HALT ==> halt_free(seq![op]),
{
    lemma_one_instr(seq![op], vis);
}

proof fn lemma_slots_declare(fs: Seq<Frame>, x: Seq<char>, v: Variable)
    ensures
        forall|s: u64| slots_of(declare(fs, x, v)).contains(s) ==> slots_of(fs).contains(s) || s == v.id,
{
    let d = declare(fs, x, v);
    assert forall|s: u64| slots_of(d).contains(s) implies slots_of(fs).contains(s) || s == v.id by {
        let (i, j) = choose|i: int, j: int| 0 <= i < d.len() && 0 <= j < d[i].len()
            && (#[trigger] d[i][j]).1.id == s;
        if fs.len() > 0 && !(i == fs.len() - 1 && j == fs.last().len()) {
            assert(d[i][j] == fs[i][j]);
        }
    }
}

proof fn lemma_slots_push_pop(fs: Seq<Frame>, fs1: Seq<Frame>)
    requires
        fs1.len() >= 1,
    ensures
        slots_of(fs.push(Seq::empty())) == slots_of(fs),
        forall|s: u64| slots_of(fs1.drop_last()).contains(s) ==> slots_of(fs1).contains(s),
{
    let p = fs.push(Seq::empty());
    assert forall|s: u64| slots_of(p).contains(s) == slots_of(fs).contains(s) by {
        if slots_of(p).contains(s) {
            let (i, j) = choose|i: int, j: int| 0 <= i < p.len() && 0 <= j < p[i].len()
                && (#[trigger] p[i][j]).1.id == s;
            assert(p[i][j] == fs[i][j]);
        }
        if slots_of(fs).contains(s) {
            let (i, j) = choose|i: int, j: int| 0 <= i < fs.len() && 0 <= j < fs[i].len()
                && (#[trigger] fs[i][j]).1.id == s;
            assert(p[i][j] == fs[i][j]);
        }
    }
    assert(slots_of(p) =~= slots_of(fs));
    let d = fs1.drop_last();
    assert forall|s: u64| slots_of(d).contains(s) implies slots_of(fs1).contains(s) by {
        let (i, j) = choose|i: int, j: int| 0 <= i < d.len() && 0 <= j < d[i].len()
            && (#[trigger] d[i][j]).1.id == s;
        assert(fs1[i][j] == d[i][j]);
    }
}

/// Loads in the code of an expression read declared slots.
pub proof fn lemma_expr_loads(e: ExprModel, fs: Seq<Frame>, base: int)
    ensures
        gen_expr(e, fs, base) matches Ok(c)
            ==> (fits(base, c) ==> decodes(c) && loads_covered(c, slots_of(fs)) && halt_free(c)),
    decreases e,
{
    vstd::bytes::lemma_auto_spec_u64_to_from_le_bytes();
    lemma_expr_laid(e, fs, base);
    let vis = slots_of(fs);
    if let Ok(c) = gen_expr(e, fs, base) {
        if fits(base, c) {
            match e {
                ExprModel::Number(n) => {
                    lemma_operand_loads(PUSH_INT, n as u64, vis);
                },
                ExprModel::Bool(b) => {
                    assert(c[0] == PUSH_BOOL);
                    lemma_one_instr(c, vis);
                },
                ExprModel::Ident(x) => {
                    lemma_resolve_in(fs, x);
                    lemma_operand_loads(LOAD, resolve(fs, x)->Some_0.id, vis);
                },
                ExprModel::Unary(op, a) => {
                    lemma_expr_loads(*a, fs, base);
                    let ac = gen_expr(*a, fs, base)->Ok_0;
                    if op == UnaryOperator::Minus {
                        lemma_byte_loads(NEG, vis);
                        lemma_join_loads(ac, seq![NEG], vis, vis);
                        assert(c =~= ac + seq![NEG]);
                    } else if op == UnaryOperator::Not {
                        lemma_byte_loads(NOT, vis);
                        lemma_join_loads(ac, seq![NOT], vis, vis);
                        assert(c =~= ac + seq![NOT]);
                    }
                },
                ExprModel::Binary(op, l, r) => {
                    lemma_expr_loads(*l, fs, base);
                    let lc = gen_expr(*l, fs, base)->Ok_0;
                    lemma_expr_loads(*r, fs, base + lc.len());
                    let rc = gen_expr(*r, fs, base + lc.len())->Ok_0;
                    let b = binary_code(op)->Some_0;
                    lemma_join_loads(lc, rc, vis, vis);
                    lemma_concat(lc, rc);
                    lemma_byte_loads(b, vis);
                    lemma_join_loads(lc + rc, seq![b], vis, vis);
                },
                ExprModel::Logical(op, l, r) => {
                    lemma_expr_loads(*l, fs, base);
                    let lc = gen_expr(*l, fs, base)->Ok_0;
                    lemma_expr_loads(*r, fs, base + lc.len() + 10);
                    let rc = gen_expr(*r, fs, base + lc.len() + 10)->Ok_0;
                    let jump = if op == LogicalOperator::And {
                        JMP_IF_FALSE_PEEK
                    } else {
                        JMP_IF_TRUE_PEEK
                    };
                    let end = base + lc.len() + 10 + rc.len();
                    lemma_byte_loads(POP, vis);
                    lemma_join_loads(seq![POP], rc, vis, vis);
                    lemma_concat(seq![POP], rc);
                    lemma_operand_loads(jump, end as u64, vis);
                    lemma_join_loads(with_operand(jump, end as u64), seq![POP] + rc, vis, vis);
                    lemma_concat(with_operand(jump, end as u64), seq![POP] + rc);
                    lemma_join_loads(lc, with_operand(jump, end as u64) + (seq![POP] + rc), vis, vis);
                    assert(c =~= lc + (with_operand(jump, end as u64) + (seq![POP] + rc)));
                },
                ExprModel::Assign(t, op, value) => {
                    lemma_resolve_in(fs, t->Ident_0);
                    let v = resolve(fs, t->Ident_0)->Some_0;
                    if op == AssignOperator::Assign {
                        lemma_expr_loads(*value, fs, base);
                        let vc = gen_expr(*value, fs, base)->Ok_0;
                        lemma_operand_loads(STORE, v.id, vis);
                        lemma_join_loads(vc, with_operand(STORE, v.id), vis, vis);
                    } else {
                        let ld = with_operand(crate::bytecode::LOAD, v.id);
                        lemma_operand_loads(crate::bytecode::LOAD, v.id, vis);
                        lemma_expr_loads(*value, fs, base + 9);
                        let vc = gen_expr(*value, fs, base + 9)->Ok_0;
                        lemma_join_loads(ld, vc, vis, vis);
                        lemma_concat(ld, vc);
                        let k = compound_code(op);
                        lemma_byte_loads(k, vis);
                        lemma_join_loads(ld + vc, seq![k], vis, vis);
                        lemma_concat(ld + vc, seq![k]);
                        lemma_operand_loads(STORE, v.id, vis);
                        lemma_join_loads(ld + vc + seq![k], with_operand(STORE, v.id), vis, vis);
                    }
                },
            }
        }
    }
}

/// Loads in the code of a statement read slots declared before it or stored
/// earlier in it, and each slot it declares is stored in it.
pub proof fn lemma_stmt_loads(s: StmtModel, fs: Seq<Frame>, next: nat, base: int)
    ensures
        gen_stmt(s, fs, next, base) matches Ok((c, fs1, _)) ==> (fits(base, c) ==> {
            &&& decodes(c)
            &&& loads_covered(c, slots_of(fs))
            &&& halt_free(c)
            &&& forall|x: u64| slots_of(fs1).contains(x) ==> slots_of(fs).contains(x)
                || stored_before(c, c.len() as int, x)
        }),
    decreases s,
{
    vstd::bytes::lemma_auto_spec_u64_to_from_le_bytes();
    lemma_stmt_laid(s, fs, next, base);
    let vis = slots_of(fs);
    if let Ok((c, fs_out, _)) = gen_stmt(s, fs, next, base) {
        if fits(base, c) {
            match s {
                StmtModel::VarDecl(x, constant, e) => {
                    lemma_expr_loads(e, fs, base);
                    let ec = gen_expr(e, fs, base)->Ok_0;
                    lemma_operand_loads(STORE, next as u64, vis);
                    lemma_join_loads(ec, with_operand(STORE, next as u64), vis, vis);
                    lemma_slots_declare(fs, x, Variable { constant, id: next as u64 });
                },
                StmtModel::ExprStmt(e) => {
                    lemma_expr_loads(e, fs, base);
                },
                StmtModel::Block(body) => {
                    lemma_stmts_loads(body, fs.push(Seq::empty()), next, base);
                    let fs1 = gen_stmts(body, fs.push(Seq::empty()), next, base)->Ok_0.1;
                    lemma_stmts_frames(body, fs.push(Seq::empty()), next, base);
                    lemma_slots_push_pop(fs, fs1);
                },
                StmtModel::Program(_) => {},
                StmtModel::If(test, body, alt) => {
                    lemma_expr_loads(test, fs, base);
                    let cc = gen_expr(test, fs, base)->Ok_0;
                    let body_at = base + cc.len() + 9;
                    lemma_stmt_loads(*body, fs, next, body_at);
                    let (bc, fs1, next1) = gen_stmt(*body, fs, next, body_at)->Ok_0;
                    match alt {
                        None => {
                            let end = body_at + bc.len();
                            let j = with_operand(JMP_IF_FALSE, end as u64);
                            lemma_operand_loads(JMP_IF_FALSE, end as u64, vis);
                            lemma_join_loads(j, bc, vis, vis);
                            lemma_concat(j, bc);
                            lemma_expr_laid(test, fs, base);
                            lemma_join_loads(cc, j + bc, vis, vis);
                            assert(c =~= cc + (j + bc));
                        },
                        Some(a) => {
                            let alt_at = body_at + bc.len() + 9;
                            lemma_stmt_loads(*a, fs1, next1, alt_at);
                            let (ac, fs2, _) = gen_stmt(*a, fs1, next1, alt_at)->Ok_0;
                            let end = alt_at + ac.len();
                            let jmp = with_operand(JMP, end as u64);
                            let vis1 = slots_of(fs1);
                            lemma_operand_loads(JMP, end as u64, vis1);
                            lemma_join_loads(jmp, ac, vis1, vis1);
                            lemma_concat(jmp, ac);
                            let tail = jmp + ac;
                            lemma_join_loads(bc, tail, vis, vis1);
                            lemma_concat(bc, tail);
                            let jif = with_operand(JMP_IF_FALSE, alt_at as u64);
                            lemma_operand_loads(JMP_IF_FALSE, alt_at as u64, vis);
                            lemma_join_loads(jif, bc + tail, vis, vis);
                            lemma_concat(jif, bc + tail);
                            lemma_join_loads(cc, jif + (bc + tail), vis, vis);
                            assert(c =~= cc + (jif + (bc + tail)));
                        },
                    }
                },
            }
        }
    }
}

/// Generating statements leaves at least the scope frames it found.
proof fn lemma_stmt_frames(s: StmtModel, fs: Seq<Frame>, next: nat, base: int)
    requires
        fs.len() >= 1,
    ensures
        gen_stmt(s, fs, next, base) matches Ok((_, fs1, _)) ==> fs1.len() == fs.len(),
    decreases s,
{
    if let Ok(_) = gen_stmt(s, fs, next, base) {
        match s {
            StmtModel::Block(body) => {
                lemma_stmts_frames(body, fs.push(Seq::empty()), next, base);
            },
            StmtModel::If(test, body, alt) => {
                let cc = gen_expr(test, fs, base)->Ok_0;
                let body_at = base + cc.len() + 9;
                lemma_stmt_frames(*body, fs, next, body_at);
                let (bc, fs1, next1) = gen_stmt(*body, fs, next, body_at)->Ok_0;
                if let Some(a) = alt {
                    lemma_stmt_frames(*a, fs1, next1, body_at + bc.len() + 9);
                }
            },
            _ => {},
        }
    }
}

proof fn lemma_stmts_frames(ss: Seq<StmtModel>, fs: Seq<Frame>, next: nat, base: int)
    requires
        fs.len() >= 1,
    ensures
        gen_stmts(ss, fs, next, base) matches Ok((_, fs1, _)) ==> fs1.len() == fs.len(),
    decreases ss,
{
    if ss.len() > 0 {
        if let Ok(_) = gen_stmts(ss, fs, next, base) {
            lemma_stmt_frames(ss[0], fs, next, base);
            let (c0, fs1, next1) = gen_stmt(ss[0], fs, next, base)->Ok_0;
            lemma_stmts_frames(ss.subrange(1, ss.len() as int), fs1, next1, base + c0.len());
        }
    }
}

pub proof fn lemma_stmts_loads(ss: Seq<StmtModel>, fs: Seq<Frame>, next: nat, base: int)
    ensures
        gen_stmts(ss, fs, next, base) matches Ok((c, fs1, _)) ==> (fits(base, c) ==> {
            &&& decodes(c)
            &&& loads_covered(c, slots_of(fs))
            &&& halt_free(c)
            &&& forall|x: u64| slots_of(fs1).contains(x) ==> slots_of(fs).contains(x)
                || stored_before(c, c.len() as int, x)
        }),
    decreases ss,
{
    lemma_stmts_laid(ss, fs, next, base);
    if ss.len() > 0 {
        if let Ok((c, fs2, _)) = gen_stmts(ss, fs, next, base) {
            if fits(base, c) {
                lemma_stmt_loads(ss[0], fs, next, base);
                let (c0, fs1, next1) = gen_stmt(ss[0], fs, next, base)->Ok_0;
                let rest = ss.subrange(1, ss.len() as int);
                lemma_stmts_loads(rest, fs1, next1, base + c0.len());
                let rc = gen_stmts(rest, fs1, next1, base + c0.len())->Ok_0.0;
                lemma_join_loads(c0, rc, slots_of(fs), slots_of(fs1));
            }
        }
    } else {
        assert forall|k: int| #![trigger is_start(Seq::<u8>::empty(), k),
            slot_at(Seq::<u8>::empty(), k)] !is_start(Seq::<u8>::empty(), k) by {}
        assert forall|k: int| #[trigger] is_start(Seq::<u8>::empty(), k) implies false by {}
    }
}

/// In compiled bytecode, read from just past the magic number, every `Load`
/// of a slot comes after a `Store` to that slot.
pub proof fn lemma_compiled_loads(prog: Seq<StmtModel>)
    ensures
        compile(prog) matches Ok(b) ==> (b.len() <= u64::MAX ==> {
            let code = b.subrange(4, b.len() as int);
            forall|k: int|
                #![trigger is_start(code, k), slot_at(code, k)]
                is_start(code, k) && code[k] == LOAD ==> stored_before(code, k, slot_at(code, k))
        }),
{
    if let Ok(b) = compile(prog) {
        if b.len() <= u64::MAX {
            let fs0: Seq<Frame> = seq![Seq::empty()];
            let c = gen_stmts(prog, fs0, 0, 4)->Ok_0.0;
            lemma_stmts_loads(prog, fs0, 0, 4);
            assert(slots_of(fs0) =~= Set::empty()) by {
                assert forall|s: u64| !slots_of(fs0).contains(s) by {
                    if slots_of(fs0).contains(s) {
                        let (i, j) = choose|i: int, j: int| 0 <= i < fs0.len()
                            && 0 <= j < fs0[i].len() && (#[trigger] fs0[i][j]).1.id == s;
                        assert(fs0[i].len() == 0);
                    }
                }
            }
            let code = b.subrange(4, b.len() as int);
            assert(code =~= c + seq![HALT]);
            lemma_byte_loads(HALT, Set::empty());
            lemma_join_loads(c, seq![HALT], Set::empty(), Set::empty());
        }
    }
}

/// In compiled bytecode, read from just past the magic number, `Halt`
/// occurs exactly once, as the last instruction.
pub proof fn lemma_compiled_halt_last(prog: Seq<StmtModel>)
    ensures
        compile(prog) matches Ok(b) ==> (b.len() <= u64::MAX ==> {
            let code = b.subrange(4, b.len() as int);
            &&& decodes(code)
            &&& is_start(code, code.len() - 1)
            &&& code[code.len() - 1] == HALT
            &&& forall|k: int| #[trigger] is_start(code, k) && code[k] == HALT ==> k == code.len() - 1
        }),
{
    if let Ok(b) = compile(prog) {
        if b.len() <= u64::MAX {
            let fs0: Seq<Frame> = seq![Seq::empty()];
            let c = gen_stmts(prog, fs0, 0, 4)->Ok_0.0;
            lemma_stmts_loads(prog, fs0, 0, 4);
            let code = b.subrange(4, b.len() as int);
            assert(code =~= c + seq![HALT]);
            lemma_byte_loads(HALT, Set::empty());
            lemma_concat(c, seq![HALT]);
            assert(is_start(seq![HALT], 0));
            assert forall|k: int| #[trigger] is_start(code, k) && code[k] == HALT implies k == code.len() - 1 by {
                if is_start(c, k) {
                    lemma_start_in_bounds(c, k);
                    assert(code[k] == c[k]);
                } else {
                    lemma_start_in_bounds(seq![HALT], k - c.len());
                }
            }
        }
    }
}

} // verus!
