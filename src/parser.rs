use vstd::prelude::*;
use crate::ast::{
    AssignOperator, AssignmentExpr, BinaryExpr, BinaryOperator, BlockStatement, BooleanLiteral, Expr,
    ExprModel, Identifier, IfStatement, LogicalExpr, LogicalOperator, NumericLiteral, Program, Stmt,
    StmtModel, UnaryExpr, UnaryOperator, VariableDeclaration, stmts_model,
};
use crate::tokens::{SpecToken, Token, TokenType, view_tokens};

verus! {

/// What went wrong at a parse error.
#[derive(Debug, Clone, Copy, PartialEq, Eq, Structural)]
pub enum ParseErrorKind {
    /// A token of this kind was required here.
    Expected(TokenType),
    /// No expression can start with the token found.
    UnexpectedToken,
    /// The left-hand side of an assignment is not an identifier.
    InvalidAssignmentTarget,
    /// A number literal that is not a decimal numeral within `i64`.
    InvalidNumber,
}

/// A parse error: its kind, the index of the token where it occurred, and
/// the kind of that token.
#[derive(Debug, Clone, Copy, PartialEq, Eq, Structural)]
pub struct ParseError {
    pub kind: ParseErrorKind,
    pub position: usize,
    pub found: TokenType,
}

// ---------------------------------------------------------------------------
// Specification: the grammar as recursive descent over token views
// ---------------------------------------------------------------------------

/// The kind of the token at `p`; past the end the input counts as ended.
pub open spec fn kind_at(t: Seq<SpecToken>, p: int) -> TokenType {
    if 0 <= p < t.len() {
        t[p].kind
    } else {
        TokenType::EndOfInput
    }
}

pub open spec fn perr(kind: ParseErrorKind, t: Seq<SpecToken>, p: int) -> ParseError {
    ParseError { kind, position: p as usize, found: kind_at(t, p) }
}

pub open spec fn assign_op(k: TokenType) -> Option<AssignOperator> {
    match k {
        TokenType::Equals => Some(AssignOperator::Assign),
        TokenType::PlusEquals => Some(AssignOperator::AddAssign),
        TokenType::MinusEquals => Some(AssignOperator::SubAssign),
        TokenType::StarEquals => Some(AssignOperator::MulAssign),
        TokenType::SlashEquals => Some(AssignOperator::DivAssign),
        TokenType::PercentEquals => Some(AssignOperator::ModAssign),
        _ => None,
    }
}

/// Whether `k` is an operator of binary precedence level `lvl` (2: `||`,
/// 3: `&&`, 4: equality, 5: relational, 6: additive, 7: multiplicative).
pub open spec fn level_has(lvl: int, k: TokenType) -> bool {
    if lvl == 2 {
        k == TokenType::Or
    } else if lvl == 3 {
        k == TokenType::And
    } else if lvl == 4 {
        k == TokenType::EqualsEquals || k == TokenType::NotEqual
    } else if lvl == 5 {
        k == TokenType::LessThan || k == TokenType::GreaterThan || k == TokenType::LessThanEqual
            || k == TokenType::GreaterThanEqual
    } else if lvl == 6 {
        k == TokenType::Plus || k == TokenType::Minus
    } else {
        k == TokenType::Star || k == TokenType::Slash || k == TokenType::Percent
    }
}

pub open spec fn binary_op(k: TokenType) -> BinaryOperator {
    match k {
        TokenType::Minus => BinaryOperator::Sub,
        TokenType::Star => BinaryOperator::Mul,
        TokenType::Slash => BinaryOperator::Div,
        TokenType::Percent => BinaryOperator::Mod,
        TokenType::EqualsEquals => BinaryOperator::Eq,
        TokenType::NotEqual => BinaryOperator::Neq,
        TokenType::LessThan => BinaryOperator::Lt,
        TokenType::GreaterThan => BinaryOperator::Gt,
        TokenType::LessThanEqual => BinaryOperator::Le,
        TokenType::GreaterThanEqual => BinaryOperator::Ge,
        _ => BinaryOperator::Add,
    }
}

/// The node for `left k right` at level `lvl`.
pub open spec fn combine(lvl: int, k: TokenType, left: ExprModel, right: ExprModel) -> ExprModel {
    if lvl == 2 {
        ExprModel::Logical(LogicalOperator::Or, Box::new(left), Box::new(right))
    } else if lvl == 3 {
        ExprModel::Logical(LogicalOperator::And, Box::new(left), Box::new(right))
    } else {
        ExprModel::Binary(binary_op(k), Box::new(left), Box::new(right))
    }
}

pub open spec fn unary_op(k: TokenType) -> Option<UnaryOperator> {
    match k {
        TokenType::Plus => Some(UnaryOperator::Plus),
        TokenType::Minus => Some(UnaryOperator::Minus),
        TokenType::Not => Some(UnaryOperator::Not),
        _ => None,
    }
}

/// The value of a decimal numeral.
pub open spec fn decimal_value(s: Seq<char>) -> int
    decreases s.len(),
{
    if s.len() == 0 {
        0
    } else {
        decimal_value(s.drop_last()) * 10 + (s.last() as int - '0' as int)
    }
}

pub open spec fn all_digits(s: Seq<char>) -> bool {
    forall|i: int| 0 <= i < s.len() ==> '0' <= #[trigger] s[i] <= '9'
}

/// The `i64` a number literal denotes, if it denotes one.
pub open spec fn number_value(s: Seq<char>) -> Option<i64> {
    if s.len() > 0 && all_digits(s) && decimal_value(s) <= i64::MAX {
        Some(decimal_value(s) as i64)
    } else {
        None
    }
}

/// Result of parsing a phrase: the tree and the index of the next token.
pub type ExprParse = Result<(ExprModel, int), ParseError>;

pub type StmtParse = Result<(StmtModel, int), ParseError>;

/// `Assign := Logical (op Assign)?`, right associative. In this and the
/// rules below, the checks that a sub-phrase ends after it starts make
/// termination evident; `lemma_phrases_advance` shows they never fail.
pub open spec fn parse_assign(t: Seq<SpecToken>, p: int) -> ExprParse
    decreases t.len() - p, 30int,
{
    match parse_level(t, 2, p) {
        Err(e) => Err(e),
        Ok((left, q)) => {
            if q < p || q > t.len() {
                Err(perr(ParseErrorKind::UnexpectedToken, t, p))
            } else {
                match assign_op(kind_at(t, q)) {
                    None => Ok((left, q)),
                    Some(op) => {
                        if !(left is Ident) {
                            Err(perr(ParseErrorKind::InvalidAssignmentTarget, t, q))
                        } else {
                            match parse_assign(t, q + 1) {
                                Err(e) => Err(e),
                                Ok((value, r)) => Ok(
                                    (ExprModel::Assign(Box::new(left), op, Box::new(value)), r),
                                ),
                            }
                        }
                    },
                }
            }
        },
    }
}

/// The operand of level `lvl`: the next tighter level.
pub open spec fn parse_operand(t: Seq<SpecToken>, lvl: int, p: int) -> ExprParse
    decreases t.len() - p, 20 - 2 * lvl,
{
    if lvl == 7 {
        parse_unary(t, p)
    } else if 2 <= lvl < 7 {
        parse_level(t, lvl + 1, p)
    } else {
        Err(perr(ParseErrorKind::UnexpectedToken, t, p))
    }
}

/// A left-associative chain of operands of level `lvl` (2 to 7).
pub open spec fn parse_level(t: Seq<SpecToken>, lvl: int, p: int) -> ExprParse
    decreases t.len() - p, 21 - 2 * lvl,
{
    if lvl < 2 || lvl > 7 {
        Err(perr(ParseErrorKind::UnexpectedToken, t, p))
    } else {
        match parse_operand(t, lvl, p) {
            Err(e) => Err(e),
            Ok((left, q)) => {
                if q < p || q > t.len() {
                    Err(perr(ParseErrorKind::UnexpectedToken, t, p))
                } else {
                    parse_level_rest(t, lvl, left, q)
                }
            },
        }
    }
}

/// The rest of a chain at level `lvl` after the operands read so far, which
/// make up `left`.
pub open spec fn parse_level_rest(t: Seq<SpecToken>, lvl: int, left: ExprModel, p: int) -> ExprParse
    decreases t.len() - p, 20 - 2 * lvl,
{
    if 2 <= lvl <= 7 && level_has(lvl, kind_at(t, p)) {
        match parse_operand(t, lvl, p + 1) {
            Err(e) => Err(e),
            Ok((right, q)) => {
                if q <= p || q > t.len() {
                    Err(perr(ParseErrorKind::UnexpectedToken, t, p))
                } else {
                    parse_level_rest(t, lvl, combine(lvl, kind_at(t, p), left, right), q)
                }
            },
        }
    } else {
        Ok((left, p))
    }
}

/// `Unary := (+ | - | !) Unary | Primary`.
pub open spec fn parse_unary(t: Seq<SpecToken>, p: int) -> ExprParse
    decreases t.len() - p, 4int,
{
    match unary_op(kind_at(t, p)) {
        Some(op) => {
            if p < t.len() {
                match parse_unary(t, p + 1) {
                    Err(e) => Err(e),
                    Ok((e, q)) => Ok((ExprModel::Unary(op, Box::new(e)), q)),
                }
            } else {
                Err(perr(ParseErrorKind::UnexpectedToken, t, p))
            }
        },
        None => parse_primary(t, p),
    }
}

/// `Primary := Number | true | false | Identifier | ( Assign )`.
pub open spec fn parse_primary(t: Seq<SpecToken>, p: int) -> ExprParse
    decreases t.len() - p, 3int,
{
    let k = kind_at(t, p);
    if k == TokenType::Identifier {
        Ok((ExprModel::Ident(t[p].text), p + 1))
    } else if k == TokenType::Number {
        match number_value(t[p].text) {
            Some(v) => Ok((ExprModel::Number(v), p + 1)),
            None => Err(perr(ParseErrorKind::InvalidNumber, t, p)),
        }
    } else if k == TokenType::True {
        Ok((ExprModel::Bool(true), p + 1))
    } else if k == TokenType::False {
        Ok((ExprModel::Bool(false), p + 1))
    } else if k == TokenType::OpenParen {
        match parse_assign(t, p + 1) {
            Err(e) => Err(e),
            Ok((e, q)) => {
                if kind_at(t, q) == TokenType::CloseParen {
                    Ok((e, q + 1))
                } else {
                    Err(perr(ParseErrorKind::Expected(TokenType::CloseParen), t, q))
                }
            },
        }
    } else {
        Err(perr(ParseErrorKind::UnexpectedToken, t, p))
    }
}

/// `Stmt := VarDecl | IfStmt | Block | Assign`.
pub open spec fn parse_stmt(t: Seq<SpecToken>, p: int) -> StmtParse
    decreases t.len() - p, 40int,
{
    let k = kind_at(t, p);
    if k == TokenType::Let || k == TokenType::Const {
        parse_var(t, p)
    } else if k == TokenType::If {
        parse_if(t, p)
    } else if k == TokenType::OpenBrace {
        parse_block_rest(t, p + 1, Seq::empty())
    } else {
        match parse_assign(t, p) {
            Err(e) => Err(e),
            Ok((e, q)) => Ok((StmtModel::ExprStmt(e), q)),
        }
    }
}

/// `(let | const) Identifier = Assign`, starting at the keyword.
pub open spec fn parse_var(t: Seq<SpecToken>, p: int) -> StmtParse
    decreases t.len() - p, 39int,
{
    if kind_at(t, p + 1) != TokenType::Identifier {
        Err(perr(ParseErrorKind::Expected(TokenType::Identifier), t, p + 1))
    } else if kind_at(t, p + 2) != TokenType::Equals {
        Err(perr(ParseErrorKind::Expected(TokenType::Equals), t, p + 2))
    } else if p < 0 {
        Err(perr(ParseErrorKind::UnexpectedToken, t, p))
    } else {
        match parse_assign(t, p + 3) {
            Err(e) => Err(e),
            Ok((e, q)) => Ok(
                (StmtModel::VarDecl(t[p + 1].text, kind_at(t, p) == TokenType::Const, e), q),
            ),
        }
    }
}

/// `if Assign Stmt (else Stmt)?`, starting at `if`.
pub open spec fn parse_if(t: Seq<SpecToken>, p: int) -> StmtParse
    decreases t.len() - p, 39int,
{
    if p < 0 || p >= t.len() {
        Err(perr(ParseErrorKind::UnexpectedToken, t, p))
    } else {
        match parse_assign(t, p + 1) {
            Err(e) => Err(e),
            Ok((test, q)) => {
                if q <= p || q > t.len() {
                    Err(perr(ParseErrorKind::UnexpectedToken, t, p))
                } else {
                    match parse_stmt(t, q) {
                        Err(e) => Err(e),
                        Ok((body, r)) => {
                            if r < q || r > t.len() {
                                Err(perr(ParseErrorKind::UnexpectedToken, t, p))
                            } else if kind_at(t, r) == TokenType::Else {
                                match parse_stmt(t, r + 1) {
                                    Err(e) => Err(e),
                                    Ok((alt, s)) => Ok(
                                        (
                                            StmtModel::If(
                                                test,
                                                Box::new(body),
                                                Some(Box::new(alt)),
                                            ),
                                            s,
                                        ),
                                    ),
                                }
                            } else {
                                Ok((StmtModel::If(test, Box::new(body), None), r))
                            }
                        },
                    }
                }
            },
        }
    }
}

/// The statements of a block after `{` up to its `}`; `acc` holds those
/// read so far.
pub open spec fn parse_block_rest(t: Seq<SpecToken>, p: int, acc: Seq<StmtModel>) -> StmtParse
    decreases t.len() - p, 41int,
{
    let k = kind_at(t, p);
    if k == TokenType::CloseBrace {
        Ok((StmtModel::Block(acc), p + 1))
    } else if k == TokenType::EndOfInput {
        Err(perr(ParseErrorKind::Expected(TokenType::CloseBrace), t, p))
    } else {
        match parse_stmt(t, p) {
            Err(e) => Err(e),
            Ok((s, q)) => {
                if q <= p || q > t.len() {
                    Err(perr(ParseErrorKind::UnexpectedToken, t, p))
                } else {
                    parse_block_rest(t, q, acc.push(s))
                }
            },
        }
    }
}

/// The statements of a program from `p` to the end of input.
pub open spec fn parse_program_rest(t: Seq<SpecToken>, p: int, acc: Seq<StmtModel>) -> Result<
    Seq<StmtModel>,
    ParseError,
>
    decreases t.len() - p,
{
    if kind_at(t, p) == TokenType::EndOfInput {
        Ok(acc)
    } else {
        match parse_stmt(t, p) {
            Err(e) => Err(e),
            Ok((s, q)) => {
                if q <= p || q > t.len() {
                    Err(perr(ParseErrorKind::UnexpectedToken, t, p))
                } else {
                    parse_program_rest(t, q, acc.push(s))
                }
            },
        }
    }
}

/// The statements of a whole token sequence.
pub open spec fn parse_spec(t: Seq<SpecToken>) -> Result<Seq<StmtModel>, ParseError> {
    parse_program_rest(t, 0, Seq::empty())
}


// ---------------------------------------------------------------------------
// Every phrase consumes at least one token and stays inside the input
// ---------------------------------------------------------------------------

pub open spec fn advances(t: Seq<SpecToken>, p: int, q: int) -> bool {
    p < q <= t.len()
}

proof fn lemma_assign_advances(t: Seq<SpecToken>, p: int)
    requires
        0 <= p <= t.len(),
    ensures
        parse_assign(t, p) matches Ok((_, q)) ==> advances(t, p, q),
    decreases t.len() - p, 30int,
{
    lemma_level_advances(t, 2, p);
    if let Ok((left, q)) = parse_level(t, 2, p) {
        if !(q < p || q > t.len()) && assign_op(kind_at(t, q)).is_some() && left is Ident {
            lemma_assign_advances(t, q + 1);
        }
    }
}

proof fn lemma_operand_advances(t: Seq<SpecToken>, lvl: int, p: int)
    requires
        0 <= p <= t.len(),
    ensures
        parse_operand(t, lvl, p) matches Ok((_, q)) ==> advances(t, p, q),
    decreases t.len() - p, 20 - 2 * lvl,
{
    if lvl == 7 {
        lemma_unary_advances(t, p);
    } else if 2 <= lvl < 7 {
        lemma_level_advances(t, lvl + 1, p);
    }
}

proof fn lemma_level_advances(t: Seq<SpecToken>, lvl: int, p: int)
    requires
        0 <= p <= t.len(),
    ensures
        parse_level(t, lvl, p) matches Ok((_, q)) ==> advances(t, p, q),
    decreases t.len() - p, 21 - 2 * lvl,
{
    if 2 <= lvl <= 7 {
        lemma_operand_advances(t, lvl, p);
        if let Ok((left, q)) = parse_operand(t, lvl, p) {
            lemma_level_rest_advances(t, lvl, left, q);
        }
    }
}

proof fn lemma_level_rest_advances(t: Seq<SpecToken>, lvl: int, left: ExprModel, p: int)
    requires
        0 <= p <= t.len(),
    ensures
        parse_level_rest(t, lvl, left, p) matches Ok((_, q)) ==> p <= q <= t.len(),
    decreases t.len() - p, 20 - 2 * lvl,
{
    if 2 <= lvl <= 7 && level_has(lvl, kind_at(t, p)) {
        lemma_operand_advances(t, lvl, p + 1);
        if let Ok((right, q)) = parse_operand(t, lvl, p + 1) {
            lemma_level_rest_advances(t, lvl, combine(lvl, kind_at(t, p), left, right), q);
        }
    }
}

proof fn lemma_unary_advances(t: Seq<SpecToken>, p: int)
    requires
        0 <= p <= t.len(),
    ensures
        parse_unary(t, p) matches Ok((_, q)) ==> advances(t, p, q),
    decreases t.len() - p, 4int,
{
    if unary_op(kind_at(t, p)).is_some() {
        if p < t.len() {
            lemma_unary_advances(t, p + 1);
        }
    } else {
        lemma_primary_advances(t, p);
    }
}

proof fn lemma_primary_advances(t: Seq<SpecToken>, p: int)
    requires
        0 <= p <= t.len(),
    ensures
        parse_primary(t, p) matches Ok((_, q)) ==> advances(t, p, q),
    decreases t.len() - p, 3int,
{
    if kind_at(t, p) == TokenType::OpenParen {
        lemma_assign_advances(t, p + 1);
    }
}

proof fn lemma_stmt_advances(t: Seq<SpecToken>, p: int)
    requires
        0 <= p <= t.len(),
    ensures
        parse_stmt(t, p) matches Ok((_, q)) ==> advances(t, p, q),
    decreases t.len() - p, 40int,
{
    let k = kind_at(t, p);
    if k == TokenType::Let || k == TokenType::Const {
        lemma_var_advances(t, p);
    } else if k == TokenType::If {
        lemma_if_advances(t, p);
    } else if k == TokenType::OpenBrace {
        lemma_block_rest_advances(t, p + 1, Seq::empty());
    } else {
        lemma_assign_advances(t, p);
    }
}

proof fn lemma_var_advances(t: Seq<SpecToken>, p: int)
    requires
        0 <= p <= t.len(),
    ensures
        parse_var(t, p) matches Ok((_, q)) ==> advances(t, p, q),
    decreases t.len() - p, 39int,
{
    if kind_at(t, p + 1) == TokenType::Identifier && kind_at(t, p + 2) == TokenType::Equals {
        lemma_assign_advances(t, p + 3);
    }
}

proof fn lemma_if_advances(t: Seq<SpecToken>, p: int)
    requires
        0 <= p <= t.len(),
    ensures
        parse_if(t, p) matches Ok((_, q)) ==> advances(t, p, q),
    decreases t.len() - p, 39int,
{
    if 0 <= p < t.len() {
        lemma_assign_advances(t, p + 1);
        if let Ok((test, q)) = parse_assign(t, p + 1) {
            lemma_stmt_advances(t, q);
            if let Ok((body, r)) = parse_stmt(t, q) {
                if kind_at(t, r) == TokenType::Else {
                    lemma_stmt_advances(t, r + 1);
                }
            }
        }
    }
}

proof fn lemma_block_rest_advances(t: Seq<SpecToken>, p: int, acc: Seq<StmtModel>)
    requires
        0 <= p <= t.len(),
    ensures
        parse_block_rest(t, p, acc) matches Ok((_, q)) ==> advances(t, p, q),
    decreases t.len() - p, 41int,
{
    let k = kind_at(t, p);
    if k != TokenType::CloseBrace && k != TokenType::EndOfInput {
        lemma_stmt_advances(t, p);
        if let Ok((s, q)) = parse_stmt(t, p) {
            lemma_block_rest_advances(t, q, acc.push(s));
        }
    }
}

/// The position checks in the rules above never fail: each rule that
/// succeeds ends after it starts and inside the input.
pub proof fn lemma_phrases_advance(t: Seq<SpecToken>, p: int)
    requires
        0 <= p <= t.len(),
    ensures
        parse_assign(t, p) matches Ok((_, q)) ==> advances(t, p, q),
        parse_stmt(t, p) matches Ok((_, q)) ==> advances(t, p, q),
{
    lemma_assign_advances(t, p);
    lemma_stmt_advances(t, p);
}

// ---------------------------------------------------------------------------
// Every assignment the parser builds has an identifier on its left
// ---------------------------------------------------------------------------

pub open spec fn targets_ok(e: ExprModel) -> bool
    decreases e,
{
    match e {
        ExprModel::Number(_) | ExprModel::Bool(_) | ExprModel::Ident(_) => true,
        ExprModel::Unary(_, a) => targets_ok(*a),
        ExprModel::Binary(_, l, r) => targets_ok(*l) && targets_ok(*r),
        ExprModel::Logical(_, l, r) => targets_ok(*l) && targets_ok(*r),
        ExprModel::Assign(t, _, v) => (*t is Ident) && targets_ok(*v),
    }
}

pub open spec fn stmt_targets_ok(s: StmtModel) -> bool
    decreases s,
{
    match s {
        StmtModel::VarDecl(_, _, e) => targets_ok(e),
        StmtModel::ExprStmt(e) => targets_ok(e),
        StmtModel::If(test, body, alt) => targets_ok(test) && stmt_targets_ok(*body) && match alt {
            Some(a) => stmt_targets_ok(*a),
            None => true,
        },
        StmtModel::Block(body) => forall|i: int| 0 <= i < body.len() ==> stmt_targets_ok(#[trigger] body[i]),
        StmtModel::Program(body) => forall|i: int| 0 <= i < body.len()
            ==> stmt_targets_ok(#[trigger] body[i]),
    }
}

proof fn lemma_assign_targets(t: Seq<SpecToken>, p: int)
    ensures
        parse_assign(t, p) matches Ok((e, _)) ==> targets_ok(e),
    decreases t.len() - p, 30int,
{
    lemma_level_targets(t, 2, p);
    if let Ok((left, q)) = parse_level(t, 2, p) {
        if !(q < p || q > t.len()) && assign_op(kind_at(t, q)).is_some() && left is Ident {
            lemma_assign_targets(t, q + 1);
        }
    }
}

proof fn lemma_operand_targets(t: Seq<SpecToken>, lvl: int, p: int)
    ensures
        parse_operand(t, lvl, p) matches Ok((e, _)) ==> targets_ok(e),
    decreases t.len() - p, 20 - 2 * lvl,
{
    if lvl == 7 {
        lemma_unary_targets(t, p);
    } else if 2 <= lvl < 7 {
        lemma_level_targets(t, lvl + 1, p);
    }
}

proof fn lemma_level_targets(t: Seq<SpecToken>, lvl: int, p: int)
    ensures
        parse_level(t, lvl, p) matches Ok((e, _)) ==> targets_ok(e),
    decreases t.len() - p, 21 - 2 * lvl,
{
    if 2 <= lvl <= 7 {
        lemma_operand_targets(t, lvl, p);
        if let Ok((left, q)) = parse_operand(t, lvl, p) {
            if !(q < p || q > t.len()) {
                lemma_level_rest_targets(t, lvl, left, q);
            }
        }
    }
}

proof fn lemma_level_rest_targets(t: Seq<SpecToken>, lvl: int, left: ExprModel, p: int)
    requires
        targets_ok(left),
    ensures
        parse_level_rest(t, lvl, left, p) matches Ok((e, _)) ==> targets_ok(e),
    decreases t.len() - p, 20 - 2 * lvl,
{
    if 2 <= lvl <= 7 && level_has(lvl, kind_at(t, p)) {
        lemma_operand_targets(t, lvl, p + 1);
        if let Ok((right, q)) = parse_operand(t, lvl, p + 1) {
            if !(q <= p || q > t.len()) {
                lemma_level_rest_targets(t, lvl, combine(lvl, kind_at(t, p), left, right), q);
            }
        }
    }
}

proof fn lemma_unary_targets(t: Seq<SpecToken>, p: int)
    ensures
        parse_unary(t, p) matches Ok((e, _)) ==> targets_ok(e),
    decreases t.len() - p, 4int,
{
    if unary_op(kind_at(t, p)).is_some() {
        if p < t.len() {
            lemma_unary_targets(t, p + 1);
        }
    } else {
        lemma_primary_targets(t, p);
    }
}

proof fn lemma_primary_targets(t: Seq<SpecToken>, p: int)
    ensures
        parse_primary(t, p) matches Ok((e, _)) ==> targets_ok(e),
    decreases t.len() - p, 3int,
{
    if kind_at(t, p) == TokenType::OpenParen {
        lemma_assign_targets(t, p + 1);
    }
}

proof fn lemma_stmt_targets(t: Seq<SpecToken>, p: int)
    ensures
        parse_stmt(t, p) matches Ok((s, _)) ==> stmt_targets_ok(s),
    decreases t.len() - p, 40int,
{
    let k = kind_at(t, p);
    if k == TokenType::Let || k == TokenType::Const {
        lemma_var_targets(t, p);
    } else if k == TokenType::If {
        lemma_if_targets(t, p);
    } else if k == TokenType::OpenBrace {
        lemma_block_rest_targets(t, p + 1, Seq::empty());
    } else {
        lemma_assign_targets(t, p);
    }
}

proof fn lemma_var_targets(t: Seq<SpecToken>, p: int)
    ensures
        parse_var(t, p) matches Ok((s, _)) ==> stmt_targets_ok(s),
    decreases t.len() - p, 39int,
{
    if kind_at(t, p + 1) == TokenType::Identifier && kind_at(t, p + 2) == TokenType::Equals && p
        >= 0 {
        lemma_assign_targets(t, p + 3);
    }
}

proof fn lemma_if_targets(t: Seq<SpecToken>, p: int)
    ensures
        parse_if(t, p) matches Ok((s, _)) ==> stmt_targets_ok(s),
    decreases t.len() - p, 39int,
{
    if 0 <= p < t.len() {
        lemma_assign_targets(t, p + 1);
        if let Ok((test, q)) = parse_assign(t, p + 1) {
            if !(q <= p || q > t.len()) {
                lemma_stmt_targets(t, q);
                if let Ok((body, r)) = parse_stmt(t, q) {
                    if !(r < q || r > t.len()) && kind_at(t, r) == TokenType::Else {
                        lemma_stmt_targets(t, r + 1);
                    }
                }
            }
        }
    }
}

proof fn lemma_block_rest_targets(t: Seq<SpecToken>, p: int, acc: Seq<StmtModel>)
    requires
        forall|i: int| 0 <= i < acc.len() ==> stmt_targets_ok(#[trigger] acc[i]),
    ensures
        parse_block_rest(t, p, acc) matches Ok((s, _)) ==> stmt_targets_ok(s),
    decreases t.len() - p, 41int,
{
    let k = kind_at(t, p);
    if k != TokenType::CloseBrace && k != TokenType::EndOfInput {
        lemma_stmt_targets(t, p);
        if let Ok((s, q)) = parse_stmt(t, p) {
            if !(q <= p || q > t.len()) {
                assert forall|i: int| 0 <= i < acc.push(s).len() implies stmt_targets_ok(
                    #[trigger] acc.push(s)[i],
                ) by {
                    if i < acc.len() {
                        assert(acc.push(s)[i] == acc[i]);
                    }
                }
                lemma_block_rest_targets(t, q, acc.push(s));
            }
        }
    }
}

proof fn lemma_program_rest_targets(t: Seq<SpecToken>, p: int, acc: Seq<StmtModel>)
    requires
        forall|i: int| 0 <= i < acc.len() ==> stmt_targets_ok(#[trigger] acc[i]),
    ensures
        parse_program_rest(t, p, acc) matches Ok(prog) ==> forall|i: int|
            0 <= i < prog.len() ==> stmt_targets_ok(#[trigger] prog[i]),
    decreases t.len() - p,
{
    if kind_at(t, p) != TokenType::EndOfInput {
        lemma_stmt_targets(t, p);
        if let Ok((s, q)) = parse_stmt(t, p) {
            if !(q <= p || q > t.len()) {
                assert forall|i: int| 0 <= i < acc.push(s).len() implies stmt_targets_ok(
                    #[trigger] acc.push(s)[i],
                ) by {
                    if i < acc.len() {
                        assert(acc.push(s)[i] == acc[i]);
                    }
                }
                lemma_program_rest_targets(t, q, acc.push(s));
            }
        }
    }
}

/// Whenever parsing succeeds, the left-hand side of every assignment in the
/// program, simple or compound, is an identifier.
pub proof fn lemma_parse_assign_targets(t: Seq<SpecToken>)
    ensures
        parse_spec(t) matches Ok(prog) ==> forall|i: int|
            0 <= i < prog.len() ==> stmt_targets_ok(#[trigger] prog[i]),
{
    lemma_program_rest_targets(t, 0, Seq::empty());
}

// ---------------------------------------------------------------------------
// Implementation
// ---------------------------------------------------------------------------

/// `r` and the parser position `pos` are what the specification result `s`
/// describes.
pub open spec fn expr_result(r: Result<Expr, ParseError>, pos: usize, s: ExprParse) -> bool {
    match s {
        Ok((m, q)) => r matches Ok(e) && e.model() == m && pos == q,
        Err(e) => r == Err::<Expr, ParseError>(e),
    }
}

pub open spec fn stmt_result(r: Result<Stmt, ParseError>, pos: usize, s: StmtParse) -> bool {
    match s {
        Ok((m, q)) => r matches Ok(e) && e.model() == m && pos == q,
        Err(e) => r == Err::<Stmt, ParseError>(e),
    }
}

proof fn lemma_decimal_prefix(s: Seq<char>, k: int)
    requires
        all_digits(s),
        0 <= k <= s.len(),
    ensures
        0 <= decimal_value(s.subrange(0, k)) <= decimal_value(s),
    decreases s.len(),
{
    if s.len() > 0 {
        if k == s.len() {
            assert(s.subrange(0, k) =~= s);
            lemma_decimal_prefix(s.drop_last(), 0);
        } else {
            assert(all_digits(s.drop_last()));
            lemma_decimal_prefix(s.drop_last(), k);
            assert(s.drop_last().subrange(0, k) =~= s.subrange(0, k));
            assert('0' <= s.last() <= '9');
        }
    } else {
        assert(s.subrange(0, k) =~= s);
    }
}

/// Reads a number literal's text as an `i64`.
fn number_of(s: &String) -> (r: Option<i64>)
    ensures
        r == number_value(s@),
{
    let st = s.as_str();
    let n = st.unicode_len();
    if n == 0 {
        return None;
    }
    let mut v: i64 = 0;
    let mut i: usize = 0;
    while i < n
        invariant
            n == s@.len(),
            st@ == s@,
            i <= n,
            0 <= v,
            v == decimal_value(s@.subrange(0, i as int)),
            all_digits(s@.subrange(0, i as int)),
        decreases n - i,
    {
        let c = st.get_char(i);
        let u = c as u32;
        if u < '0' as u32 || u > '9' as u32 {
            assert(!('0' <= s@[i as int] <= '9'));
            return None;
        }
        let d = (u - '0' as u32) as i64;
        let ghost pre = s@.subrange(0, i as int);
        let ghost next = s@.subrange(0, i as int + 1);
        assert(next.drop_last() =~= pre);
        assert(all_digits(next));
        if v > (i64::MAX - d) / 10 {
            assert(v * 10 + d > i64::MAX) by (nonlinear_arith)
                requires
                    v > (i64::MAX - d) / 10,
                    0 <= d <= 9,
            ;
            proof {
                if all_digits(s@) {
                    lemma_decimal_prefix(s@, i as int + 1);
                }
            }
            return None;
        }
        assert(v * 10 + d <= i64::MAX) by (nonlinear_arith)
            requires
                v <= (i64::MAX - d) / 10,
                0 <= d <= 9,
                0 <= v,
        ;
        v = v * 10 + d;
        i = i + 1;
    }
    assert(s@.subrange(0, n as int) =~= s@);
    Some(v)
}

fn assign_op_of(k: TokenType) -> (r: Option<AssignOperator>)
    ensures
        r == assign_op(k),
{
    match k {
        TokenType::Equals => Some(AssignOperator::Assign),
        TokenType::PlusEquals => Some(AssignOperator::AddAssign),
        TokenType::MinusEquals => Some(AssignOperator::SubAssign),
        TokenType::StarEquals => Some(AssignOperator::MulAssign),
        TokenType::SlashEquals => Some(AssignOperator::DivAssign),
        TokenType::PercentEquals => Some(AssignOperator::ModAssign),
        _ => None,
    }
}

fn unary_op_of(k: TokenType) -> (r: Option<UnaryOperator>)
    ensures
        r == unary_op(k),
{
    match k {
        TokenType::Plus => Some(UnaryOperator::Plus),
        TokenType::Minus => Some(UnaryOperator::Minus),
        TokenType::Not => Some(UnaryOperator::Not),
        _ => None,
    }
}

fn level_has_kind(lvl: u8, k: TokenType) -> (r: bool)
    ensures
        r == level_has(lvl as int, k),
{
    if lvl == 2 {
        k == TokenType::Or
    } else if lvl == 3 {
        k == TokenType::And
    } else if lvl == 4 {
        k == TokenType::EqualsEquals || k == TokenType::NotEqual
    } else if lvl == 5 {
        k == TokenType::LessThan || k == TokenType::GreaterThan || k == TokenType::LessThanEqual
            || k == TokenType::GreaterThanEqual
    } else if lvl == 6 {
        k == TokenType::Plus || k == TokenType::Minus
    } else {
        k == TokenType::Star || k == TokenType::Slash || k == TokenType::Percent
    }
}

fn binary_op_of(k: TokenType) -> (r: BinaryOperator)
    ensures
        r == binary_op(k),
{
    match k {
        TokenType::Minus => BinaryOperator::Sub,
        TokenType::Star => BinaryOperator::Mul,
        TokenType::Slash => BinaryOperator::Div,
        TokenType::Percent => BinaryOperator::Mod,
        TokenType::EqualsEquals => BinaryOperator::Eq,
        TokenType::NotEqual => BinaryOperator::Neq,
        TokenType::LessThan => BinaryOperator::Lt,
        TokenType::GreaterThan => BinaryOperator::Gt,
        TokenType::LessThanEqual => BinaryOperator::Le,
        TokenType::GreaterThanEqual => BinaryOperator::Ge,
        _ => BinaryOperator::Add,
    }
}

fn combine_exprs(lvl: u8, k: TokenType, left: Expr, right: Expr) -> (r: Expr)
    ensures
        r.model() == combine(lvl as int, k, left.model(), right.model()),
{
    if lvl == 2 {
        Expr::Logical(
            LogicalExpr {
                left: Box::new(left),
                right: Box::new(right),
                operator: LogicalOperator::Or,
            },
        )
    } else if lvl == 3 {
        Expr::Logical(
            LogicalExpr {
                left: Box::new(left),
                right: Box::new(right),
                operator: LogicalOperator::And,
            },
        )
    } else {
        Expr::Binary(
            BinaryExpr { left: Box::new(left), right: Box::new(right), operator: binary_op_of(k) },
        )
    }
}

/// Builds a syntax tree from a token sequence.
pub struct Parser {
    tokens: Vec<Token>,
    pos: usize,
}

impl Parser {
    /// The views of the tokens being parsed.
    pub closed spec fn input(&self) -> Seq<SpecToken> {
        view_tokens(self.tokens@)
    }

    /// The index of the next token to read.
    pub closed spec fn position(&self) -> int {
        self.pos as int
    }

    pub fn new(tokens: Vec<Token>) -> (r: Parser)
        ensures
            r.input() == view_tokens(tokens@),
            r.position() == 0,
    {
        Parser { tokens, pos: 0 }
    }

    fn kind_at_index(&self, i: usize) -> (k: TokenType)
        ensures
            k == kind_at(self.input(), i as int),
    {
        if i < self.tokens.len() {
            self.tokens[i].kind
        } else {
            TokenType::EndOfInput
        }
    }

    fn at_kind(&self) -> (k: TokenType)
        ensures
            k == kind_at(self.input(), self.pos as int),
    {
        self.kind_at_index(self.pos)
    }

    fn error(&self, kind: ParseErrorKind, p: usize) -> (e: ParseError)
        ensures
            e == perr(kind, self.input(), p as int),
    {
        ParseError { kind, position: p, found: self.kind_at_index(p) }
    }

    fn parse_assignment_expr(&mut self) -> (r: Result<Expr, ParseError>)
        requires
            old(self).pos <= old(self).tokens.len(),
        ensures
            final(self).tokens == old(self).tokens,
            old(self).pos <= final(self).pos <= final(self).tokens.len(),
            r is Ok ==> old(self).pos < final(self).pos,
            expr_result(r, final(self).pos, parse_assign(old(self).input(), old(self).pos as int)),
        decreases old(self).tokens.len() - old(self).pos, 30int,
    {
        let left = match self.parse_binary_expr(2) {
            Ok(e) => e,
            Err(e) => {
                return Err(e);
            },
        };
        let q = self.pos;
        match assign_op_of(self.at_kind()) {
            None => Ok(left),
            Some(op) => {
                if let Expr::Identifier(_) = left {
                } else {
                    return Err(self.error(ParseErrorKind::InvalidAssignmentTarget, q));
                }
                self.pos = q + 1;
                let value = match self.parse_assignment_expr() {
                    Ok(e) => e,
                    Err(e) => {
                        return Err(e);
                    },
                };
                Ok(
                    Expr::AssignmentExpr(
                        AssignmentExpr {
                            assignee: Box::new(left),
                            operator: op,
                            value: Box::new(value),
                        },
                    ),
                )
            },
        }
    }

    /// A left-associative chain of binary precedence level `lvl`.
    fn parse_binary_expr(&mut self, lvl: u8) -> (r: Result<Expr, ParseError>)
        requires
            2 <= lvl <= 7,
            old(self).pos <= old(self).tokens.len(),
        ensures
            final(self).tokens == old(self).tokens,
            old(self).pos <= final(self).pos <= final(self).tokens.len(),
            r is Ok ==> old(self).pos < final(self).pos,
            expr_result(
                r,
                final(self).pos,
                parse_level(old(self).input(), lvl as int, old(self).pos as int),
            ),
        decreases old(self).tokens.len() - old(self).pos, 21 - 2 * lvl,
    {
        let ghost t = self.input();
        let ghost p = self.pos as int;
        let first = if lvl == 7 {
            self.parse_unary_expr()
        } else {
            self.parse_binary_expr(lvl + 1)
        };
        let mut left = match first {
            Ok(e) => e,
            Err(e) => {
                return Err(e);
            },
        };
        while level_has_kind(lvl, self.at_kind())
            invariant
                2 <= lvl <= 7,
                self.tokens == old(self).tokens,
                t == old(self).input(),
                p == old(self).pos,
                p < self.pos <= self.tokens.len(),
                parse_level(t, lvl as int, p) == parse_level_rest(
                    t,
                    lvl as int,
                    left.model(),
                    self.pos as int,
                ),
            decreases self.tokens.len() - self.pos,
        {
            let k = self.at_kind();
            let q = self.pos;
            self.pos = q + 1;
            let ghost lm = left.model();
            let next = if lvl == 7 {
                self.parse_unary_expr()
            } else {
                self.parse_binary_expr(lvl + 1)
            };
            assert(expr_result(next, self.pos, parse_operand(t, lvl as int, q as int + 1)));
            assert(kind_at(t, q as int) == k);
            assert(level_has(lvl as int, k));
            let right = match next {
                Ok(e) => e,
                Err(e) => {
                    return Err(e);
                },
            };
            left = combine_exprs(lvl, k, left, right);
            assert(parse_level_rest(t, lvl as int, lm, q as int) == parse_level_rest(
                t,
                lvl as int,
                left.model(),
                self.pos as int,
            ));
        }
        Ok(left)
    }

    fn parse_unary_expr(&mut self) -> (r: Result<Expr, ParseError>)
        requires
            old(self).pos <= old(self).tokens.len(),
        ensures
            final(self).tokens == old(self).tokens,
            old(self).pos <= final(self).pos <= final(self).tokens.len(),
            r is Ok ==> old(self).pos < final(self).pos,
            expr_result(r, final(self).pos, parse_unary(old(self).input(), old(self).pos as int)),
        decreases old(self).tokens.len() - old(self).pos, 4int,
    {
        match unary_op_of(self.at_kind()) {
            Some(op) => {
                self.pos = self.pos + 1;
                let value = match self.parse_unary_expr() {
                    Ok(e) => e,
                    Err(e) => {
                        return Err(e);
                    },
                };
                Ok(Expr::UnaryExpr(UnaryExpr { operator: op, value: Box::new(value) }))
            },
            None => self.parse_primary_expr(),
        }
    }

    fn parse_primary_expr(&mut self) -> (r: Result<Expr, ParseError>)
        requires
            old(self).pos <= old(self).tokens.len(),
        ensures
            final(self).tokens == old(self).tokens,
            old(self).pos <= final(self).pos <= final(self).tokens.len(),
            r is Ok ==> old(self).pos < final(self).pos,
            expr_result(r, final(self).pos, parse_primary(old(self).input(), old(self).pos as int)),
        decreases old(self).tokens.len() - old(self).pos, 3int,
    {
        let p = self.pos;
        let k = self.at_kind();
        if k == TokenType::Identifier {
            let symbol = self.tokens[p].value.clone();
            self.pos = p + 1;
            Ok(Expr::Identifier(Identifier { symbol }))
        } else if k == TokenType::Number {
            match number_of(&self.tokens[p].value) {
                Some(value) => {
                    self.pos = p + 1;
                    Ok(Expr::NumericLiteral(NumericLiteral { value }))
                },
                None => Err(self.error(ParseErrorKind::InvalidNumber, p)),
            }
        } else if k == TokenType::True {
            self.pos = p + 1;
            Ok(Expr::BooleanLiteral(BooleanLiteral { value: true }))
        } else if k == TokenType::False {
            self.pos = p + 1;
            Ok(Expr::BooleanLiteral(BooleanLiteral { value: false }))
        } else if k == TokenType::OpenParen {
            self.pos = p + 1;
            let e = match self.parse_assignment_expr() {
                Ok(e) => e,
                Err(e) => {
                    return Err(e);
                },
            };
            let q = self.pos;
            if self.at_kind() == TokenType::CloseParen {
                self.pos = q + 1;
                Ok(e)
            } else {
                Err(self.error(ParseErrorKind::Expected(TokenType::CloseParen), q))
            }
        } else {
            Err(self.error(ParseErrorKind::UnexpectedToken, p))
        }
    }

    fn parse_stmt(&mut self) -> (r: Result<Stmt, ParseError>)
        requires
            old(self).pos <= old(self).tokens.len(),
        ensures
            final(self).tokens == old(self).tokens,
            old(self).pos <= final(self).pos <= final(self).tokens.len(),
            r is Ok ==> old(self).pos < final(self).pos,
            stmt_result(r, final(self).pos, parse_stmt(old(self).input(), old(self).pos as int)),
        decreases old(self).tokens.len() - old(self).pos, 40int,
    {
        let k = self.at_kind();
        if k == TokenType::Let || k == TokenType::Const {
            self.parse_variable_stmt()
        } else if k == TokenType::If {
            self.parse_if_stmt()
        } else if k == TokenType::OpenBrace {
            self.parse_block_stmt()
        } else {
            match self.parse_assignment_expr() {
                Ok(e) => Ok(Stmt::Expr(e)),
                Err(e) => Err(e),
            }
        }
    }

    fn parse_variable_stmt(&mut self) -> (r: Result<Stmt, ParseError>)
        requires
            old(self).pos < old(self).tokens.len(),
        ensures
            final(self).tokens == old(self).tokens,
            old(self).pos <= final(self).pos <= final(self).tokens.len(),
            r is Ok ==> old(self).pos < final(self).pos,
            stmt_result(r, final(self).pos, parse_var(old(self).input(), old(self).pos as int)),
        decreases old(self).tokens.len() - old(self).pos, 39int,
    {
        let p = self.pos;
        if self.kind_at_index(p + 1) != TokenType::Identifier {
            return Err(self.error(ParseErrorKind::Expected(TokenType::Identifier), p + 1));
        }
        if self.kind_at_index(p + 2) != TokenType::Equals {
            return Err(self.error(ParseErrorKind::Expected(TokenType::Equals), p + 2));
        }
        let constant = self.kind_at_index(p) == TokenType::Const;
        let identifier = self.tokens[p + 1].value.clone();
        self.pos = p + 3;
        match self.parse_assignment_expr() {
            Ok(value) => Ok(
                Stmt::VariableDeclaration(VariableDeclaration { identifier, constant, value }),
            ),
            Err(e) => Err(e),
        }
    }

    fn parse_if_stmt(&mut self) -> (r: Result<Stmt, ParseError>)
        requires
            old(self).pos < old(self).tokens.len(),
        ensures
            final(self).tokens == old(self).tokens,
            old(self).pos <= final(self).pos <= final(self).tokens.len(),
            r is Ok ==> old(self).pos < final(self).pos,
            stmt_result(r, final(self).pos, parse_if(old(self).input(), old(self).pos as int)),
        decreases old(self).tokens.len() - old(self).pos, 39int,
    {
        self.pos = self.pos + 1;
        let test = match self.parse_assignment_expr() {
            Ok(e) => e,
            Err(e) => {
                return Err(e);
            },
        };
        let body = match self.parse_stmt() {
            Ok(s) => s,
            Err(e) => {
                return Err(e);
            },
        };
        if self.at_kind() == TokenType::Else {
            self.pos = self.pos + 1;
            let alt = match self.parse_stmt() {
                Ok(s) => s,
                Err(e) => {
                    return Err(e);
                },
            };
            Ok(
                Stmt::IfStatement(
                    IfStatement { test, body: Box::new(body), alternate: Some(Box::new(alt)) },
                ),
            )
        } else {
            Ok(Stmt::IfStatement(IfStatement { test, body: Box::new(body), alternate: None }))
        }
    }

    /// `{ Stmt* }`, starting at `{`.
    fn parse_block_stmt(&mut self) -> (r: Result<Stmt, ParseError>)
        requires
            old(self).pos < old(self).tokens.len(),
        ensures
            final(self).tokens == old(self).tokens,
            old(self).pos <= final(self).pos <= final(self).tokens.len(),
            r is Ok ==> old(self).pos < final(self).pos,
            stmt_result(
                r,
                final(self).pos,
                parse_block_rest(old(self).input(), old(self).pos + 1, Seq::empty()),
            ),
        decreases old(self).tokens.len() - old(self).pos, 39int,
    {
        let ghost t = self.input();
        let ghost p = self.pos as int;
        self.pos = self.pos + 1;
        let mut body: Vec<Stmt> = Vec::new();
        loop
            invariant
                self.tokens == old(self).tokens,
                t == old(self).input(),
                p == old(self).pos,
                p < self.pos <= self.tokens.len(),
                parse_block_rest(t, p + 1, Seq::empty()) == parse_block_rest(
                    t,
                    self.pos as int,
                    stmts_model(body@),
                ),
            decreases self.tokens.len() - self.pos,
        {
            let k = self.at_kind();
            if k == TokenType::CloseBrace {
                self.pos = self.pos + 1;
                return Ok(Stmt::BlockStatement(BlockStatement { body }));
            }
            if k == TokenType::EndOfInput {
                return Err(self.error(ParseErrorKind::Expected(TokenType::CloseBrace), self.pos));
            }
            let ghost before = stmts_model(body@);
            let ghost q = self.pos as int;
            let s = match self.parse_stmt() {
                Ok(s) => s,
                Err(e) => {
                    return Err(e);
                },
            };
            let ghost sm = s.model();
            let ghost old_body = body@;
            body.push(s);
            assert(body@.drop_last() =~= old_body);
            assert(stmts_model(body@) == before.push(sm));
            assert(parse_block_rest(t, q, before) == parse_block_rest(
                t,
                self.pos as int,
                stmts_model(body@),
            ));
        }
    }

    /// Parses statements up to the end of input.
    pub fn produce_ast(&mut self) -> (r: Result<Program, ParseError>)
        requires
            old(self).position() <= old(self).input().len(),
        ensures
            match parse_program_rest(old(self).input(), old(self).position(), Seq::empty()) {
                Ok(m) => r matches Ok(prog) && stmts_model(prog.body@) == m,
                Err(e) => r matches Err(f) && f == e,
            },
    {
        let ghost t = self.input();
        let ghost p = self.pos as int;
        let mut body: Vec<Stmt> = Vec::new();
        while self.at_kind() != TokenType::EndOfInput
            invariant
                t == self.input(),
                t == old(self).input(),
                p == old(self).pos,
                p <= self.pos <= self.tokens.len(),
                parse_program_rest(t, p, Seq::empty()) == parse_program_rest(
                    t,
                    self.pos as int,
                    stmts_model(body@),
                ),
            decreases self.tokens.len() - self.pos,
        {
            let ghost before = stmts_model(body@);
            let ghost q = self.pos as int;
            let s = match self.parse_stmt() {
                Ok(s) => s,
                Err(e) => {
                    return Err(e);
                },
            };
            let ghost sm = s.model();
            let ghost old_body = body@;
            body.push(s);
            assert(body@.drop_last() =~= old_body);
            assert(stmts_model(body@) == before.push(sm));
        }
        Ok(Program { body })
    }
}

} // verus!
