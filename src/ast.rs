use vstd::prelude::*;

verus! {

/// The kind of a syntax tree node.
#[derive(Debug, Clone, Copy, PartialEq, Eq, Structural)]
pub enum NodeType {
    Program,
    VariableDeclaration,
    IfStatement,
    BlockStatement,
    BinaryExpr,
    LogicalExpr,
    Identifier,
    NumericLiteral,
    BooleanLiteral,
    AssignmentExpr,
    UnaryExpr,
}

/// Prefix operators: `+`, `-`, `!`.
#[derive(Debug, Clone, Copy, PartialEq, Eq, Structural)]
pub enum UnaryOperator {
    Plus,
    Minus,
    Not,
}

/// Arithmetic and comparison operators.
#[derive(Debug, Clone, Copy, PartialEq, Eq, Structural)]
pub enum BinaryOperator {
    Add,
    Sub,
    Mul,
    Div,
    Mod,
    Eq,
    Neq,
    Lt,
    Gt,
    Le,
    Ge,
}

/// Short-circuit operators: `&&`, `||`.
#[derive(Debug, Clone, Copy, PartialEq, Eq, Structural)]
pub enum LogicalOperator {
    And,
    Or,
}

/// Assignment operators: `=` and the compound forms.
#[derive(Debug, Clone, Copy, PartialEq, Eq, Structural)]
pub enum AssignOperator {
    Assign,
    AddAssign,
    SubAssign,
    MulAssign,
    DivAssign,
    ModAssign,
}

#[derive(Debug)]
pub enum Stmt {
    Program(Program),
    VariableDeclaration(VariableDeclaration),
    IfStatement(IfStatement),
    BlockStatement(BlockStatement),
    Expr(Expr),
}

#[derive(Debug)]
pub enum Expr {
    Binary(BinaryExpr),
    Logical(LogicalExpr),
    Identifier(Identifier),
    NumericLiteral(NumericLiteral),
    BooleanLiteral(BooleanLiteral),
    AssignmentExpr(AssignmentExpr),
    UnaryExpr(UnaryExpr),
}

#[derive(Debug)]
pub struct Program {
    pub body: Vec<Stmt>,
}

/// `let name = value` or, when `constant`, `const name = value`.
#[derive(Debug)]
pub struct VariableDeclaration {
    pub identifier: String,
    pub constant: bool,
    pub value: Expr,
}

/// `if test body` with an optional `else alternate`.
#[derive(Debug)]
pub struct IfStatement {
    pub test: Expr,
    pub body: Box<Stmt>,
    pub alternate: Option<Box<Stmt>>,
}

/// `{ body }`: a new lexical scope.
#[derive(Debug)]
pub struct BlockStatement {
    pub body: Vec<Stmt>,
}

#[derive(Debug)]
pub struct BinaryExpr {
    pub left: Box<Expr>,
    pub right: Box<Expr>,
    pub operator: BinaryOperator,
}

#[derive(Debug)]
pub struct LogicalExpr {
    pub left: Box<Expr>,
    pub right: Box<Expr>,
    pub operator: LogicalOperator,
}

#[derive(Debug, Clone)]
pub struct Identifier {
    pub symbol: String,
}

#[derive(Debug, Clone, Copy)]
pub struct NumericLiteral {
    pub value: i64,
}

#[derive(Debug, Clone, Copy)]
pub struct BooleanLiteral {
    pub value: bool,
}

#[derive(Debug)]
pub struct AssignmentExpr {
    pub assignee: Box<Expr>,
    pub operator: AssignOperator,
    pub value: Box<Expr>,
}

#[derive(Debug)]
pub struct UnaryExpr {
    pub operator: UnaryOperator,
    pub value: Box<Expr>,
}

// ---------------------------------------------------------------------------
// Mathematical models of the tree
// ---------------------------------------------------------------------------

pub enum ExprModel {
    Number(i64),
    Bool(bool),
    Ident(Seq<char>),
    Unary(UnaryOperator, Box<ExprModel>),
    Binary(BinaryOperator, Box<ExprModel>, Box<ExprModel>),
    Logical(LogicalOperator, Box<ExprModel>, Box<ExprModel>),
    Assign(Box<ExprModel>, AssignOperator, Box<ExprModel>),
}

pub enum StmtModel {
    Program(Seq<StmtModel>),
    VarDecl(Seq<char>, bool, ExprModel),
    If(ExprModel, Box<StmtModel>, Option<Box<StmtModel>>),
    Block(Seq<StmtModel>),
    ExprStmt(ExprModel),
}

impl Expr {
    pub open spec fn model(&self) -> ExprModel
        decreases self,
    {
        match self {
            Expr::Binary(b) => ExprModel::Binary(
                b.operator,
                Box::new(b.left.model()),
                Box::new(b.right.model()),
            ),
            Expr::Logical(l) => ExprModel::Logical(
                l.operator,
                Box::new(l.left.model()),
                Box::new(l.right.model()),
            ),
            Expr::Identifier(i) => ExprModel::Ident(i.symbol@),
            Expr::NumericLiteral(n) => ExprModel::Number(n.value),
            Expr::BooleanLiteral(b) => ExprModel::Bool(b.value),
            Expr::AssignmentExpr(a) => ExprModel::Assign(
                Box::new(a.assignee.model()),
                a.operator,
                Box::new(a.value.model()),
            ),
            Expr::UnaryExpr(u) => ExprModel::Unary(u.operator, Box::new(u.value.model())),
        }
    }

    pub fn node_type(&self) -> (r: NodeType) {
        match self {
            Expr::Binary(_) => NodeType::BinaryExpr,
            Expr::Logical(_) => NodeType::LogicalExpr,
            Expr::Identifier(_) => NodeType::Identifier,
            Expr::NumericLiteral(_) => NodeType::NumericLiteral,
            Expr::BooleanLiteral(_) => NodeType::BooleanLiteral,
            Expr::AssignmentExpr(_) => NodeType::AssignmentExpr,
            Expr::UnaryExpr(_) => NodeType::UnaryExpr,
        }
    }
}

/// The models of a sequence of statements, in order.
pub open spec fn stmts_model(s: Seq<Stmt>) -> Seq<StmtModel>
    decreases s,
{
    if s.len() == 0 {
        Seq::empty()
    } else {
        stmts_model(s.drop_last()).push(s.last().model())
    }
}

impl Stmt {
    pub open spec fn model(&self) -> StmtModel
        decreases self,
    {
        match self {
            Stmt::Program(p) => StmtModel::Program(stmts_model(p.body@)),
            Stmt::VariableDeclaration(v) => StmtModel::VarDecl(
                v.identifier@,
                v.constant,
                v.value.model(),
            ),
            Stmt::IfStatement(i) => StmtModel::If(
                i.test.model(),
                Box::new(i.body.model()),
                match i.alternate {
                    Some(a) => Some(Box::new(a.model())),
                    None => None,
                },
            ),
            Stmt::BlockStatement(b) => StmtModel::Block(stmts_model(b.body@)),
            Stmt::Expr(e) => StmtModel::ExprStmt(e.model()),
        }
    }

    pub fn node_type(&self) -> (r: NodeType) {
        match self {
            Stmt::Program(_) => NodeType::Program,
            Stmt::VariableDeclaration(_) => NodeType::VariableDeclaration,
            Stmt::IfStatement(_) => NodeType::IfStatement,
            Stmt::BlockStatement(_) => NodeType::BlockStatement,
            Stmt::Expr(e) => e.node_type(),
        }
    }
}

pub proof fn lemma_stmts_model(s: Seq<Stmt>)
    ensures
        stmts_model(s).len() == s.len(),
        forall|i: int| 0 <= i < s.len() ==> #[trigger] stmts_model(s)[i] == s[i].model(),
    decreases s.len(),
{
    if s.len() > 0 {
        lemma_stmts_model(s.drop_last());
    }
}

} // verus!
