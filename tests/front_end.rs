use cobalt_lang::ast::{BinaryOperator, Expr, Stmt};
use cobalt_lang::lexer::{LexError, Lexer};
use cobalt_lang::parser::{ParseError, ParseErrorKind, Parser};
use cobalt_lang::tokens::{Token, TokenType};

fn lex(src: &str) -> Result<Vec<Token>, LexError> {
    Lexer::new(src.chars().collect()).lex()
}

fn kinds(src: &str) -> Vec<TokenType> {
    lex(src).expect("lexes").iter().map(|t| t.kind).collect()
}

fn parse(src: &str) -> Result<Vec<Stmt>, ParseError> {
    Parser::new(lex(src).expect("lexes")).produce_ast().map(|p| p.body)
}

#[test]
fn lex_empty_source_is_just_the_end() {
    assert_eq!(kinds(""), vec![TokenType::EndOfInput]);
}

#[test]
fn lex_keywords_identifiers_and_numbers() {
    let tokens = lex("let x = 42\nconst if_ = true").unwrap();
    let got: Vec<(TokenType, &str)> = tokens.iter().map(|t| (t.kind, t.value.as_str())).collect();
    assert_eq!(
        got,
        vec![
            (TokenType::Let, "let"),
            (TokenType::Identifier, "x"),
            (TokenType::Equals, "="),
            (TokenType::Number, "42"),
            (TokenType::Const, "const"),
            (TokenType::Identifier, "if_"),
            (TokenType::Equals, "="),
            (TokenType::True, "true"),
            (TokenType::EndOfInput, ""),
        ]
    );
}

#[test]
fn lex_all_keywords() {
    assert_eq!(
        kinds("let const fn return if else true false"),
        vec![
            TokenType::Let,
            TokenType::Const,
            TokenType::Fn,
            TokenType::Return,
            TokenType::If,
            TokenType::Else,
            TokenType::True,
            TokenType::False,
            TokenType::EndOfInput,
        ]
    );
}

#[test]
fn lex_longest_match() {
    assert_eq!(
        kinds("== != <= >= += -= *= /= %= && ||"),
        vec![
            TokenType::EqualsEquals,
            TokenType::NotEqual,
            TokenType::LessThanEqual,
            TokenType::GreaterThanEqual,
            TokenType::PlusEquals,
            TokenType::MinusEquals,
            TokenType::StarEquals,
            TokenType::SlashEquals,
            TokenType::PercentEquals,
            TokenType::And,
            TokenType::Or,
            TokenType::EndOfInput,
        ]
    );
    assert_eq!(
        kinds("= ! < > + - * / % ( ) { } :"),
        vec![
            TokenType::Equals,
            TokenType::Not,
            TokenType::LessThan,
            TokenType::GreaterThan,
            TokenType::Plus,
            TokenType::Minus,
            TokenType::Star,
            TokenType::Slash,
            TokenType::Percent,
            TokenType::OpenParen,
            TokenType::CloseParen,
            TokenType::OpenBrace,
            TokenType::CloseBrace,
            TokenType::Colon,
            TokenType::EndOfInput,
        ]
    );
}

#[test]
fn lex_skips_comments_and_whitespace() {
    assert_eq!(kinds("# a comment\n\t1 # trailing"), vec![TokenType::Number, TokenType::EndOfInput]);
}

#[test]
fn lex_rejects_lone_pipe_and_ampersand() {
    assert_eq!(lex("a | b").unwrap_err(), LexError::IncompleteOperator { position: 2, ch: '|' });
    assert_eq!(lex("a &").unwrap_err(), LexError::IncompleteOperator { position: 2, ch: '&' });
}

#[test]
fn lex_rejects_unknown_character() {
    assert_eq!(lex("1 @ 2").unwrap_err(), LexError::UnexpectedChar { position: 2, ch: '@' });
    assert_eq!(lex("\"s\"").unwrap_err(), LexError::UnexpectedChar { position: 0, ch: '"' });
}

fn expr_of(stmt: &Stmt) -> &Expr {
    match stmt {
        Stmt::Expr(e) => e,
        other => panic!("expected an expression statement, got {:?}", other),
    }
}

fn number(e: &Expr) -> i64 {
    match e {
        Expr::NumericLiteral(n) => n.value,
        other => panic!("expected a number, got {:?}", other),
    }
}

#[test]
fn parse_precedence_and_associativity() {
    let body = parse("1 + 2 * 3").unwrap();
    match expr_of(&body[0]) {
        Expr::Binary(b) => {
            assert_eq!(b.operator, BinaryOperator::Add);
            assert_eq!(number(&b.left), 1);
            match &*b.right {
                Expr::Binary(m) => assert_eq!(m.operator, BinaryOperator::Mul),
                other => panic!("expected a product, got {:?}", other),
            }
        }
        other => panic!("expected a sum, got {:?}", other),
    }
    let body = parse("8 - 2 - 1").unwrap();
    match expr_of(&body[0]) {
        Expr::Binary(b) => {
            assert_eq!(b.operator, BinaryOperator::Sub);
            assert_eq!(number(&b.right), 1);
        }
        other => panic!("expected a difference, got {:?}", other),
    }
}

#[test]
fn parse_assignment_is_right_associative() {
    let body = parse("let a = 1 let b = 2 a = b = 3").unwrap();
    assert_eq!(body.len(), 3);
    match expr_of(&body[2]) {
        Expr::AssignmentExpr(a) => {
            assert!(matches!(&*a.assignee, Expr::Identifier(i) if i.symbol == "a"));
            assert!(matches!(&*a.value, Expr::AssignmentExpr(_)));
        }
        other => panic!("expected an assignment, got {:?}", other),
    }
}

#[test]
fn parse_dangling_else_binds_to_nearest_if() {
    let body = parse("if true if false 1 else 2").unwrap();
    assert_eq!(body.len(), 1);
    match &body[0] {
        Stmt::IfStatement(outer) => {
            assert!(outer.alternate.is_none());
            assert!(matches!(&*outer.body, Stmt::IfStatement(inner) if inner.alternate.is_some()));
        }
        other => panic!("expected an if statement, got {:?}", other),
    }
}

#[test]
fn parse_errors() {
    let e = parse("1 = 2").unwrap_err();
    assert_eq!(e.kind, ParseErrorKind::InvalidAssignmentTarget);
    assert_eq!(e.position, 1);
    let e = parse("{ let a = 1").unwrap_err();
    assert_eq!(e.kind, ParseErrorKind::Expected(TokenType::CloseBrace));
    assert_eq!(e.found, TokenType::EndOfInput);
    let e = parse("let x 1").unwrap_err();
    assert_eq!(e.kind, ParseErrorKind::Expected(TokenType::Equals));
    let e = parse("let = 1").unwrap_err();
    assert_eq!(e.kind, ParseErrorKind::Expected(TokenType::Identifier));
    let e = parse("(1 + 2").unwrap_err();
    assert_eq!(e.kind, ParseErrorKind::Expected(TokenType::CloseParen));
    let e = parse("1 + )").unwrap_err();
    assert_eq!(e.kind, ParseErrorKind::UnexpectedToken);
    assert_eq!(e.position, 2);
    assert_eq!(e.found, TokenType::CloseParen);
}

#[test]
fn parse_number_limits() {
    let body = parse("9223372036854775807").unwrap();
    assert_eq!(number(expr_of(&body[0])), i64::MAX);
    let e = parse("9223372036854775808").unwrap_err();
    assert_eq!(e.kind, ParseErrorKind::InvalidNumber);
}
