use tinylang::ast::{BinOp, Block, CmpOp, Expr, Program, Stmt};
use tinylang::lexer::lex;
use tinylang::parser::{parse, try_parse, Expected, ParseError};

fn num(n: i64) -> Expr {
    Expr::Num(n)
}

fn id(s: &str) -> Expr {
    Expr::Ident(s.to_string())
}

fn bin(op: BinOp, l: Expr, r: Expr) -> Expr {
    Expr::Bin { op, left: Box::new(l), right: Box::new(r) }
}

fn cmp(op: CmpOp, l: Expr, r: Expr) -> Expr {
    Expr::Cmp { op, left: Box::new(l), right: Box::new(r) }
}

fn let_(name: &str, value: Expr) -> Stmt {
    Stmt::Let { name: name.to_string(), value }
}

fn block(stmts: Vec<Stmt>, result: Expr) -> Block {
    Block { stmts, result }
}

fn program(src: &str) -> Program {
    parse(lex(src))
}

fn parse_err(src: &str) -> ParseError {
    try_parse(lex(src)).unwrap_err()
}

#[test]
fn precedence_of_mul_over_add() {
    let p = program("1 + 2 * 3");
    assert!(p.stmts.is_empty());
    assert_eq!(p.result, bin(BinOp::Add, num(1), bin(BinOp::Mul, num(2), num(3))));
}

#[test]
fn parens_override_precedence() {
    assert_eq!(
        program("(1 + 2) * 3").result,
        bin(BinOp::Mul, bin(BinOp::Add, num(1), num(2)), num(3))
    );
}

#[test]
fn subtraction_is_left_associative() {
    assert_eq!(
        program("1 - 2 - 3").result,
        bin(BinOp::Sub, bin(BinOp::Sub, num(1), num(2)), num(3))
    );
}

#[test]
fn division_is_left_associative() {
    assert_eq!(
        program("100 / 3 / 2").result,
        bin(BinOp::Div, bin(BinOp::Div, num(100), num(3)), num(2))
    );
}

#[test]
fn unary_minus_binds_tighter_than_mul() {
    assert_eq!(
        program("-(2 + 3) * 4").result,
        bin(
            BinOp::Mul,
            Expr::Neg(Box::new(bin(BinOp::Add, num(2), num(3)))),
            num(4)
        )
    );
    assert_eq!(
        program("-5 + 10").result,
        bin(BinOp::Add, Expr::Neg(Box::new(num(5))), num(10))
    );
    assert_eq!(program("--1").result, Expr::Neg(Box::new(Expr::Neg(Box::new(num(1))))));
}

#[test]
fn let_bindings_then_result() {
    let p = program("let x = 5; let y = 10; x + y");
    assert_eq!(p.stmts, vec![let_("x", num(5)), let_("y", num(10))]);
    assert_eq!(p.result, bin(BinOp::Add, id("x"), id("y")));
}

#[test]
fn comparison_is_lowest() {
    assert_eq!(
        program("(1 + 2) * 3 == 9").result,
        cmp(
            CmpOp::Eq,
            bin(BinOp::Mul, bin(BinOp::Add, num(1), num(2)), num(3)),
            num(9)
        )
    );
}

#[test]
fn every_comparison_operator() {
    let ops = [
        ("<", CmpOp::Lt),
        (">", CmpOp::Gt),
        ("<=", CmpOp::Le),
        (">=", CmpOp::Ge),
        ("==", CmpOp::Eq),
        ("!=", CmpOp::Ne),
    ];
    for (text, op) in ops {
        assert_eq!(program(&format!("a {} b", text)).result, cmp(op, id("a"), id("b")));
    }
}

#[test]
fn comparisons_do_not_chain() {
    assert_eq!(parse_err("a < b < c"), ParseError::TrailingTokens { at: 3 });
    assert_eq!(parse_err("1 == 1 == 1"), ParseError::TrailingTokens { at: 3 });
}

#[test]
fn if_expression() {
    assert_eq!(
        program("if 1 < 2 { 10 } else { 20 }").result,
        Expr::If {
            cond: Box::new(cmp(CmpOp::Lt, num(1), num(2))),
            then_branch: Box::new(block(vec![], num(10))),
            else_branch: Box::new(block(vec![], num(20))),
        }
    );
}

#[test]
fn if_branches_may_bind() {
    assert_eq!(
        program("if true { let a = 1; a } else { false }").result,
        Expr::If {
            cond: Box::new(Expr::Bool(true)),
            then_branch: Box::new(block(vec![let_("a", num(1))], id("a"))),
            else_branch: Box::new(block(vec![], Expr::Bool(false))),
        }
    );
}

#[test]
fn block_expression() {
    assert_eq!(
        program("{ let a = 1; let b = 2; a + b }").result,
        Expr::Block(Box::new(block(
            vec![let_("a", num(1)), let_("b", num(2))],
            bin(BinOp::Add, id("a"), id("b"))
        )))
    );
}

#[test]
fn block_as_operand() {
    assert_eq!(
        program("{ 1 } + 2").result,
        bin(BinOp::Add, Expr::Block(Box::new(block(vec![], num(1)))), num(2))
    );
}

#[test]
fn let_value_may_be_an_if() {
    let p = program("let x = if true { 1 } else { 2 }; x");
    assert_eq!(p.stmts.len(), 1);
    assert_eq!(p.result, id("x"));
}

#[test]
fn empty_input_is_an_error() {
    assert_eq!(parse_err(""), ParseError::Expected { what: Expected::Primary, at: 0 });
}

#[test]
fn trailing_tokens_are_an_error() {
    assert_eq!(parse_err("1 2"), ParseError::TrailingTokens { at: 1 });
    assert_eq!(parse_err("1 ; 2"), ParseError::TrailingTokens { at: 1 });
}

#[test]
fn let_errors() {
    assert_eq!(parse_err("let 5 = 3; 1"), ParseError::Expected { what: Expected::Ident, at: 1 });
    assert_eq!(parse_err("let x 5; x"), ParseError::Expected { what: Expected::Assign, at: 2 });
    assert_eq!(parse_err("let x = 5 x"), ParseError::Expected { what: Expected::Semi, at: 4 });
    assert_eq!(parse_err("let x = 5;"), ParseError::Expected { what: Expected::Primary, at: 5 });
    assert_eq!(parse_err("let"), ParseError::Expected { what: Expected::Ident, at: 1 });
}

#[test]
fn let_is_reserved() {
    assert_eq!(parse_err("let let = 1; 2"), ParseError::Expected { what: Expected::Ident, at: 1 });
}

#[test]
fn paren_and_brace_errors() {
    assert_eq!(parse_err("(1 + 2"), ParseError::Expected { what: Expected::RParen, at: 4 });
    assert_eq!(parse_err("{ 1"), ParseError::Expected { what: Expected::RBrace, at: 2 });
    assert_eq!(parse_err(")"), ParseError::Expected { what: Expected::Primary, at: 0 });
    assert_eq!(parse_err("1 +"), ParseError::Expected { what: Expected::Primary, at: 2 });
}

#[test]
fn if_errors() {
    assert_eq!(parse_err("if 1 { 2 }"), ParseError::Expected { what: Expected::Else, at: 5 });
    assert_eq!(parse_err("if 1 2"), ParseError::Expected { what: Expected::LBrace, at: 2 });
    assert_eq!(
        parse_err("if 1 { 2 } else 3"),
        ParseError::Expected { what: Expected::LBrace, at: 6 }
    );
    assert_eq!(
        parse_err("if 1 { 2 } else { 3"),
        ParseError::Expected { what: Expected::RBrace, at: 8 }
    );
}
