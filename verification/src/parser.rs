//! A recursive-descent parser. The grammar is stated by the spec functions
//! `p_*` (one per rule) and `spec_parse`; the parser follows it exactly.
use vstd::prelude::*;

use crate::ast::{BinOp, Block, BlockV, CmpOp, Expr, ExprV, Program, Stmt, StmtV};
use crate::lexer::{Token, TokenV, tokens_view};

verus! {

/// What the parser was looking for when it met a token it could not use.
#[derive(Debug, Clone, Copy, PartialEq, Eq, Structural)]
pub enum Expected {
    /// the keyword `let`
    Let,
    /// an identifier after `let`
    Ident,
    /// `=` after the name in a `let`
    Assign,
    /// `;` after the value in a `let`
    Semi,
    /// `)` closing a parenthesised expression
    RParen,
    /// `{` opening a block
    LBrace,
    /// `}` closing a block
    RBrace,
    /// `else` after the then-block of an `if`
    Else,
    /// the start of a primary expression
    Primary,
}

/// Why a token sequence is not a program. `at` is the index of the offending
/// token (the number of tokens when the input ended too early).
#[derive(Debug, Clone, Copy, PartialEq, Eq, Structural)]
pub enum ParseError {
    /// The token at `at` (or the end of input) is not what the grammar allows there.
    Expected { what: Expected, at: usize },
    /// A complete program ends before the token at `at`.
    TrailingTokens { at: usize },
}

pub open spec fn tok(t: Seq<TokenV>, p: int) -> Option<TokenV> {
    if 0 <= p < t.len() {
        Some(t[p])
    } else {
        None
    }
}

pub open spec fn expected(what: Expected, p: int) -> ParseError {
    ParseError::Expected { what, at: p as usize }
}

/// A position that a sub-parse may hand back to a caller that started at `p`.
pub open spec fn advanced(t: Seq<TokenV>, p: int, q: int) -> bool {
    p < q <= t.len()
}

pub open spec fn cmp_op_of(t: Option<TokenV>) -> Option<CmpOp> {
    match t {
        Some(TokenV::Lt) => Some(CmpOp::Lt),
        Some(TokenV::Gt) => Some(CmpOp::Gt),
        Some(TokenV::Le) => Some(CmpOp::Le),
        Some(TokenV::Ge) => Some(CmpOp::Ge),
        Some(TokenV::EqEq) => Some(CmpOp::Eq),
        Some(TokenV::BangEq) => Some(CmpOp::Ne),
        _ => None,
    }
}

pub open spec fn add_op_of(t: Option<TokenV>) -> Option<BinOp> {
    match t {
        Some(TokenV::Plus) => Some(BinOp::Add),
        Some(TokenV::Minus) => Some(BinOp::Sub),
        _ => None,
    }
}

pub open spec fn mul_op_of(t: Option<TokenV>) -> Option<BinOp> {
    match t {
        Some(TokenV::Star) => Some(BinOp::Mul),
        Some(TokenV::Slash) => Some(BinOp::Div),
        _ => None,
    }
}

/// `block_body = { let_stmt } expr`, from position `p`.
pub open spec fn p_block_body(t: Seq<TokenV>, p: int) -> Result<(BlockV, int), ParseError>
    decreases t.len() - p, 7int,
{
    if p < 0 || p > t.len() {
        Err(expected(Expected::Primary, p))
    } else {
        match p_lets(t, p) {
            Ok((stmts, p1)) => if p <= p1 <= t.len() {
                match p_expr(t, p1) {
                    Ok((e, p2)) => Ok((BlockV { stmts, result: e }, p2)),
                    Err(err) => Err(err),
                }
            } else {
                Err(expected(Expected::Primary, p1))
            },
            Err(err) => Err(err),
        }
    }
}

/// The `let` statements that start at `p` (as long as the next token is `let`).
pub open spec fn p_lets(t: Seq<TokenV>, p: int) -> Result<(Seq<StmtV>, int), ParseError>
    decreases t.len() - p, 6int,
{
    if p < 0 || p > t.len() {
        Err(expected(Expected::Let, p))
    } else {
        match tok(t, p) {
            Some(TokenV::Let) => match p_let(t, p) {
                Ok((s, p1)) => if advanced(t, p, p1) {
                    match p_lets(t, p1) {
                        Ok((rest, p2)) => Ok((seq![s] + rest, p2)),
                        Err(err) => Err(err),
                    }
                } else {
                    Err(expected(Expected::Let, p1))
                },
                Err(err) => Err(err),
            },
            _ => Ok((seq![], p)),
        }
    }
}

/// `let_stmt = "let" IDENT "=" expr ";"`
pub open spec fn p_let(t: Seq<TokenV>, p: int) -> Result<(StmtV, int), ParseError>
    decreases t.len() - p, 5int,
{
    if p < 0 || p > t.len() {
        Err(expected(Expected::Let, p))
    } else {
        match tok(t, p) {
            Some(TokenV::Let) => match tok(t, p + 1) {
                Some(TokenV::Ident(name)) => match tok(t, p + 2) {
                    Some(TokenV::Eq) => match p_expr(t, p + 3) {
                        Ok((value, q)) => if advanced(t, p, q) {
                            match tok(t, q) {
                                Some(TokenV::Semi) => Ok((StmtV::Let { name, value }, q + 1)),
                                _ => Err(expected(Expected::Semi, q)),
                            }
                        } else {
                            Err(expected(Expected::Semi, q))
                        },
                        Err(err) => Err(err),
                    },
                    _ => Err(expected(Expected::Assign, p + 2)),
                },
                _ => Err(expected(Expected::Ident, p + 1)),
            },
            _ => Err(expected(Expected::Let, p)),
        }
    }
}

/// `expr = cmp_expr`
pub open spec fn p_expr(t: Seq<TokenV>, p: int) -> Result<(ExprV, int), ParseError>
    decreases t.len() - p, 4int,
{
    if p < 0 || p > t.len() {
        Err(expected(Expected::Primary, p))
    } else {
        p_cmp(t, p)
    }
}

/// `cmp_expr = add_expr [ cmp_op add_expr ]`: at most one comparison.
pub open spec fn p_cmp(t: Seq<TokenV>, p: int) -> Result<(ExprV, int), ParseError>
    decreases t.len() - p, 3int,
{
    if p < 0 || p > t.len() {
        Err(expected(Expected::Primary, p))
    } else {
        match p_add(t, p) {
            Ok((left, p1)) => if advanced(t, p, p1) {
                match cmp_op_of(tok(t, p1)) {
                    Some(op) => match p_add(t, p1 + 1) {
                        Ok((right, p2)) => Ok(
                            (ExprV::Cmp { op, left: Box::new(left), right: Box::new(right) }, p2),
                        ),
                        Err(err) => Err(err),
                    },
                    None => Ok((left, p1)),
                }
            } else {
                Err(expected(Expected::Primary, p1))
            },
            Err(err) => Err(err),
        }
    }
}

/// `add_expr = mul_expr { ("+" | "-") mul_expr }`, left-associative.
pub open spec fn p_add(t: Seq<TokenV>, p: int) -> Result<(ExprV, int), ParseError>
    decreases t.len() - p, 2int,
{
    if p < 0 || p > t.len() {
        Err(expected(Expected::Primary, p))
    } else {
        match p_mul(t, p) {
            Ok((left, p1)) => if advanced(t, p, p1) {
                p_add_rest(t, left, p1)
            } else {
                Err(expected(Expected::Primary, p1))
            },
            Err(err) => Err(err),
        }
    }
}

/// The `("+" | "-") mul_expr` pairs that follow `left`, which ends before `p`.
pub open spec fn p_add_rest(t: Seq<TokenV>, left: ExprV, p: int) -> Result<(ExprV, int), ParseError>
    decreases t.len() - p, 1int,
{
    if p < 0 || p > t.len() {
        Err(expected(Expected::Primary, p))
    } else {
        match add_op_of(tok(t, p)) {
            Some(op) => match p_mul(t, p + 1) {
                Ok((right, q)) => if advanced(t, p, q) {
                    p_add_rest(
                        t,
                        ExprV::Bin { op, left: Box::new(left), right: Box::new(right) },
                        q,
                    )
                } else {
                    Err(expected(Expected::Primary, q))
                },
                Err(err) => Err(err),
            },
            None => Ok((left, p)),
        }
    }
}

/// `mul_expr = factor { ("*" | "/") factor }`, left-associative.
pub open spec fn p_mul(t: Seq<TokenV>, p: int) -> Result<(ExprV, int), ParseError>
    decreases t.len() - p, 1int,
{
    if p < 0 || p > t.len() {
        Err(expected(Expected::Primary, p))
    } else {
        match p_factor(t, p) {
            Ok((left, p1)) => if advanced(t, p, p1) {
                p_mul_rest(t, left, p1)
            } else {
                Err(expected(Expected::Primary, p1))
            },
            Err(err) => Err(err),
        }
    }
}

/// The `("*" | "/") factor` pairs that follow `left`, which ends before `p`.
pub open spec fn p_mul_rest(t: Seq<TokenV>, left: ExprV, p: int) -> Result<(ExprV, int), ParseError>
    decreases t.len() - p, 0int,
{
    if p < 0 || p > t.len() {
        Err(expected(Expected::Primary, p))
    } else {
        match mul_op_of(tok(t, p)) {
            Some(op) => match p_factor(t, p + 1) {
                Ok((right, q)) => if advanced(t, p, q) {
                    p_mul_rest(
                        t,
                        ExprV::Bin { op, left: Box::new(left), right: Box::new(right) },
                        q,
                    )
                } else {
                    Err(expected(Expected::Primary, q))
                },
                Err(err) => Err(err),
            },
            None => Ok((left, p)),
        }
    }
}

/// `factor = NUMBER | "true" | "false" | IDENT | "-" factor | "(" expr ")" | block | if_expr`
pub open spec fn p_factor(t: Seq<TokenV>, p: int) -> Result<(ExprV, int), ParseError>
    decreases t.len() - p, 0int,
{
    if p < 0 || p > t.len() {
        Err(expected(Expected::Primary, p))
    } else {
        match tok(t, p) {
            Some(TokenV::Num(n)) => Ok((ExprV::Num(n), p + 1)),
            Some(TokenV::True) => Ok((ExprV::Bool(true), p + 1)),
            Some(TokenV::False) => Ok((ExprV::Bool(false), p + 1)),
            Some(TokenV::Ident(s)) => Ok((ExprV::Ident(s), p + 1)),
            Some(TokenV::Minus) => match p_factor(t, p + 1) {
                Ok((e, q)) => Ok((ExprV::Neg(Box::new(e)), q)),
                Err(err) => Err(err),
            },
            Some(TokenV::LParen) => match p_expr(t, p + 1) {
                Ok((e, q)) => match tok(t, q) {
                    Some(TokenV::RParen) => Ok((e, q + 1)),
                    _ => Err(expected(Expected::RParen, q)),
                },
                Err(err) => Err(err),
            },
            Some(TokenV::LBrace) => match p_block_body(t, p + 1) {
                Ok((b, q)) => match tok(t, q) {
                    Some(TokenV::RBrace) => Ok((ExprV::Block(Box::new(b)), q + 1)),
                    _ => Err(expected(Expected::RBrace, q)),
                },
                Err(err) => Err(err),
            },
            Some(TokenV::If) => p_if(t, p + 1),
            _ => Err(expected(Expected::Primary, p)),
        }
    }
}

/// `if_expr = "if" expr block "else" block`, from the position after `if`.
pub open spec fn p_if(t: Seq<TokenV>, p: int) -> Result<(ExprV, int), ParseError>
    decreases t.len() - p, 9int,
{
    if p < 0 || p > t.len() {
        Err(expected(Expected::Primary, p))
    } else {
        match p_expr(t, p) {
            Ok((cond, q1)) => if advanced(t, p, q1) {
                match p_brace_block(t, q1) {
                    Ok((then_branch, q2)) => if advanced(t, p, q2) {
                        match tok(t, q2) {
                            Some(TokenV::Else) => match p_brace_block(t, q2 + 1) {
                                Ok((else_branch, q3)) => Ok(
                                    (
                                        ExprV::If {
                                            cond: Box::new(cond),
                                            then_branch: Box::new(then_branch),
                                            else_branch: Box::new(else_branch),
                                        },
                                        q3,
                                    ),
                                ),
                                Err(err) => Err(err),
                            },
                            _ => Err(expected(Expected::Else, q2)),
                        }
                    } else {
                        Err(expected(Expected::Else, q2))
                    },
                    Err(err) => Err(err),
                }
            } else {
                Err(expected(Expected::LBrace, q1))
            },
            Err(err) => Err(err),
        }
    }
}

/// `block = "{" { let_stmt } expr "}"`, as required after `if` and `else`.
pub open spec fn p_brace_block(t: Seq<TokenV>, p: int) -> Result<(BlockV, int), ParseError>
    decreases t.len() - p, 8int,
{
    if p < 0 || p > t.len() {
        Err(expected(Expected::LBrace, p))
    } else {
        match tok(t, p) {
            Some(TokenV::LBrace) => match p_block_body(t, p + 1) {
                Ok((b, q)) => match tok(t, q) {
                    Some(TokenV::RBrace) => Ok((b, q + 1)),
                    _ => Err(expected(Expected::RBrace, q)),
                },
                Err(err) => Err(err),
            },
            _ => Err(expected(Expected::LBrace, p)),
        }
    }
}

/// The program that a token sequence denotes: `{ let_stmt } expr` covering
/// every token, or the first error a left-to-right reading meets.
pub open spec fn spec_parse(t: Seq<TokenV>) -> Result<BlockV, ParseError> {
    match p_block_body(t, 0) {
        Ok((b, q)) => if q < t.len() {
            Err(ParseError::TrailingTokens { at: q as usize })
        } else {
            Ok(b)
        },
        Err(err) => Err(err),
    }
}


pub open spec fn expr_outcome(
    spec: Result<(ExprV, int), ParseError>,
    r: Result<Expr, ParseError>,
    pos: int,
) -> bool {
    match spec {
        Ok((e, q)) => r matches Ok(x) && x@ == e && pos == q,
        Err(err) => r == Err::<Expr, ParseError>(err),
    }
}

pub open spec fn block_outcome(
    spec: Result<(BlockV, int), ParseError>,
    r: Result<(Vec<Stmt>, Expr), ParseError>,
    pos: int,
) -> bool {
    match spec {
        Ok((b, q)) => r matches Ok((ss, e)) && crate::ast::stmts_view(ss@) == b.stmts && e@
            == b.result && pos == q,
        Err(err) => r == Err::<(Vec<Stmt>, Expr), ParseError>(err),
    }
}

pub open spec fn stmt_outcome(
    spec: Result<(StmtV, int), ParseError>,
    r: Result<Stmt, ParseError>,
    pos: int,
) -> bool {
    match spec {
        Ok((st, q)) => r matches Ok(x) && x@ == st && pos == q,
        Err(err) => r == Err::<Stmt, ParseError>(err),
    }
}

pub open spec fn stmts_then(
    pre: Seq<StmtV>,
    r: Result<(Seq<StmtV>, int), ParseError>,
) -> Result<(Seq<StmtV>, int), ParseError> {
    match r {
        Ok((ss, q)) => Ok((pre + ss, q)),
        Err(err) => Err(err),
    }
}

/// Recursive descent over a token vector, LL(1).
struct Parser {
    tokens: Vec<Token>,
    pos: usize,
}

/// A copy of a token.
fn copy_token(t: &Token) -> (r: Token)
    ensures
        r@ == t@,
{
    match t {
        Token::Num(n) => Token::Num(*n),
        Token::Ident(s) => Token::Ident(s.clone()),
        Token::Let => Token::Let,
        Token::If => Token::If,
        Token::Else => Token::Else,
        Token::True => Token::True,
        Token::False => Token::False,
        Token::Plus => Token::Plus,
        Token::Minus => Token::Minus,
        Token::Star => Token::Star,
        Token::Slash => Token::Slash,
        Token::LParen => Token::LParen,
        Token::RParen => Token::RParen,
        Token::LBrace => Token::LBrace,
        Token::RBrace => Token::RBrace,
        Token::Eq => Token::Eq,
        Token::Semi => Token::Semi,
        Token::Lt => Token::Lt,
        Token::Gt => Token::Gt,
        Token::Le => Token::Le,
        Token::Ge => Token::Ge,
        Token::EqEq => Token::EqEq,
        Token::BangEq => Token::BangEq,
    }
}

impl Parser {
    spec fn toks(&self) -> Seq<TokenV> {
        tokens_view(self.tokens@)
    }

    spec fn at(&self) -> int {
        self.pos as int
    }

    fn new(tokens: Vec<Token>) -> (p: Self)
        ensures
            p.tokens@ == tokens@,
            p.pos == 0,
    {
        Self { tokens, pos: 0 }
    }

    fn peek(&self) -> (r: Option<&Token>)
        ensures
            r matches Some(t) ==> self.pos < self.tokens.len() && t@ == self.toks()[self.at()],
            r is None <==> self.pos >= self.tokens.len(),
            r matches Some(t) ==> tok(self.toks(), self.at()) == Some(t@),
            r is None ==> tok(self.toks(), self.at()) is None,
    {
        if self.pos < self.tokens.len() {
            Some(&self.tokens[self.pos])
        } else {
            None
        }
    }

    /// Takes the token at the reading position, if there is one; the
    /// position moves one step on either way.
    fn advance(&mut self) -> (r: Option<Token>)
        requires
            old(self).pos <= old(self).tokens.len(),
            old(self).tokens.len() < usize::MAX,
        ensures
            final(self).tokens@ == old(self).tokens@,
            final(self).pos == old(self).pos + 1,
            r matches Some(t) ==> tok(old(self).toks(), old(self).at()) == Some(t@),
            r is None ==> tok(old(self).toks(), old(self).at()) is None,
            r is None <==> old(self).pos >= old(self).tokens.len(),
    {
        let t = if self.pos < self.tokens.len() {
            Some(copy_token(&self.tokens[self.pos]))
        } else {
            None
        };
        self.pos = self.pos + 1;
        t
    }

    fn parse_program(&mut self) -> (r: Result<Program, ParseError>)
        requires
            old(self).pos <= old(self).tokens.len(),
            old(self).tokens.len() < usize::MAX,
        ensures
            final(self).tokens@ == old(self).tokens@,
            final(self).pos <= final(self).tokens.len() + 1,
            r is Ok ==> final(self).pos <= final(self).tokens.len(),
            match p_block_body(old(self).toks(), old(self).at()) {
                Ok((b, q)) => r matches Ok(prog) && prog@ == b && final(self).pos == q,
                Err(err) => r == Err::<Program, ParseError>(err),
            },
    {
        let (stmts, result) = match self.parse_block_body() {
            Ok(x) => x,
            Err(e) => return Err(e),
        };
        Ok(Program { stmts, result })
    }

    fn parse_block_body(&mut self) -> (r: Result<(Vec<Stmt>, Expr), ParseError>)
        requires
            old(self).pos <= old(self).tokens.len(),
            old(self).tokens.len() < usize::MAX,
        ensures
            final(self).tokens@ == old(self).tokens@,
            final(self).pos <= final(self).tokens.len() + 1,
            r is Ok ==> final(self).pos <= final(self).tokens.len(),
            r is Ok ==> old(self).pos < final(self).pos,
            block_outcome(
                p_block_body(old(self).toks(), old(self).at()),
                r,
                final(self).at(),
            ),
        decreases old(self).tokens@.len() - old(self).pos, 7int,
    {
        let ghost t = self.toks();
        let ghost orig = self.tokens@;
        let ghost start = self.at();
        let mut stmts: Vec<Stmt> = Vec::new();
        proof {
            crate::ast::lemma_stmts_view_index(stmts@);
            assert(stmts_then(crate::ast::stmts_view(stmts@), p_lets(t, start)) == p_lets(t, start))
                by {
                if let Ok((ss, q)) = p_lets(t, start) {
                    assert(crate::ast::stmts_view(stmts@) + ss =~= ss);
                }
            }
        }
        loop
            invariant
                self.toks() == t,
                self.tokens@ == orig,
                orig == old(self).tokens@,
                start <= self.pos <= self.tokens.len(),
                self.tokens.len() < usize::MAX,
                start == old(self).pos,
                t.len() == self.tokens.len(),
                p_lets(t, start) == stmts_then(crate::ast::stmts_view(stmts@), p_lets(t, self.at())),
            ensures
                self.toks() == t,
                self.tokens@ == orig,
                start <= self.pos <= self.tokens.len(),
                self.tokens.len() < usize::MAX,
                p_lets(t, start) == Ok::<_, ParseError>((crate::ast::stmts_view(stmts@), self.at())),
            decreases self.tokens.len() - self.pos,
        {
            let is_let = match self.peek() {
                Some(Token::Let) => true,
                _ => false,
            };
            if !is_let {
                proof {
                    let pre = crate::ast::stmts_view(stmts@);
                    assert(pre + Seq::<StmtV>::empty() =~= pre);
                }
                break ;
            }
            let ghost before = self.at();
            let s = match self.parse_let_stmt() {
                Ok(s) => s,
                Err(e) => return Err(e),
            };
            proof {
                crate::ast::lemma_stmts_view_push(stmts@, s);
                let pre = crate::ast::stmts_view(stmts@);
                if let Ok((rest, q)) = p_lets(t, self.at()) {
                    assert(pre + (seq![s@] + rest) =~= pre.push(s@) + rest);
                }
            }
            stmts.push(s);
        }
        let result = match self.parse_expr() {
            Ok(e) => e,
            Err(e) => return Err(e),
        };
        Ok((stmts, result))
    }

    fn parse_let_stmt(&mut self) -> (r: Result<Stmt, ParseError>)
        requires
            old(self).pos <= old(self).tokens.len(),
            old(self).tokens.len() < usize::MAX,
        ensures
            final(self).tokens@ == old(self).tokens@,
            final(self).pos <= final(self).tokens.len() + 1,
            r is Ok ==> final(self).pos <= final(self).tokens.len(),
            r is Ok ==> old(self).pos < final(self).pos,
            stmt_outcome(p_let(old(self).toks(), old(self).at()), r, final(self).at()),
        decreases old(self).tokens@.len() - old(self).pos, 5int,
    {
        let start = self.pos;
        match self.advance() {
            Some(Token::Let) => {},
            _ => return Err(ParseError::Expected { what: Expected::Let, at: start }),
        }
        let at = self.pos;
        let name = match self.advance() {
            Some(Token::Ident(s)) => s,
            _ => return Err(ParseError::Expected { what: Expected::Ident, at }),
        };
        let at = self.pos;
        match self.advance() {
            Some(Token::Eq) => {},
            _ => return Err(ParseError::Expected { what: Expected::Assign, at }),
        }
        let value = match self.parse_expr() {
            Ok(e) => e,
            Err(e) => return Err(e),
        };
        let at = self.pos;
        match self.advance() {
            Some(Token::Semi) => {},
            _ => return Err(ParseError::Expected { what: Expected::Semi, at }),
        }
        Ok(Stmt::Let { name, value })
    }

    fn parse_expr(&mut self) -> (r: Result<Expr, ParseError>)
        requires
            old(self).pos <= old(self).tokens.len(),
            old(self).tokens.len() < usize::MAX,
        ensures
            final(self).tokens@ == old(self).tokens@,
            final(self).pos <= final(self).tokens.len() + 1,
            r is Ok ==> final(self).pos <= final(self).tokens.len(),
            r is Ok ==> old(self).pos < final(self).pos,
            expr_outcome(p_expr(old(self).toks(), old(self).at()), r, final(self).at()),
        decreases old(self).tokens@.len() - old(self).pos, 4int,
    {
        self.parse_cmp_expr()
    }

    fn parse_cmp_expr(&mut self) -> (r: Result<Expr, ParseError>)
        requires
            old(self).pos <= old(self).tokens.len(),
            old(self).tokens.len() < usize::MAX,
        ensures
            final(self).tokens@ == old(self).tokens@,
            final(self).pos <= final(self).tokens.len() + 1,
            r is Ok ==> final(self).pos <= final(self).tokens.len(),
            r is Ok ==> old(self).pos < final(self).pos,
            expr_outcome(p_cmp(old(self).toks(), old(self).at()), r, final(self).at()),
        decreases old(self).tokens@.len() - old(self).pos, 3int,
    {
        let left = match self.parse_add_expr() {
            Ok(e) => e,
            Err(e) => return Err(e),
        };
        let op = match self.peek() {
            Some(Token::Lt) => CmpOp::Lt,
            Some(Token::Gt) => CmpOp::Gt,
            Some(Token::Le) => CmpOp::Le,
            Some(Token::Ge) => CmpOp::Ge,
            Some(Token::EqEq) => CmpOp::Eq,
            Some(Token::BangEq) => CmpOp::Ne,
            _ => return Ok(left),
        };
        self.advance();
        let right = match self.parse_add_expr() {
            Ok(e) => e,
            Err(e) => return Err(e),
        };
        Ok(Expr::Cmp { op, left: Box::new(left), right: Box::new(right) })
    }

    fn parse_add_expr(&mut self) -> (r: Result<Expr, ParseError>)
        requires
            old(self).pos <= old(self).tokens.len(),
            old(self).tokens.len() < usize::MAX,
        ensures
            final(self).tokens@ == old(self).tokens@,
            final(self).pos <= final(self).tokens.len() + 1,
            r is Ok ==> final(self).pos <= final(self).tokens.len(),
            r is Ok ==> old(self).pos < final(self).pos,
            expr_outcome(p_add(old(self).toks(), old(self).at()), r, final(self).at()),
        decreases old(self).tokens@.len() - old(self).pos, 2int,
    {
        let ghost t = self.toks();
        let ghost orig = self.tokens@;
        let ghost start = self.at();
        let mut left = match self.parse_mul_expr() {
            Ok(e) => e,
            Err(e) => return Err(e),
        };
        loop
            invariant
                self.toks() == t,
                self.tokens@ == orig,
                orig == old(self).tokens@,
                t.len() == self.tokens.len(),
                start == old(self).pos,
                start < self.pos <= self.tokens.len(),
                self.tokens.len() < usize::MAX,
                p_add(t, start) == p_add_rest(t, left@, self.at()),
            decreases self.tokens.len() - self.pos,
        {
            let op = match self.peek() {
                Some(Token::Plus) => BinOp::Add,
                Some(Token::Minus) => BinOp::Sub,
                _ => return Ok(left),
            };
            self.advance();
            let right = match self.parse_mul_expr() {
                Ok(e) => e,
                Err(e) => return Err(e),
            };
            left = Expr::Bin { op, left: Box::new(left), right: Box::new(right) };
        }
    }

    fn parse_mul_expr(&mut self) -> (r: Result<Expr, ParseError>)
        requires
            old(self).pos <= old(self).tokens.len(),
            old(self).tokens.len() < usize::MAX,
        ensures
            final(self).tokens@ == old(self).tokens@,
            final(self).pos <= final(self).tokens.len() + 1,
            r is Ok ==> final(self).pos <= final(self).tokens.len(),
            r is Ok ==> old(self).pos < final(self).pos,
            expr_outcome(p_mul(old(self).toks(), old(self).at()), r, final(self).at()),
        decreases old(self).tokens@.len() - old(self).pos, 1int,
    {
        let ghost t = self.toks();
        let ghost orig = self.tokens@;
        let ghost start = self.at();
        let mut left = match self.parse_factor() {
            Ok(e) => e,
            Err(e) => return Err(e),
        };
        loop
            invariant
                self.toks() == t,
                self.tokens@ == orig,
                orig == old(self).tokens@,
                t.len() == self.tokens.len(),
                start == old(self).pos,
                start < self.pos <= self.tokens.len(),
                self.tokens.len() < usize::MAX,
                p_mul(t, start) == p_mul_rest(t, left@, self.at()),
            decreases self.tokens.len() - self.pos,
        {
            let op = match self.peek() {
                Some(Token::Star) => BinOp::Mul,
                Some(Token::Slash) => BinOp::Div,
                _ => return Ok(left),
            };
            self.advance();
            let right = match self.parse_factor() {
                Ok(e) => e,
                Err(e) => return Err(e),
            };
            left = Expr::Bin { op, left: Box::new(left), right: Box::new(right) };
        }
    }

    fn parse_factor(&mut self) -> (r: Result<Expr, ParseError>)
        requires
            old(self).pos <= old(self).tokens.len(),
            old(self).tokens.len() < usize::MAX,
        ensures
            final(self).tokens@ == old(self).tokens@,
            final(self).pos <= final(self).tokens.len() + 1,
            r is Ok ==> final(self).pos <= final(self).tokens.len(),
            r is Ok ==> old(self).pos < final(self).pos,
            expr_outcome(p_factor(old(self).toks(), old(self).at()), r, final(self).at()),
        decreases old(self).tokens@.len() - old(self).pos, 0int,
    {
        let start = self.pos;
        match self.advance() {
            Some(Token::Num(n)) => Ok(Expr::Num(n)),
            Some(Token::True) => Ok(Expr::Bool(true)),
            Some(Token::False) => Ok(Expr::Bool(false)),
            Some(Token::Ident(s)) => Ok(Expr::Ident(s)),
            Some(Token::Minus) => {
                let e = match self.parse_factor() {
                    Ok(e) => e,
                    Err(e) => return Err(e),
                };
                Ok(Expr::Neg(Box::new(e)))
            },
            Some(Token::LParen) => {
                let e = match self.parse_expr() {
                    Ok(e) => e,
                    Err(e) => return Err(e),
                };
                let at = self.pos;
                match self.advance() {
                    Some(Token::RParen) => Ok(e),
                    _ => Err(ParseError::Expected { what: Expected::RParen, at }),
                }
            },
            Some(Token::LBrace) => {
                let (stmts, result) = match self.parse_block_body() {
                    Ok(x) => x,
                    Err(e) => return Err(e),
                };
                let at = self.pos;
                let blk = Block { stmts, result };
                assert(blk@ == BlockV {
                    stmts: crate::ast::stmts_view(blk.stmts@),
                    result: blk.result@,
                });
                match self.advance() {
                    Some(Token::RBrace) => Ok(Expr::Block(Box::new(blk))),
                    _ => Err(ParseError::Expected { what: Expected::RBrace, at }),
                }
            },
            Some(Token::If) => self.parse_if(),
            _ => Err(ParseError::Expected { what: Expected::Primary, at: start }),
        }
    }

    /// The rest of an `if` expression, after the `if` token.
    fn parse_if(&mut self) -> (r: Result<Expr, ParseError>)
        requires
            old(self).pos <= old(self).tokens.len(),
            old(self).tokens.len() < usize::MAX,
        ensures
            final(self).tokens@ == old(self).tokens@,
            final(self).pos <= final(self).tokens.len() + 1,
            r is Ok ==> final(self).pos <= final(self).tokens.len(),
            r is Ok ==> old(self).pos < final(self).pos,
            expr_outcome(p_if(old(self).toks(), old(self).at()), r, final(self).at()),
        decreases old(self).tokens@.len() - old(self).pos, 9int,
    {
        let cond = match self.parse_expr() {
            Ok(e) => e,
            Err(e) => return Err(e),
        };
        let then_branch = match self.parse_brace_block() {
            Ok(b) => b,
            Err(e) => return Err(e),
        };
        let at = self.pos;
        match self.advance() {
            Some(Token::Else) => {},
            _ => return Err(ParseError::Expected { what: Expected::Else, at }),
        }
        let else_branch = match self.parse_brace_block() {
            Ok(b) => b,
            Err(e) => return Err(e),
        };
        Ok(
            Expr::If {
                cond: Box::new(cond),
                then_branch: Box::new(then_branch),
                else_branch: Box::new(else_branch),
            },
        )
    }

    fn parse_brace_block(&mut self) -> (r: Result<Block, ParseError>)
        requires
            old(self).pos <= old(self).tokens.len(),
            old(self).tokens.len() < usize::MAX,
        ensures
            final(self).tokens@ == old(self).tokens@,
            final(self).pos <= final(self).tokens.len() + 1,
            r is Ok ==> final(self).pos <= final(self).tokens.len(),
            r is Ok ==> old(self).pos < final(self).pos,
            match p_brace_block(old(self).toks(), old(self).at()) {
                Ok((b, q)) => r matches Ok(x) && x@ == b && final(self).pos == q,
                Err(err) => r == Err::<Block, ParseError>(err),
            },
        decreases old(self).tokens@.len() - old(self).pos, 8int,
    {
        let start = self.pos;
        match self.advance() {
            Some(Token::LBrace) => {},
            _ => return Err(ParseError::Expected { what: Expected::LBrace, at: start }),
        }
        let (stmts, result) = match self.parse_block_body() {
            Ok(x) => x,
            Err(e) => return Err(e),
        };
        let at = self.pos;
        match self.advance() {
            Some(Token::RBrace) => {},
            _ => return Err(ParseError::Expected { what: Expected::RBrace, at }),
        }
        Ok(Block { stmts, result })
    }
}

/// Parses a token sequence into a program, or reports the first error.
/// The reading position may step one past the last token, so the list must
/// be shorter than `usize::MAX`.
pub fn try_parse(tokens: Vec<Token>) -> (r: Result<Program, ParseError>)
    requires
        tokens.len() < usize::MAX,
    ensures
        r is Ok <==> spec_parse(tokens_view(tokens@)) is Ok,
        r matches Ok(prog) ==> spec_parse(tokens_view(tokens@)) == Ok::<_, ParseError>(prog@),
        r matches Err(e) ==> spec_parse(tokens_view(tokens@)) == Err::<BlockV, _>(e),
{
    let mut p = Parser::new(tokens);
    let program = match p.parse_program() {
        Ok(prog) => prog,
        Err(e) => return Err(e),
    };
    if p.pos < p.tokens.len() {
        return Err(ParseError::TrailingTokens { at: p.pos });
    }
    Ok(program)
}

/// Parses a token sequence that forms a program: see `try_parse` for the
/// total version that reports why it does not.
pub fn parse(tokens: Vec<Token>) -> (prog: Program)
    requires
        tokens.len() < usize::MAX,
        spec_parse(tokens_view(tokens@)) is Ok,
    ensures
        spec_parse(tokens_view(tokens@)) == Ok::<_, ParseError>(prog@),
{
    match try_parse(tokens) {
        Ok(prog) => prog,
        Err(_) => {
            assert(false);
            Program { stmts: Vec::new(), result: Expr::Num(0) }
        },
    }
}

} // verus!
