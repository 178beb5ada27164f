//! The grammar read backwards: two printers that write a syntax tree as
//! tokens, one fully parenthesised and one with only the parentheses that
//! precedence and grouping need, and the laws that parsing what either
//! writes gives the tree back.
use vstd::prelude::*;

use crate::ast::{BinOp, BlockV, CmpOp, ExprV, StmtV};
use crate::lexer::TokenV;
use crate::parser::{
    add_op_of, cmp_op_of, mul_op_of, p_block_body, p_brace_block, p_cmp, p_expr, p_factor, p_if,
    p_add, p_add_rest, p_let, p_lets, p_mul, p_mul_rest, spec_parse, tok, ParseError,
};

verus! {

pub open spec fn bin_token(op: BinOp) -> TokenV {
    match op {
        BinOp::Add => TokenV::Plus,
        BinOp::Sub => TokenV::Minus,
        BinOp::Mul => TokenV::Star,
        BinOp::Div => TokenV::Slash,
    }
}

pub open spec fn compare_token(op: CmpOp) -> TokenV {
    match op {
        CmpOp::Lt => TokenV::Lt,
        CmpOp::Gt => TokenV::Gt,
        CmpOp::Le => TokenV::Le,
        CmpOp::Ge => TokenV::Ge,
        CmpOp::Eq => TokenV::EqEq,
        CmpOp::Ne => TokenV::BangEq,
    }
}

pub open spec fn parens(s: Seq<TokenV>) -> Seq<TokenV> {
    seq![TokenV::LParen] + s + seq![TokenV::RParen]
}

/// The tokens of an expression. Every operand of a unary or binary
/// operator is put in parentheses.
pub open spec fn print_expr(e: ExprV) -> Seq<TokenV>
    decreases e, 2int,
{
    match e {
        ExprV::Num(n) => seq![TokenV::Num(n)],
        ExprV::Bool(b) => if b {
            seq![TokenV::True]
        } else {
            seq![TokenV::False]
        },
        ExprV::Ident(name) => seq![TokenV::Ident(name)],
        ExprV::Neg(inner) => seq![TokenV::Minus] + parens(print_expr(*inner)),
        ExprV::Bin { op, left, right } => parens(print_expr(*left)) + seq![bin_token(op)] + parens(
            print_expr(*right),
        ),
        ExprV::Cmp { op, left, right } => parens(print_expr(*left)) + seq![compare_token(op)]
            + parens(print_expr(*right)),
        ExprV::If { cond, then_branch, else_branch } => seq![TokenV::If] + print_expr(*cond)
            + print_brace(*then_branch) + seq![TokenV::Else] + print_brace(*else_branch),
        ExprV::Block(b) => print_brace(*b),
    }
}

/// The tokens of a block in braces.
pub open spec fn print_brace(b: BlockV) -> Seq<TokenV>
    decreases b, 1int,
{
    seq![TokenV::LBrace] + print_body(b) + seq![TokenV::RBrace]
}

/// The tokens of a block's statements and result (a whole program is one).
pub open spec fn print_body(b: BlockV) -> Seq<TokenV>
    decreases b, 0int,
{
    print_lets(b.stmts) + print_expr(b.result)
}

pub open spec fn print_lets(ss: Seq<StmtV>) -> Seq<TokenV>
    decreases ss, 0int,
{
    if ss.len() == 0 {
        seq![]
    } else {
        proof {
            broadcast use vstd::seq::axiom_seq_index_decreases;
            broadcast use vstd::seq::axiom_seq_subrange_decreases;

            assert(decreases_to!(ss => ss[0]));
            assert(decreases_to!(ss => ss.subrange(1, ss.len() as int)));
        }
        print_let(ss[0]) + print_lets(ss.subrange(1, ss.len() as int))
    }
}

pub open spec fn print_let(s: StmtV) -> Seq<TokenV>
    decreases s, 0int,
{
    match s {
        StmtV::Let { name, value } => seq![TokenV::Let, TokenV::Ident(name), TokenV::Eq]
            + print_expr(value) + seq![TokenV::Semi],
    }
}

/// The tokens `s` stand in `t` from position `p` on.
pub open spec fn toks_at(t: Seq<TokenV>, p: int, s: Seq<TokenV>) -> bool {
    &&& 0 <= p
    &&& p + s.len() <= t.len()
    &&& forall|i: int| 0 <= i < s.len() ==> t[p + i] == #[trigger] s[i]
}

/// The token at `q`, if any, cannot continue an expression.
pub open spec fn ends_expr(t: Seq<TokenV>, q: int) -> bool {
    &&& cmp_op_of(tok(t, q)) is None
    &&& add_op_of(tok(t, q)) is None
    &&& mul_op_of(tok(t, q)) is None
}

proof fn lemma_toks_at_concat(t: Seq<TokenV>, p: int, a: Seq<TokenV>, b: Seq<TokenV>)
    requires
        toks_at(t, p, a + b),
    ensures
        toks_at(t, p, a),
        toks_at(t, p + a.len(), b),
{
    assert forall|i: int| 0 <= i < a.len() implies t[p + i] == #[trigger] a[i] by {
        assert((a + b)[i] == a[i]);
    }
    assert forall|i: int| 0 <= i < b.len() implies t[p + a.len() + i] == #[trigger] b[i] by {
        assert((a + b)[a.len() + i] == b[i]);
    }
}

/// What the printer writes for an expression starts with a token that can
/// start an expression (in particular, not `let`).
proof fn lemma_print_first(e: ExprV)
    ensures
        print_expr(e).len() >= 1,
        print_expr(e)[0] != TokenV::Let,
{
    match e {
        ExprV::Neg(inner) => {
            assert(print_expr(e) == seq![TokenV::Minus] + parens(print_expr(*inner)));
            assert(print_expr(e)[0] == TokenV::Minus);
        },
        ExprV::Bin { op, left, right } => {
            let a = parens(print_expr(*left));
            assert(a[0] == TokenV::LParen);
            assert((a + seq![bin_token(op)])[0] == TokenV::LParen);
        },
        ExprV::Cmp { op, left, right } => {
            let a = parens(print_expr(*left));
            assert(a[0] == TokenV::LParen);
            assert((a + seq![compare_token(op)])[0] == TokenV::LParen);
        },
        ExprV::If { cond, then_branch, else_branch } => {
            assert(print_expr(e)[0] == TokenV::If);
        },
        ExprV::Block(b) => {
            assert(print_expr(e) == print_brace(*b));
            assert(print_brace(*b) == seq![TokenV::LBrace] + print_body(*b) + seq![TokenV::RBrace]);
            assert(print_expr(e)[0] == TokenV::LBrace);
        },
        _ => {},
    }
}

/// An expression the printer wrote, followed by a token that cannot
/// continue it, parses back to itself.
pub proof fn lemma_expr_parses(t: Seq<TokenV>, p: int, e: ExprV)
    requires
        toks_at(t, p, print_expr(e)),
        ends_expr(t, p + print_expr(e).len()),
    ensures
        p_expr(t, p) == Ok::<(ExprV, int), ParseError>((e, p + print_expr(e).len())),
    decreases e, 2int,
{
    let n = print_expr(e).len();
    lemma_print_first(e);
    match e {
        ExprV::Bin { op, left, right } => {
            let pl = parens(print_expr(*left));
            let pr = parens(print_expr(*right));
            lemma_toks_at_concat(t, p, pl + seq![bin_token(op)], pr);
            lemma_toks_at_concat(t, p, pl, seq![bin_token(op)]);
            let q1 = p + pl.len();
            let q2 = q1 + 1 + pr.len();
            assert(q2 == p + n);
            assert(t[q1 + 0] == seq![bin_token(op)][0]);
            lemma_paren_parses(t, p, *left);
            lemma_paren_parses(t, q1 + 1, *right);
            match op {
                BinOp::Add | BinOp::Sub => {
                    assert(p_mul_rest(t, *left, q1) == Ok::<(ExprV, int), ParseError>((*left, q1)));
                    assert(p_mul(t, p) == Ok::<(ExprV, int), ParseError>((*left, q1)));
                    assert(p_mul_rest(t, *right, q2) == Ok::<(ExprV, int), ParseError>((*right, q2)));
                    assert(p_mul(t, q1 + 1) == Ok::<(ExprV, int), ParseError>((*right, q2)));
                    assert(p_add_rest(t, e, q2) == Ok::<(ExprV, int), ParseError>((e, q2)));
                    assert(p_add_rest(t, *left, q1) == Ok::<(ExprV, int), ParseError>((e, q2)));
                    assert(p_add(t, p) == Ok::<(ExprV, int), ParseError>((e, q2)));
                },
                _ => {
                    assert(p_mul_rest(t, e, q2) == Ok::<(ExprV, int), ParseError>((e, q2)));
                    assert(p_mul_rest(t, *left, q1) == Ok::<(ExprV, int), ParseError>((e, q2)));
                    assert(p_mul(t, p) == Ok::<(ExprV, int), ParseError>((e, q2)));
                    assert(p_add_rest(t, e, q2) == Ok::<(ExprV, int), ParseError>((e, q2)));
                    assert(p_add(t, p) == Ok::<(ExprV, int), ParseError>((e, q2)));
                },
            }
            assert(p_cmp(t, p) == Ok::<(ExprV, int), ParseError>((e, q2)));
        },
        ExprV::Cmp { op, left, right } => {
            let pl = parens(print_expr(*left));
            let pr = parens(print_expr(*right));
            lemma_toks_at_concat(t, p, pl + seq![compare_token(op)], pr);
            lemma_toks_at_concat(t, p, pl, seq![compare_token(op)]);
            let q1 = p + pl.len();
            let q2 = q1 + 1 + pr.len();
            assert(q2 == p + n);
            assert(t[q1 + 0] == seq![compare_token(op)][0]);
            lemma_paren_parses(t, p, *left);
            lemma_paren_parses(t, q1 + 1, *right);
            assert(p_mul_rest(t, *left, q1) == Ok::<(ExprV, int), ParseError>((*left, q1)));
            assert(p_mul(t, p) == Ok::<(ExprV, int), ParseError>((*left, q1)));
            assert(p_add_rest(t, *left, q1) == Ok::<(ExprV, int), ParseError>((*left, q1)));
            assert(p_add(t, p) == Ok::<(ExprV, int), ParseError>((*left, q1)));
            assert(p_mul_rest(t, *right, q2) == Ok::<(ExprV, int), ParseError>((*right, q2)));
            assert(p_mul(t, q1 + 1) == Ok::<(ExprV, int), ParseError>((*right, q2)));
            assert(p_add_rest(t, *right, q2) == Ok::<(ExprV, int), ParseError>((*right, q2)));
            assert(p_add(t, q1 + 1) == Ok::<(ExprV, int), ParseError>((*right, q2)));
            assert(p_cmp(t, p) == Ok::<(ExprV, int), ParseError>((e, q2)));
        },
        _ => {
            lemma_factor_parses(t, p, e);
            let q = p + n;
            assert(p_mul_rest(t, e, q) == Ok::<(ExprV, int), ParseError>((e, q)));
            assert(p_mul(t, p) == Ok::<(ExprV, int), ParseError>((e, q)));
            assert(p_add_rest(t, e, q) == Ok::<(ExprV, int), ParseError>((e, q)));
            assert(p_add(t, p) == Ok::<(ExprV, int), ParseError>((e, q)));
            assert(p_cmp(t, p) == Ok::<(ExprV, int), ParseError>((e, q)));
        },
    }
}

/// A parenthesised expression the printer wrote parses back as a factor.
proof fn lemma_paren_parses(t: Seq<TokenV>, p: int, x: ExprV)
    requires
        toks_at(t, p, parens(print_expr(x))),
    ensures
        p_factor(t, p) == Ok::<(ExprV, int), ParseError>((x, p + parens(print_expr(x)).len())),
    decreases x, 3int,
{
    let s = print_expr(x);
    lemma_toks_at_concat(t, p, seq![TokenV::LParen] + s, seq![TokenV::RParen]);
    lemma_toks_at_concat(t, p, seq![TokenV::LParen], s);
    assert(t[p + 0] == seq![TokenV::LParen][0]);
    assert(t[p + 1 + s.len() + 0] == seq![TokenV::RParen][0]);
    lemma_expr_parses(t, p + 1, x);
}

/// A literal, name, negation, block or `if` the printer wrote parses back
/// as a factor.
proof fn lemma_factor_parses(t: Seq<TokenV>, p: int, e: ExprV)
    requires
        !(e is Bin),
        !(e is Cmp),
        toks_at(t, p, print_expr(e)),
    ensures
        p_factor(t, p) == Ok::<(ExprV, int), ParseError>((e, p + print_expr(e).len())),
    decreases e, 1int,
{
    let n = print_expr(e).len();
    match e {
        ExprV::Num(v) => {
            assert(t[p + 0] == print_expr(e)[0]);
        },
        ExprV::Bool(b) => {
            assert(t[p + 0] == print_expr(e)[0]);
        },
        ExprV::Ident(name) => {
            assert(t[p + 0] == print_expr(e)[0]);
        },
        ExprV::Neg(inner) => {
            lemma_toks_at_concat(t, p, seq![TokenV::Minus], parens(print_expr(*inner)));
            assert(t[p + 0] == seq![TokenV::Minus][0]);
            lemma_paren_parses(t, p + 1, *inner);
        },
        ExprV::Block(b) => {
            let s = print_body(*b);
            assert(print_expr(e) == print_brace(*b));
            assert(print_brace(*b) == seq![TokenV::LBrace] + s + seq![TokenV::RBrace]);
            lemma_toks_at_concat(t, p, seq![TokenV::LBrace] + s, seq![TokenV::RBrace]);
            lemma_toks_at_concat(t, p, seq![TokenV::LBrace], s);
            assert(t[p + 0] == seq![TokenV::LBrace][0]);
            assert(t[p + 1 + s.len() + 0] == seq![TokenV::RBrace][0]);
            lemma_body_parses(t, p + 1, *b);
        },
        ExprV::If { .. } => {
            lemma_if_parses(t, p, e);
        },
        _ => {},
    }
}

/// An `if` the printer wrote parses back to itself.
#[verifier::spinoff_prover]
#[verifier::rlimit(80)]
proof fn lemma_if_parses(t: Seq<TokenV>, p: int, e: ExprV)
    requires
        e is If,
        toks_at(t, p, print_expr(e)),
    ensures
        p_factor(t, p) == Ok::<(ExprV, int), ParseError>((e, p + print_expr(e).len())),
    decreases e, 0int,
{
    let n = print_expr(e).len();
    match e {
        ExprV::If { cond, then_branch, else_branch } => {
            let c = print_expr(*cond);
            let tb = print_brace(*then_branch);
            let eb = print_brace(*else_branch);
            assert(print_expr(e) == seq![TokenV::If] + c + tb + seq![TokenV::Else] + eb);
            lemma_toks_at_concat(t, p, seq![TokenV::If] + c + tb + seq![TokenV::Else], eb);
            lemma_toks_at_concat(t, p, seq![TokenV::If] + c + tb, seq![TokenV::Else]);
            lemma_toks_at_concat(t, p, seq![TokenV::If] + c, tb);
            lemma_toks_at_concat(t, p, seq![TokenV::If], c);
            assert(t[p + 0] == seq![TokenV::If][0]);
            let q1 = p + 1 + c.len();
            let q2 = q1 + tb.len();
            assert(t[q2 + 0] == seq![TokenV::Else][0]);
            assert(tb == seq![TokenV::LBrace] + print_body(*then_branch) + seq![TokenV::RBrace]);
            assert(t[q1 + 0] == tb[0]);
            lemma_print_first(*cond);
            lemma_expr_parses(t, p + 1, *cond);
            lemma_brace_parses(t, q1, *then_branch);
            lemma_brace_parses(t, q2 + 1, *else_branch);
            assert(ends_expr(t, q1));
            assert(p_expr(t, p + 1) == Ok::<(ExprV, int), ParseError>((*cond, q1)));
            assert(p_brace_block(t, q1) == Ok::<(BlockV, int), ParseError>((*then_branch, q2)));
            assert(tok(t, q2) == Some(TokenV::Else));
            assert(q2 + 1 + eb.len() == p + n);
            assert(p_if(t, p + 1) == Ok::<(ExprV, int), ParseError>((e, p + n)));
            assert(tok(t, p) == Some(TokenV::If));
        },
        _ => {},
    }
}

/// A block in braces the printer wrote parses back to itself.
proof fn lemma_brace_parses(t: Seq<TokenV>, p: int, b: BlockV)
    requires
        toks_at(t, p, print_brace(b)),
    ensures
        p_brace_block(t, p) == Ok::<(BlockV, int), ParseError>((b, p + print_brace(b).len())),
    decreases b, 5int,
{
    let s = print_body(b);
    assert(print_brace(b) == seq![TokenV::LBrace] + s + seq![TokenV::RBrace]);
    lemma_toks_at_concat(t, p, seq![TokenV::LBrace] + s, seq![TokenV::RBrace]);
    lemma_toks_at_concat(t, p, seq![TokenV::LBrace], s);
    assert(t[p + 0] == seq![TokenV::LBrace][0]);
    assert(t[p + 1 + s.len() + 0] == seq![TokenV::RBrace][0]);
    lemma_body_parses(t, p + 1, b);
}

/// The statements and result of a block the printer wrote, followed by a
/// token that cannot continue an expression, parse back to the block.
proof fn lemma_body_parses(t: Seq<TokenV>, p: int, b: BlockV)
    requires
        toks_at(t, p, print_body(b)),
        ends_expr(t, p + print_body(b).len()),
    ensures
        p_block_body(t, p) == Ok::<(BlockV, int), ParseError>((b, p + print_body(b).len())),
    decreases b, 4int,
{
    let ls = print_lets(b.stmts);
    let rs = print_expr(b.result);
    lemma_toks_at_concat(t, p, ls, rs);
    lemma_print_first(b.result);
    assert(t[p + ls.len() + 0] == rs[0]);
    lemma_lets_parses(t, p, b.stmts);
    lemma_expr_parses(t, p + ls.len(), b.result);
    assert(BlockV { stmts: b.stmts, result: b.result } == b);
}

/// `let` statements the printer wrote, followed by something other than
/// `let`, parse back to themselves.
proof fn lemma_lets_parses(t: Seq<TokenV>, p: int, ss: Seq<StmtV>)
    requires
        toks_at(t, p, print_lets(ss)),
        tok(t, p + print_lets(ss).len()) != Some(TokenV::Let),
    ensures
        p_lets(t, p) == Ok::<(Seq<StmtV>, int), ParseError>((ss, p + print_lets(ss).len())),
    decreases ss, 0int,
{
    if ss.len() == 0 {
        assert(ss =~= Seq::<StmtV>::empty());
    } else {
        broadcast use vstd::seq::axiom_seq_index_decreases;
        broadcast use vstd::seq::axiom_seq_subrange_decreases;

        assert(decreases_to!(ss => ss[0]));
        assert(decreases_to!(ss => ss.subrange(1, ss.len() as int)));
        let rest = ss.subrange(1, ss.len() as int);
        let a = print_let(ss[0]);
        lemma_toks_at_concat(t, p, a, print_lets(rest));
        lemma_let_parses(t, p, ss[0]);
        lemma_lets_parses(t, p + a.len(), rest);
        assert(seq![ss[0]] + rest =~= ss);
        assert(t[p + 0] == a[0]);
    }
}

/// A `let` the printer wrote parses back to itself.
proof fn lemma_let_parses(t: Seq<TokenV>, p: int, s: StmtV)
    requires
        toks_at(t, p, print_let(s)),
    ensures
        p_let(t, p) == Ok::<(StmtV, int), ParseError>((s, p + print_let(s).len())),
    decreases s, 0int,
{
    match s {
        StmtV::Let { name, value } => {
            let head = seq![TokenV::Let, TokenV::Ident(name), TokenV::Eq];
            let v = print_expr(value);
            lemma_toks_at_concat(t, p, head + v, seq![TokenV::Semi]);
            lemma_toks_at_concat(t, p, head, v);
            assert(t[p + 0] == head[0]);
            assert(t[p + 1] == head[1]);
            assert(t[p + 2] == head[2]);
            assert(t[p + 3 + v.len() + 0] == seq![TokenV::Semi][0]);
            lemma_print_first(value);
            lemma_expr_parses(t, p + 3, value);
        },
    }
}

/// The grammar reads back what the printer writes: parsing the tokens of
/// any program gives that program.
pub proof fn lemma_parse_print(p: BlockV)
    ensures
        spec_parse(print_body(p)) == Ok::<BlockV, ParseError>(p),
{
    let t = print_body(p);
    assert(toks_at(t, 0, t));
    lemma_body_parses(t, 0, p);
}

/// Three parenthesised operands joined by the tokens `x` and `y`.
pub open spec fn three_operands(a: ExprV, x: TokenV, b: ExprV, y: TokenV, c: ExprV) -> Seq<
    TokenV,
> {
    parens(print_expr(a)) + seq![x] + parens(print_expr(b)) + seq![y] + parens(print_expr(c))
}

/// Where the operands of `three_operands` lie, each read back as a factor.
proof fn lemma_three_operands(a: ExprV, x: TokenV, b: ExprV, y: TokenV, c: ExprV) -> (r: (
    int,
    int,
))
    ensures
        ({
            let t = three_operands(a, x, b, y, c);
            let (q1, q2) = r;
            &&& 0 < q1 && q1 + 1 < q2 && q2 + 1 < t.len()
            &&& tok(t, 0) == Some(TokenV::LParen)
            &&& p_factor(t, 0) == Ok::<(ExprV, int), ParseError>((a, q1))
            &&& tok(t, q1) == Some(x)
            &&& p_factor(t, q1 + 1) == Ok::<(ExprV, int), ParseError>((b, q2))
            &&& tok(t, q2) == Some(y)
            &&& p_factor(t, q2 + 1) == Ok::<(ExprV, int), ParseError>((c, t.len() as int))
            &&& tok(t, t.len() as int) is None
        }),
{
    let t = three_operands(a, x, b, y, c);
    let pa = parens(print_expr(a));
    let pb = parens(print_expr(b));
    let pc = parens(print_expr(c));
    assert(toks_at(t, 0, t));
    lemma_toks_at_concat(t, 0, pa + seq![x] + pb + seq![y], pc);
    lemma_toks_at_concat(t, 0, pa + seq![x] + pb, seq![y]);
    lemma_toks_at_concat(t, 0, pa + seq![x], pb);
    lemma_toks_at_concat(t, 0, pa, seq![x]);
    let q1 = pa.len() as int;
    let q2 = q1 + 1 + pb.len();
    assert(t[q1 + 0] == seq![x][0]);
    assert(t[q2 + 0] == seq![y][0]);
    assert(t[0] == pa[0]);
    lemma_paren_parses(t, 0, a);
    lemma_paren_parses(t, q1 + 1, b);
    lemma_paren_parses(t, q2 + 1, c);
    (q1, q2)
}

/// An additive expression followed by no comparison is a whole expression.
proof fn lemma_sum_is_expr(t: Seq<TokenV>, e: ExprV, n: int)
    requires
        n == t.len(),
        p_add(t, 0) == Ok::<(ExprV, int), ParseError>((e, n)),
    ensures
        p_expr(t, 0) == Ok::<(ExprV, int), ParseError>((e, n)),
{
    assert(p_cmp(t, 0) == Ok::<(ExprV, int), ParseError>((e, n)));
}

/// An additive expression that covers all the tokens is the whole program.
proof fn lemma_sum_is_program(t: Seq<TokenV>, e: ExprV)
    requires
        tok(t, 0) == Some(TokenV::LParen),
        p_add(t, 0) == Ok::<(ExprV, int), ParseError>((e, t.len() as int)),
    ensures
        spec_parse(t) == Ok::<BlockV, ParseError>(BlockV { stmts: seq![], result: e }),
{
    let n = t.len() as int;
    lemma_sum_is_expr(t, e, n);
    assert(p_lets(t, 0) == Ok::<(Seq<StmtV>, int), ParseError>((seq![], 0)));
    assert(p_block_body(t, 0) == Ok::<(BlockV, int), ParseError>(
        (BlockV { stmts: seq![], result: e }, n),
    ));
}

pub open spec fn is_additive(op: BinOp) -> bool {
    op == BinOp::Add || op == BinOp::Sub
}

pub open spec fn is_multiplicative(op: BinOp) -> bool {
    op == BinOp::Mul || op == BinOp::Div
}

pub open spec fn bin(op: BinOp, l: ExprV, r: ExprV) -> ExprV {
    ExprV::Bin { op, left: Box::new(l), right: Box::new(r) }
}

/// `*` and `/` bind tighter than `+` and `-`, on either side: for any
/// operands, `a * b + c` reads as `(a * b) + c` and `a + b * c` as
/// `a + (b * c)`.
pub proof fn lemma_mul_binds_tighter(a: ExprV, b: ExprV, c: ExprV, m: BinOp, o: BinOp)
    requires
        is_multiplicative(m),
        is_additive(o),
    ensures
        spec_parse(three_operands(a, bin_token(m), b, bin_token(o), c)) == Ok::<
            BlockV,
            ParseError,
        >(BlockV { stmts: seq![], result: bin(o, bin(m, a, b), c) }),
        spec_parse(three_operands(a, bin_token(o), b, bin_token(m), c)) == Ok::<
            BlockV,
            ParseError,
        >(BlockV { stmts: seq![], result: bin(o, a, bin(m, b, c)) }),
{
    let t = three_operands(a, bin_token(m), b, bin_token(o), c);
    let (q1, q2) = lemma_three_operands(a, bin_token(m), b, bin_token(o), c);
    let n = t.len() as int;
    let ab = bin(m, a, b);
    let e = bin(o, ab, c);
    assert(p_mul_rest(t, c, n) == Ok::<(ExprV, int), ParseError>((c, n)));
    assert(p_mul(t, q2 + 1) == Ok::<(ExprV, int), ParseError>((c, n)));
    assert(p_mul_rest(t, ab, q2) == Ok::<(ExprV, int), ParseError>((ab, q2)));
    assert(p_mul_rest(t, a, q1) == Ok::<(ExprV, int), ParseError>((ab, q2)));
    assert(p_mul(t, 0) == Ok::<(ExprV, int), ParseError>((ab, q2)));
    assert(p_add_rest(t, e, n) == Ok::<(ExprV, int), ParseError>((e, n)));
    assert(p_add_rest(t, ab, q2) == Ok::<(ExprV, int), ParseError>((e, n)));
    assert(p_add(t, 0) == Ok::<(ExprV, int), ParseError>((e, n)));
    lemma_sum_is_program(t, e);

    let t = three_operands(a, bin_token(o), b, bin_token(m), c);
    let (q1, q2) = lemma_three_operands(a, bin_token(o), b, bin_token(m), c);
    let n = t.len() as int;
    let bc = bin(m, b, c);
    let e = bin(o, a, bc);
    assert(p_mul_rest(t, a, q1) == Ok::<(ExprV, int), ParseError>((a, q1)));
    assert(p_mul(t, 0) == Ok::<(ExprV, int), ParseError>((a, q1)));
    assert(p_mul_rest(t, bc, n) == Ok::<(ExprV, int), ParseError>((bc, n)));
    assert(p_mul_rest(t, b, q2) == Ok::<(ExprV, int), ParseError>((bc, n)));
    assert(p_mul(t, q1 + 1) == Ok::<(ExprV, int), ParseError>((bc, n)));
    assert(p_add_rest(t, e, n) == Ok::<(ExprV, int), ParseError>((e, n)));
    assert(p_add_rest(t, a, q1) == Ok::<(ExprV, int), ParseError>((e, n)));
    assert(p_add(t, 0) == Ok::<(ExprV, int), ParseError>((e, n)));
    lemma_sum_is_program(t, e);
}

/// `+` and `-` group to the left, in any mix: `a o1 b o2 c` reads as
/// `(a o1 b) o2 c`.
pub proof fn lemma_additive_left_assoc(a: ExprV, b: ExprV, c: ExprV, o1: BinOp, o2: BinOp)
    requires
        is_additive(o1),
        is_additive(o2),
    ensures
        spec_parse(three_operands(a, bin_token(o1), b, bin_token(o2), c)) == Ok::<
            BlockV,
            ParseError,
        >(BlockV { stmts: seq![], result: bin(o2, bin(o1, a, b), c) }),
{
    let t = three_operands(a, bin_token(o1), b, bin_token(o2), c);
    let (q1, q2) = lemma_three_operands(a, bin_token(o1), b, bin_token(o2), c);
    let n = t.len() as int;
    let ab = bin(o1, a, b);
    let e = bin(o2, ab, c);
    assert(p_mul_rest(t, a, q1) == Ok::<(ExprV, int), ParseError>((a, q1)));
    assert(p_mul(t, 0) == Ok::<(ExprV, int), ParseError>((a, q1)));
    assert(p_mul_rest(t, b, q2) == Ok::<(ExprV, int), ParseError>((b, q2)));
    assert(p_mul(t, q1 + 1) == Ok::<(ExprV, int), ParseError>((b, q2)));
    assert(p_mul_rest(t, c, n) == Ok::<(ExprV, int), ParseError>((c, n)));
    assert(p_mul(t, q2 + 1) == Ok::<(ExprV, int), ParseError>((c, n)));
    assert(p_add_rest(t, e, n) == Ok::<(ExprV, int), ParseError>((e, n)));
    assert(p_add_rest(t, ab, q2) == Ok::<(ExprV, int), ParseError>((e, n)));
    assert(p_add_rest(t, a, q1) == Ok::<(ExprV, int), ParseError>((e, n)));
    assert(p_add(t, 0) == Ok::<(ExprV, int), ParseError>((e, n)));
    lemma_sum_is_program(t, e);
}

/// `*` and `/` group to the left, in any mix: `a m1 b m2 c` reads as
/// `(a m1 b) m2 c`.
pub proof fn lemma_multiplicative_left_assoc(a: ExprV, b: ExprV, c: ExprV, m1: BinOp, m2: BinOp)
    requires
        is_multiplicative(m1),
        is_multiplicative(m2),
    ensures
        spec_parse(three_operands(a, bin_token(m1), b, bin_token(m2), c)) == Ok::<
            BlockV,
            ParseError,
        >(BlockV { stmts: seq![], result: bin(m2, bin(m1, a, b), c) }),
{
    let t = three_operands(a, bin_token(m1), b, bin_token(m2), c);
    let (q1, q2) = lemma_three_operands(a, bin_token(m1), b, bin_token(m2), c);
    let n = t.len() as int;
    let ab = bin(m1, a, b);
    let e = bin(m2, ab, c);
    assert(p_mul_rest(t, e, n) == Ok::<(ExprV, int), ParseError>((e, n)));
    assert(p_mul_rest(t, ab, q2) == Ok::<(ExprV, int), ParseError>((e, n)));
    assert(p_mul_rest(t, a, q1) == Ok::<(ExprV, int), ParseError>((e, n)));
    assert(p_mul(t, 0) == Ok::<(ExprV, int), ParseError>((e, n)));
    assert(p_add_rest(t, e, n) == Ok::<(ExprV, int), ParseError>((e, n)));
    assert(p_add(t, 0) == Ok::<(ExprV, int), ParseError>((e, n)));
    lemma_sum_is_program(t, e);
}

/// A sum followed by a comparison and another sum is a comparison.
proof fn lemma_relation_step(t: Seq<TokenV>, l: ExprV, q: int, r: ExprV, c: CmpOp, e: ExprV, n: int)
    requires
        0 < q,
        q + 1 < n,
        n <= t.len(),
        p_add(t, 0) == Ok::<(ExprV, int), ParseError>((l, q)),
        tok(t, q) == Some(compare_token(c)),
        p_add(t, q + 1) == Ok::<(ExprV, int), ParseError>((r, n)),
        e == (ExprV::Cmp { op: c, left: Box::new(l), right: Box::new(r) }),
    ensures
        p_expr(t, 0) == Ok::<(ExprV, int), ParseError>((e, n)),
{
    assert(cmp_op_of(tok(t, q)) == Some(c));
    assert(p_cmp(t, 0) == Ok::<(ExprV, int), ParseError>((e, n)));
}

/// A comparison whose operands are sums and products reads as expected.
proof fn lemma_compare_program(t: Seq<TokenV>, e: ExprV, n: int)
    requires
        n == t.len(),
        tok(t, 0) == Some(TokenV::LParen),
        p_expr(t, 0) == Ok::<(ExprV, int), ParseError>((e, n)),
    ensures
        spec_parse(t) == Ok::<BlockV, ParseError>(BlockV { stmts: seq![], result: e }),
{
    assert(p_lets(t, 0) == Ok::<(Seq<StmtV>, int), ParseError>((seq![], 0)));
    assert(p_block_body(t, 0) == Ok::<(BlockV, int), ParseError>(
        (BlockV { stmts: seq![], result: e }, n),
    ));
}

/// Comparisons bind loosest: for any arithmetic operator `o` and any
/// comparison `c`, `a o b c d` reads as `(a o b) c d`, and `a c b o d` as
/// `a c (b o d)`.
pub proof fn lemma_comparison_binds_loosest(a: ExprV, b: ExprV, d: ExprV, o: BinOp, c: CmpOp)
    ensures
        spec_parse(three_operands(a, bin_token(o), b, compare_token(c), d)) == Ok::<
            BlockV,
            ParseError,
        >(
            BlockV {
                stmts: seq![],
                result: ExprV::Cmp { op: c, left: Box::new(bin(o, a, b)), right: Box::new(d) },
            },
        ),
        spec_parse(three_operands(a, compare_token(c), b, bin_token(o), d)) == Ok::<
            BlockV,
            ParseError,
        >(
            BlockV {
                stmts: seq![],
                result: ExprV::Cmp { op: c, left: Box::new(a), right: Box::new(bin(o, b, d)) },
            },
        ),
{
    let t = three_operands(a, bin_token(o), b, compare_token(c), d);
    let (q1, q2) = lemma_three_operands(a, bin_token(o), b, compare_token(c), d);
    let n = t.len() as int;
    let ab = bin(o, a, b);
    let e = ExprV::Cmp { op: c, left: Box::new(ab), right: Box::new(d) };
    assert(p_mul_rest(t, d, n) == Ok::<(ExprV, int), ParseError>((d, n)));
    assert(p_mul(t, q2 + 1) == Ok::<(ExprV, int), ParseError>((d, n)));
    assert(p_add_rest(t, d, n) == Ok::<(ExprV, int), ParseError>((d, n)));
    assert(p_add(t, q2 + 1) == Ok::<(ExprV, int), ParseError>((d, n)));
    if is_multiplicative(o) {
        assert(p_mul_rest(t, ab, q2) == Ok::<(ExprV, int), ParseError>((ab, q2)));
        assert(p_mul_rest(t, a, q1) == Ok::<(ExprV, int), ParseError>((ab, q2)));
        assert(p_mul(t, 0) == Ok::<(ExprV, int), ParseError>((ab, q2)));
        assert(p_add_rest(t, ab, q2) == Ok::<(ExprV, int), ParseError>((ab, q2)));
    } else {
        assert(p_mul_rest(t, a, q1) == Ok::<(ExprV, int), ParseError>((a, q1)));
        assert(p_mul(t, 0) == Ok::<(ExprV, int), ParseError>((a, q1)));
        assert(p_mul_rest(t, b, q2) == Ok::<(ExprV, int), ParseError>((b, q2)));
        assert(p_mul(t, q1 + 1) == Ok::<(ExprV, int), ParseError>((b, q2)));
        assert(p_add_rest(t, ab, q2) == Ok::<(ExprV, int), ParseError>((ab, q2)));
        assert(p_add_rest(t, a, q1) == Ok::<(ExprV, int), ParseError>((ab, q2)));
    }
    assert(p_add(t, 0) == Ok::<(ExprV, int), ParseError>((ab, q2)));
    lemma_relation_step(t, ab, q2, d, c, e, n);
    lemma_compare_program(t, e, n);

    let t = three_operands(a, compare_token(c), b, bin_token(o), d);
    let (q1, q2) = lemma_three_operands(a, compare_token(c), b, bin_token(o), d);
    let n = t.len() as int;
    let bd = bin(o, b, d);
    let e = ExprV::Cmp { op: c, left: Box::new(a), right: Box::new(bd) };
    assert(p_mul_rest(t, a, q1) == Ok::<(ExprV, int), ParseError>((a, q1)));
    assert(p_mul(t, 0) == Ok::<(ExprV, int), ParseError>((a, q1)));
    assert(p_add_rest(t, a, q1) == Ok::<(ExprV, int), ParseError>((a, q1)));
    assert(p_add(t, 0) == Ok::<(ExprV, int), ParseError>((a, q1)));
    assert(p_mul_rest(t, bd, n) == Ok::<(ExprV, int), ParseError>((bd, n)));
    assert(p_add_rest(t, bd, n) == Ok::<(ExprV, int), ParseError>((bd, n)));
    if is_multiplicative(o) {
        assert(p_mul_rest(t, b, q2) == Ok::<(ExprV, int), ParseError>((bd, n)));
        assert(p_mul(t, q1 + 1) == Ok::<(ExprV, int), ParseError>((bd, n)));
    } else {
        assert(p_mul_rest(t, d, n) == Ok::<(ExprV, int), ParseError>((d, n)));
        assert(p_mul(t, q2 + 1) == Ok::<(ExprV, int), ParseError>((d, n)));
        assert(p_mul_rest(t, b, q2) == Ok::<(ExprV, int), ParseError>((b, q2)));
        assert(p_mul(t, q1 + 1) == Ok::<(ExprV, int), ParseError>((b, q2)));
        assert(p_add_rest(t, b, q2) == Ok::<(ExprV, int), ParseError>((bd, n)));
    }
    assert(p_add(t, q1 + 1) == Ok::<(ExprV, int), ParseError>((bd, n)));
    lemma_relation_step(t, a, q1, bd, c, e, n);
    lemma_compare_program(t, e, n);
}

/// Comparisons do not chain: `a c1 b c2 d` is not a program.
pub proof fn lemma_comparisons_do_not_chain(a: ExprV, b: ExprV, d: ExprV, c1: CmpOp, c2: CmpOp)
    ensures
        spec_parse(three_operands(a, compare_token(c1), b, compare_token(c2), d)) is Err,
{
    let t = three_operands(a, compare_token(c1), b, compare_token(c2), d);
    let (q1, q2) = lemma_three_operands(a, compare_token(c1), b, compare_token(c2), d);
    assert(p_mul_rest(t, a, q1) == Ok::<(ExprV, int), ParseError>((a, q1)));
    assert(p_mul(t, 0) == Ok::<(ExprV, int), ParseError>((a, q1)));
    assert(p_add_rest(t, a, q1) == Ok::<(ExprV, int), ParseError>((a, q1)));
    assert(p_add(t, 0) == Ok::<(ExprV, int), ParseError>((a, q1)));
    assert(p_mul_rest(t, b, q2) == Ok::<(ExprV, int), ParseError>((b, q2)));
    assert(p_mul(t, q1 + 1) == Ok::<(ExprV, int), ParseError>((b, q2)));
    assert(p_add_rest(t, b, q2) == Ok::<(ExprV, int), ParseError>((b, q2)));
    assert(p_add(t, q1 + 1) == Ok::<(ExprV, int), ParseError>((b, q2)));
    let e = ExprV::Cmp { op: c1, left: Box::new(a), right: Box::new(b) };
    lemma_relation_step(t, a, q1, b, c1, e, q2);
    assert(p_lets(t, 0) == Ok::<(Seq<StmtV>, int), ParseError>((seq![], 0)));
    assert(p_block_body(t, 0) == Ok::<(BlockV, int), ParseError>(
        (BlockV { stmts: seq![], result: e }, q2),
    ));
}


/// `e` is a `+` or `-` node.
pub open spec fn sum_level(e: ExprV) -> bool {
    match e {
        ExprV::Bin { op, .. } => is_additive(op),
        _ => false,
    }
}

/// `e` is a `*` or `/` node.
pub open spec fn term_level(e: ExprV) -> bool {
    match e {
        ExprV::Bin { op, .. } => is_multiplicative(op),
        _ => false,
    }
}

/// The tokens of an expression with only the parentheses that the grammar
/// needs: an operand of an arithmetic operator or a comparison is put in
/// parentheses only where it binds looser than that operator, or where it
/// stands on the right of an operator of its own level. The condition of an
/// `if` and the contents of blocks are written as `print_expr` writes them.
pub open spec fn show_expr(e: ExprV) -> Seq<TokenV>
    decreases e, 4int,
{
    if e is Cmp {
        show_operation(e)
    } else {
        show_sum(e)
    }
}

/// An expression written where a sum may stand.
pub open spec fn show_sum(e: ExprV) -> Seq<TokenV>
    decreases e, 3int,
{
    if sum_level(e) {
        show_operation(e)
    } else {
        show_term(e)
    }
}

/// An expression written where a product may stand.
pub open spec fn show_term(e: ExprV) -> Seq<TokenV>
    decreases e, 2int,
{
    if term_level(e) {
        show_operation(e)
    } else {
        show_factor(e)
    }
}

/// An expression written where a factor must stand.
pub open spec fn show_factor(e: ExprV) -> Seq<TokenV>
    decreases e, 1int,
{
    match e {
        ExprV::Neg(inner) => seq![TokenV::Minus] + show_factor(*inner),
        ExprV::Bin { .. } => parens(show_operation(e)),
        ExprV::Cmp { .. } => parens(show_operation(e)),
        _ => print_expr(e),
    }
}

/// A comparison or arithmetic node with its operator between its operands.
pub open spec fn show_operation(e: ExprV) -> Seq<TokenV>
    decreases e, 0int,
{
    match e {
        ExprV::Cmp { op, left, right } => show_sum(*left) + seq![compare_token(op)] + show_sum(
            *right,
        ),
        ExprV::Bin { op, left, right } => if is_additive(op) {
            show_sum(*left) + seq![bin_token(op)] + show_term(*right)
        } else {
            show_term(*left) + seq![bin_token(op)] + show_factor(*right)
        },
        _ => print_expr(e),
    }
}

/// Everything the sparing printer writes starts with a token that starts an
/// expression.
proof fn lemma_shown_first(e: ExprV)
    ensures
        show_operation(e).len() >= 1 && show_operation(e)[0] != TokenV::Let,
        show_factor(e).len() >= 1 && show_factor(e)[0] != TokenV::Let,
        show_term(e).len() >= 1 && show_term(e)[0] != TokenV::Let,
        show_sum(e).len() >= 1 && show_sum(e)[0] != TokenV::Let,
        show_expr(e).len() >= 1 && show_expr(e)[0] != TokenV::Let,
    decreases e,
{
    lemma_print_first(e);
    match e {
        ExprV::Cmp { op, left, right } => {
            lemma_shown_first(*left);
            let a = show_sum(*left);
            assert((a + seq![compare_token(op)])[0] == a[0]);
            assert((a + seq![compare_token(op)] + show_sum(*right))[0] == a[0]);
            assert(parens(show_operation(e))[0] == TokenV::LParen);
        },
        ExprV::Bin { op, left, right } => {
            lemma_shown_first(*left);
            let a = if is_additive(op) {
                show_sum(*left)
            } else {
                show_term(*left)
            };
            let b = if is_additive(op) {
                show_term(*right)
            } else {
                show_factor(*right)
            };
            assert((a + seq![bin_token(op)])[0] == a[0]);
            assert((a + seq![bin_token(op)] + b)[0] == a[0]);
            assert(show_operation(e) == a + seq![bin_token(op)] + b);
            assert(parens(show_operation(e))[0] == TokenV::LParen);
        },
        ExprV::Neg(inner) => {
            assert((seq![TokenV::Minus] + show_factor(*inner))[0] == TokenV::Minus);
        },
        _ => {},
    }
}

spec fn rank_factor(e: ExprV) -> int {
    if e is Cmp {
        1
    } else if sum_level(e) {
        2
    } else if term_level(e) {
        3
    } else {
        0
    }
}

spec fn rank_expr(e: ExprV) -> int {
    if e is Cmp {
        0
    } else if sum_level(e) {
        1
    } else if term_level(e) {
        2
    } else {
        3
    }
}

spec fn rank_sum(e: ExprV) -> int {
    if e is Cmp {
        3
    } else if sum_level(e) {
        0
    } else if term_level(e) {
        1
    } else {
        2
    }
}

spec fn rank_term(e: ExprV) -> int {
    if e is Cmp {
        2
    } else if sum_level(e) {
        3
    } else if term_level(e) {
        0
    } else {
        1
    }
}

/// A factor the sparing printer wrote parses back as that factor.
proof fn lemma_shown_factor(t: Seq<TokenV>, p: int, e: ExprV)
    requires
        toks_at(t, p, show_factor(e)),
    ensures
        p_factor(t, p) == Ok::<(ExprV, int), ParseError>((e, p + show_factor(e).len())),
    decreases e, rank_factor(e),
{
    lemma_shown_first(e);
    match e {
        ExprV::Neg(inner) => {
            lemma_toks_at_concat(t, p, seq![TokenV::Minus], show_factor(*inner));
            assert(t[p + 0] == seq![TokenV::Minus][0]);
            lemma_shown_factor(t, p + 1, *inner);
        },
        ExprV::Bin { .. } => {
            lemma_shown_parens(t, p, e);
        },
        ExprV::Cmp { .. } => {
            lemma_shown_parens(t, p, e);
        },
        _ => {
            lemma_factor_parses(t, p, e);
        },
    }
}

/// A parenthesised operation the sparing printer wrote parses back as a
/// factor.
proof fn lemma_shown_parens(t: Seq<TokenV>, p: int, e: ExprV)
    requires
        e is Bin || e is Cmp,
        toks_at(t, p, parens(show_operation(e))),
    ensures
        p_factor(t, p) == Ok::<(ExprV, int), ParseError>((e, p + parens(show_operation(e)).len())),
    decreases e, rank_factor(e), 0int,
{
    let s = show_operation(e);
    lemma_toks_at_concat(t, p, seq![TokenV::LParen] + s, seq![TokenV::RParen]);
    lemma_toks_at_concat(t, p, seq![TokenV::LParen], s);
    assert(t[p + 0] == seq![TokenV::LParen][0]);
    assert(t[p + 1 + s.len() + 0] == seq![TokenV::RParen][0]);
    assert(show_expr(e) == s);
    lemma_shown_expr(t, p + 1, e);
}

/// An expression the sparing printer wrote, followed by a token that cannot
/// continue it, parses back to itself.
proof fn lemma_shown_expr(t: Seq<TokenV>, p: int, e: ExprV)
    requires
        toks_at(t, p, show_expr(e)),
        ends_expr(t, p + show_expr(e).len()),
    ensures
        p_expr(t, p) == Ok::<(ExprV, int), ParseError>((e, p + show_expr(e).len())),
    decreases e, rank_expr(e), 0int,
{
    lemma_shown_first(e);
    let q = p + show_expr(e).len();
    match e {
        ExprV::Cmp { op, left, right } => {
            let a = show_sum(*left);
            let b = show_sum(*right);
            let c = compare_token(op);
            assert(show_expr(e) == a + seq![c] + b);
            lemma_toks_at_concat(t, p, a + seq![c], b);
            lemma_toks_at_concat(t, p, a, seq![c]);
            let q1 = p + a.len();
            assert(t[q1 + 0] == seq![c][0]);
            lemma_shown_first(*left);
            lemma_shown_first(*right);
            lemma_shown_sum(t, p, *left);
            lemma_shown_sum(t, q1 + 1, *right);
            assert(p_add_rest(t, *left, q1) == Ok::<(ExprV, int), ParseError>((*left, q1)));
            assert(p_add_rest(t, *right, q) == Ok::<(ExprV, int), ParseError>((*right, q)));
            assert(cmp_op_of(tok(t, q1)) == Some(op));
            assert(p_cmp(t, p) == Ok::<(ExprV, int), ParseError>((e, q)));
        },
        _ => {
            assert(show_expr(e) == show_sum(e));
            lemma_shown_sum(t, p, e);
            assert(p_add_rest(t, e, q) == Ok::<(ExprV, int), ParseError>((e, q)));
            assert(p_cmp(t, p) == Ok::<(ExprV, int), ParseError>((e, q)));
        },
    }
}

/// A sum the sparing printer wrote, followed by a token other than `*` or
/// `/`, reads as that sum, after which the parser looks for more of it.
proof fn lemma_shown_sum(t: Seq<TokenV>, p: int, e: ExprV)
    requires
        toks_at(t, p, show_sum(e)),
        mul_op_of(tok(t, p + show_sum(e).len())) is None,
    ensures
        p_add(t, p) == p_add_rest(t, e, p + show_sum(e).len()),
    decreases e, rank_sum(e), 0int,
{
    lemma_shown_first(e);
    let q = p + show_sum(e).len();
    if sum_level(e) {
        match e {
            ExprV::Bin { op, left, right } => {
                let a = show_sum(*left);
                let b = show_term(*right);
                let o = bin_token(op);
                assert(show_sum(e) == a + seq![o] + b);
                lemma_toks_at_concat(t, p, a + seq![o], b);
                lemma_toks_at_concat(t, p, a, seq![o]);
                let q1 = p + a.len();
                assert(t[q1 + 0] == seq![o][0]);
                lemma_shown_first(*right);
                lemma_shown_sum(t, p, *left);
                lemma_shown_term(t, q1 + 1, *right);
                assert(p_mul_rest(t, *right, q) == Ok::<(ExprV, int), ParseError>((*right, q)));
                assert(add_op_of(tok(t, q1)) == Some(op));
                assert(p_add_rest(t, *left, q1) == p_add_rest(t, e, q));
            },
            _ => {},
        }
    } else {
        assert(show_sum(e) == show_term(e));
        lemma_shown_term(t, p, e);
        assert(p_mul_rest(t, e, q) == Ok::<(ExprV, int), ParseError>((e, q)));
        assert(p_add(t, p) == p_add_rest(t, e, q));
    }
}

/// A product the sparing printer wrote reads as that product, after which
/// the parser looks for more of it.
proof fn lemma_shown_term(t: Seq<TokenV>, p: int, e: ExprV)
    requires
        toks_at(t, p, show_term(e)),
    ensures
        p_mul(t, p) == p_mul_rest(t, e, p + show_term(e).len()),
    decreases e, rank_term(e), 0int,
{
    lemma_shown_first(e);
    let q = p + show_term(e).len();
    if term_level(e) {
        match e {
            ExprV::Bin { op, left, right } => {
                let a = show_term(*left);
                let b = show_factor(*right);
                let m = bin_token(op);
                assert(show_term(e) == a + seq![m] + b);
                lemma_toks_at_concat(t, p, a + seq![m], b);
                lemma_toks_at_concat(t, p, a, seq![m]);
                let q1 = p + a.len();
                assert(t[q1 + 0] == seq![m][0]);
                lemma_shown_first(*right);
                lemma_shown_term(t, p, *left);
                lemma_shown_factor(t, q1 + 1, *right);
                assert(mul_op_of(tok(t, q1)) == Some(op));
                assert(p_mul_rest(t, *left, q1) == p_mul_rest(t, e, q));
            },
            _ => {},
        }
    } else {
        assert(show_term(e) == show_factor(e));
        lemma_shown_factor(t, p, e);
        assert(p_mul(t, p) == p_mul_rest(t, e, q));
    }
}

/// Parsing reads back what the sparing printer writes, for every
/// expression: `*` and `/` bind tighter than `+` and `-`, comparisons
/// loosest, and operators of one level group to the left. So `2 * 3 + 1`
/// reads as `(2 * 3) + 1` and `1 - 2 + 3` as `(1 - 2) + 3`.
pub proof fn lemma_parse_shown(e: ExprV)
    ensures
        spec_parse(show_expr(e)) == Ok::<BlockV, ParseError>(BlockV { stmts: seq![], result: e }),
{
    let t = show_expr(e);
    let n = t.len() as int;
    assert(toks_at(t, 0, t));
    lemma_shown_first(e);
    lemma_shown_expr(t, 0, e);
    assert(p_lets(t, 0) == Ok::<(Seq<StmtV>, int), ParseError>((seq![], 0)));
    assert(p_block_body(t, 0) == Ok::<(BlockV, int), ParseError>(
        (BlockV { stmts: seq![], result: e }, n),
    ));
}

} // verus!
