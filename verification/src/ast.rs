//! The syntax tree, and its mathematical view in which names are
//! character sequences.
use vstd::prelude::*;

verus! {

/// Binary arithmetic operators.
#[derive(Debug, Clone, Copy, PartialEq, Eq, Structural)]
pub enum BinOp {
    Add,
    Sub,
    Mul,
    Div,
}

/// Comparison operators; a comparison produces a boolean.
#[derive(Debug, Clone, Copy, PartialEq, Eq, Structural)]
pub enum CmpOp {
    Lt,
    Gt,
    Le,
    Ge,
    Eq,
    Ne,
}

#[derive(Debug, PartialEq)]
pub enum Expr {
    Num(i64),
    Bool(bool),
    Ident(String),
    Neg(Box<Expr>),
    Bin { op: BinOp, left: Box<Expr>, right: Box<Expr> },
    Cmp { op: CmpOp, left: Box<Expr>, right: Box<Expr> },
    If { cond: Box<Expr>, then_branch: Box<Block>, else_branch: Box<Block> },
    Block(Box<Block>),
}

#[derive(Debug, PartialEq)]
pub enum Stmt {
    Let { name: String, value: Expr },
}

#[derive(Debug, PartialEq)]
pub struct Block {
    pub stmts: Vec<Stmt>,
    pub result: Expr,
}

#[derive(Debug, PartialEq)]
pub struct Program {
    pub stmts: Vec<Stmt>,
    pub result: Expr,
}

/// The mathematical model of an expression: identifiers are character sequences.
pub enum ExprV {
    Num(i64),
    Bool(bool),
    Ident(Seq<char>),
    Neg(Box<ExprV>),
    Bin { op: BinOp, left: Box<ExprV>, right: Box<ExprV> },
    Cmp { op: CmpOp, left: Box<ExprV>, right: Box<ExprV> },
    If { cond: Box<ExprV>, then_branch: Box<BlockV>, else_branch: Box<BlockV> },
    Block(Box<BlockV>),
}

/// The model of a `let` statement.
pub enum StmtV {
    Let { name: Seq<char>, value: ExprV },
}

/// The model of a block (and of a whole program): statements, then a result expression.
pub struct BlockV {
    pub stmts: Seq<StmtV>,
    pub result: ExprV,
}

pub open spec fn expr_view(e: Expr) -> ExprV
    decreases e,
{
    match e {
        Expr::Num(n) => ExprV::Num(n),
        Expr::Bool(b) => ExprV::Bool(b),
        Expr::Ident(s) => ExprV::Ident(s@),
        Expr::Neg(inner) => ExprV::Neg(Box::new(expr_view(*inner))),
        Expr::Bin { op, left, right } => ExprV::Bin {
            op,
            left: Box::new(expr_view(*left)),
            right: Box::new(expr_view(*right)),
        },
        Expr::Cmp { op, left, right } => ExprV::Cmp {
            op,
            left: Box::new(expr_view(*left)),
            right: Box::new(expr_view(*right)),
        },
        Expr::If { cond, then_branch, else_branch } => ExprV::If {
            cond: Box::new(expr_view(*cond)),
            then_branch: Box::new(block_view(*then_branch)),
            else_branch: Box::new(block_view(*else_branch)),
        },
        Expr::Block(b) => ExprV::Block(Box::new(block_view(*b))),
    }
}

pub open spec fn block_view(b: Block) -> BlockV
    decreases b,
{
    proof {
        broadcast use vstd::std_specs::vec::axiom_vec_decreases_to_view;
        assert(decreases_to!(b.stmts => b.stmts@));
    }
    BlockV { stmts: stmts_view(b.stmts@), result: expr_view(b.result) }
}

pub open spec fn stmts_view(s: Seq<Stmt>) -> Seq<StmtV>
    decreases s,
{
    if s.len() == 0 {
        Seq::empty()
    } else {
        proof {
            broadcast use vstd::seq::axiom_seq_index_decreases;
            broadcast use vstd::seq::axiom_seq_subrange_decreases;
            assert(decreases_to!(s => s[0]));
            assert(decreases_to!(s => s.subrange(1, s.len() as int)));
        }
        seq![stmt_view(s[0])] + stmts_view(s.subrange(1, s.len() as int))
    }
}

pub open spec fn stmt_view(s: Stmt) -> StmtV
    decreases s,
{
    match s {
        Stmt::Let { name, value } => StmtV::Let { name: name@, value: expr_view(value) },
    }
}

impl View for Expr {
    type V = ExprV;

    open spec fn view(&self) -> ExprV {
        expr_view(*self)
    }
}

impl View for Stmt {
    type V = StmtV;

    open spec fn view(&self) -> StmtV {
        stmt_view(*self)
    }
}

impl View for Block {
    type V = BlockV;

    open spec fn view(&self) -> BlockV {
        block_view(*self)
    }
}

impl View for Program {
    type V = BlockV;

    open spec fn view(&self) -> BlockV {
        BlockV { stmts: stmts_view(self.stmts@), result: expr_view(self.result) }
    }
}


/// The view of a statement list is the list of the statements' views.
pub proof fn lemma_stmts_view_index(s: Seq<Stmt>)
    ensures
        stmts_view(s).len() == s.len(),
        forall|i: int| 0 <= i < s.len() ==> #[trigger] stmts_view(s)[i] == stmt_view(s[i]),
    decreases s.len(),
{
    if s.len() > 0 {
        let rest = s.subrange(1, s.len() as int);
        lemma_stmts_view_index(rest);
        assert forall|i: int| 0 <= i < s.len() implies #[trigger] stmts_view(s)[i] == stmt_view(
            s[i],
        ) by {
            if i > 0 {
                assert(s[i] == rest[i - 1]);
            }
        }
    }
}

/// Viewing a list with one more statement appends that statement's view.
pub proof fn lemma_stmts_view_push(s: Seq<Stmt>, x: Stmt)
    ensures
        stmts_view(s.push(x)) == stmts_view(s).push(stmt_view(x)),
{
    lemma_stmts_view_index(s);
    lemma_stmts_view_index(s.push(x));
    assert(stmts_view(s.push(x)) =~= stmts_view(s).push(stmt_view(x)));
}

} // verus!
