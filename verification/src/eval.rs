//! What a tinylang program means: the value its final expression evaluates
//! to, over 64-bit signed integers and booleans.
//!
//! Evaluation is undefined (`None`) where the language leaves the behaviour
//! undefined or the program is ill-typed: an integer result outside `i64`,
//! division by zero, an unbound name, arithmetic on a boolean, or an `if`
//! whose condition is not a boolean.
use vstd::prelude::*;

use crate::ast::{BinOp, BlockV, CmpOp, ExprV, StmtV};

verus! {

/// A runtime value.
pub enum Value {
    Int(int),
    Bool(bool),
}

/// The number a value leaves as the program's exit code: a boolean is
/// zero-extended, so `true` is 1 and `false` is 0.
pub open spec fn value_code(v: Value) -> int {
    match v {
        Value::Int(x) => x,
        Value::Bool(b) => if b {
            1
        } else {
            0
        },
    }
}

/// The value bound to `name`: the latest binding of that name.
pub open spec fn env_lookup(env: Seq<(Seq<char>, Value)>, name: Seq<char>) -> Option<Value>
    decreases env.len(),
{
    if env.len() == 0 {
        None
    } else if env.last().0 == name {
        Some(env.last().1)
    } else {
        env_lookup(env.drop_last(), name)
    }
}

/// Division truncating toward zero, as `sdiv`/`idiv` and Rust's `/` do.
pub open spec fn trunc_div(a: int, b: int) -> int {
    if b == 0 {
        0
    } else {
        let q = (if a < 0 { -a } else { a }) / (if b < 0 { -b } else { b });
        if (a < 0) != (b < 0) {
            -q
        } else {
            q
        }
    }
}

pub open spec fn fits_i64(x: int) -> bool {
    i64::MIN <= x <= i64::MAX
}

/// `x` brought into the 64-bit two's-complement range, as 64-bit machine
/// addition, subtraction, multiplication and negation wrap.
pub open spec fn wrap_i64(x: int) -> int {
    (x + 0x8000_0000_0000_0000int) % 0x1_0000_0000_0000_0000int - 0x8000_0000_0000_0000int
}

/// An integer result, defined only where it fits in `i64`.
pub open spec fn int_result(x: int) -> Option<Value> {
    if fits_i64(x) {
        Some(Value::Int(x))
    } else {
        None
    }
}

pub open spec fn num_value(n: i64) -> int {
    n as int
}

/// A binary arithmetic operation on two integers.
pub open spec fn eval_bin(op: BinOp, a: int, b: int) -> Option<Value> {
    match op {
        BinOp::Add => int_result(a + b),
        BinOp::Sub => int_result(a - b),
        BinOp::Mul => int_result(a * b),
        BinOp::Div => if b == 0 {
            None
        } else {
            int_result(trunc_div(a, b))
        },
    }
}

/// A comparison of two integers.
pub open spec fn compare(op: CmpOp, a: int, b: int) -> bool {
    match op {
        CmpOp::Lt => a < b,
        CmpOp::Gt => a > b,
        CmpOp::Le => a <= b,
        CmpOp::Ge => a >= b,
        CmpOp::Eq => a == b,
        CmpOp::Ne => a != b,
    }
}

/// The value of an expression under the bindings `env`.
#[verifier::opaque]
pub open spec fn eval_expr(env: Seq<(Seq<char>, Value)>, e: ExprV) -> Option<Value>
    decreases e,
{
    match e {
        ExprV::Num(n) => Some(Value::Int(num_value(n))),
        ExprV::Bool(b) => Some(Value::Bool(b)),
        ExprV::Ident(name) => env_lookup(env, name),
        ExprV::Neg(inner) => match eval_expr(env, *inner) {
            Some(Value::Int(x)) => int_result(-x),
            _ => None,
        },
        ExprV::Bin { op, left, right } => match eval_expr(env, *left) {
            Some(Value::Int(a)) => match eval_expr(env, *right) {
                Some(Value::Int(b)) => eval_bin(op, a, b),
                _ => None,
            },
            _ => None,
        },
        ExprV::Cmp { op, left, right } => match eval_expr(env, *left) {
            Some(Value::Int(a)) => match eval_expr(env, *right) {
                Some(Value::Int(b)) => Some(Value::Bool(compare(op, a, b))),
                _ => None,
            },
            _ => None,
        },
        ExprV::If { cond, then_branch, else_branch } => match eval_expr(env, *cond) {
            Some(Value::Bool(b)) => if b {
                eval_block(env, *then_branch)
            } else {
                eval_block(env, *else_branch)
            },
            _ => None,
        },
        ExprV::Block(b) => eval_block(env, *b),
    }
}

/// The value of a block: its bindings are visible in the block only.
#[verifier::opaque]
pub open spec fn eval_block(env: Seq<(Seq<char>, Value)>, b: BlockV) -> Option<Value>
    decreases b,
{
    match eval_stmts(env, b.stmts) {
        Some(env1) => eval_expr(env1, b.result),
        None => None,
    }
}

/// The bindings after a sequence of statements, run in order.
#[verifier::opaque]
pub open spec fn eval_stmts(env: Seq<(Seq<char>, Value)>, ss: Seq<StmtV>) -> Option<
    Seq<(Seq<char>, Value)>,
>
    decreases ss,
{
    if ss.len() == 0 {
        Some(env)
    } else {
        proof {
            broadcast use vstd::seq::axiom_seq_index_decreases;
            broadcast use vstd::seq::axiom_seq_subrange_decreases;

            assert(decreases_to!(ss => ss[0]));
            assert(decreases_to!(ss => ss.subrange(1, ss.len() as int)));
        }
        match eval_stmt(env, ss[0]) {
            Some(env1) => eval_stmts(env1, ss.subrange(1, ss.len() as int)),
            None => None,
        }
    }
}

/// `let name = value;` binds `name` to the value, shadowing earlier bindings.
#[verifier::opaque]
pub open spec fn eval_stmt(env: Seq<(Seq<char>, Value)>, s: StmtV) -> Option<
    Seq<(Seq<char>, Value)>,
>
    decreases s,
{
    match s {
        StmtV::Let { name, value } => match eval_expr(env, value) {
            Some(v) => Some(env.push((name, v))),
            None => None,
        },
    }
}

/// The exit code of a program: the value of its body, run with no bindings.
pub open spec fn program_value(p: BlockV) -> Option<int> {
    match eval_block(seq![], p) {
        Some(v) => Some(value_code(v)),
        None => None,
    }
}

/// Wrapping leaves a value that already fits in `i64` alone.
pub proof fn lemma_wrap_fits(x: int)
    requires
        fits_i64(x),
    ensures
        wrap_i64(x) == x,
{
    let y = x + 0x8000_0000_0000_0000int;
    assert(0 <= y < 0x1_0000_0000_0000_0000int);
    assert(y % 0x1_0000_0000_0000_0000int == y);
}

} // verus!
