//! A hand-written x86-64 backend for phase-1 programs (integer literals,
//! unary minus, `+ - *`): tree-walk register allocation from a fixed pool of
//! caller-saved scratch registers, no spilling.
use vstd::prelude::*;

use crate::ast::{BinOp, Expr, ExprV};
use crate::eval::{Value, eval_expr, fits_i64, lemma_wrap_fits, trunc_div, value_code, wrap_i64};
use crate::ir_sem::{lemma_int_text_operand, lemma_nat_text_digits, literal_value};
use crate::ir_text::{
    ends_with, lemma_words_cons, lemma_words_single, lemma_words_space, plain, words,
};
use crate::text::{i64_text, i64_view_text, nat_text};

verus! {

/// The x86-64 registers the backend writes.
#[derive(Debug, Clone, Copy, PartialEq, Eq, Structural)]
pub enum Reg {
    Rax,
    Rbx,
    Rcx,
    Rdx,
    R8,
    R9,
    R10,
    R11,
}

pub open spec fn reg_name(r: Reg) -> Seq<char> {
    match r {
        Reg::Rax => "rax"@,
        Reg::Rbx => "rbx"@,
        Reg::Rcx => "rcx"@,
        Reg::Rdx => "rdx"@,
        Reg::R8 => "r8"@,
        Reg::R9 => "r9"@,
        Reg::R10 => "r10"@,
        Reg::R11 => "r11"@,
    }
}

/// Why an expression is beyond this backend.
#[derive(Debug, Clone, Copy, PartialEq, Eq, Structural)]
pub enum NativeError {
    /// Division: `idiv`'s fixed `rdx:rax` operands do not fit the pool scheme.
    DivisionUnsupported,
    /// The expression needs more scratch registers than the pool holds.
    OutOfRegisters,
    /// Anything but integer literals, unary minus and binary arithmetic.
    Unsupported,
}

/// The scratch registers, in the order that `pop` does not hand them out:
/// `r11` comes first, then `r10`, and so on. `rax` holds the result, `rsp`
/// and `rbp` the frame; `rbx` may be clobbered since `main` is a leaf.
pub open spec fn initial_pool() -> Seq<Reg> {
    seq![Reg::Rbx, Reg::Rcx, Reg::Rdx, Reg::R8, Reg::R9, Reg::R10, Reg::R11]
}

pub open spec fn op_mnemonic(op: BinOp) -> Seq<char> {
    match op {
        BinOp::Add => "add "@,
        BinOp::Sub => "sub "@,
        BinOp::Mul => "imul"@,
        BinOp::Div => "idiv"@,
    }
}

#[verifier::opaque]
pub open spec fn mov_line(dest: Reg, n: i64) -> Seq<char> {
    "    mov  "@ + reg_name(dest) + ", "@ + i64_view_text(n) + "\n"@
}

#[verifier::opaque]
pub open spec fn neg_line(dest: Reg) -> Seq<char> {
    "    neg  "@ + reg_name(dest) + "\n"@
}

#[verifier::opaque]
pub open spec fn op_line(op: BinOp, dest: Reg, src: Reg) -> Seq<char> {
    "    "@ + op_mnemonic(op) + " "@ + reg_name(dest) + ", "@ + reg_name(src) + "\n"@
}

/// An instruction of the phase-1 backend.
pub enum Instr {
    /// `mov dest, n`
    Mov(Reg, i64),
    /// `neg dest`
    Neg(Reg),
    /// `add`/`sub`/`imul dest, src`
    Op(BinOp, Reg, Reg),
}

pub open spec fn render_instr(i: Instr) -> Seq<char> {
    match i {
        Instr::Mov(d, n) => mov_line(d, n),
        Instr::Neg(d) => neg_line(d),
        Instr::Op(op, d, s) => op_line(op, d, s),
    }
}

/// The assembly text of an instruction sequence, one line each.
pub open spec fn render(is: Seq<Instr>) -> Seq<char>
    decreases is.len(),
{
    if is.len() == 0 {
        Seq::empty()
    } else {
        render(is.drop_last()) + render_instr(is.last())
    }
}

/// The instructions that leave the value of `e` in `dest`, taking scratch
/// registers from the end of `pool`: the left operand of a binary operation
/// is computed into `dest`, the right one into the next free register.
#[verifier::opaque]
pub open spec fn native_instrs(e: ExprV, dest: Reg, pool: Seq<Reg>) -> Result<Seq<Instr>, NativeError>
    decreases e,
{
    match e {
        ExprV::Num(n) => Ok(seq![Instr::Mov(dest, n)]),
        ExprV::Neg(inner) => match native_instrs(*inner, dest, pool) {
            Ok(is) => Ok(is.push(Instr::Neg(dest))),
            Err(x) => Err(x),
        },
        ExprV::Bin { op, left, right } => match native_instrs(*left, dest, pool) {
            Ok(is1) => if pool.len() == 0 {
                Err(NativeError::OutOfRegisters)
            } else {
                match native_instrs(*right, pool.last(), pool.drop_last()) {
                    Ok(is2) => if op == BinOp::Div {
                        Err(NativeError::DivisionUnsupported)
                    } else {
                        Ok((is1 + is2).push(Instr::Op(op, dest, pool.last())))
                    },
                    Err(x) => Err(x),
                }
            },
            Err(x) => Err(x),
        },
        _ => Err(NativeError::Unsupported),
    }
}

/// The text emitted for `e` into `dest` with `pool`.
pub open spec fn native_emit(e: ExprV, dest: Reg, pool: Seq<Reg>) -> Result<Seq<char>, NativeError> {
    match native_instrs(e, dest, pool) {
        Ok(is) => Ok(render(is)),
        Err(x) => Err(x),
    }
}

/// The text of two instruction sequences in a row is their texts in a row.
pub proof fn lemma_render_concat(a: Seq<Instr>, b: Seq<Instr>)
    ensures
        render(a + b) == render(a) + render(b),
    decreases b.len(),
{
    if b.len() == 0 {
        assert(a + b =~= a);
        assert(render(a) + Seq::<char>::empty() =~= render(a));
    } else {
        assert((a + b).drop_last() =~= a + b.drop_last());
        lemma_render_concat(a, b.drop_last());
        assert(render(a) + (render(b.drop_last()) + render_instr(b.last())) =~= (render(a) + render(
            b.drop_last(),
        )) + render_instr(b.last()));
    }
}

pub open spec fn prologue() -> Seq<char> {
    ".intel_syntax noprefix\n"@ + ".global _main\n"@ + "_main:\n"@ + "    push rbp\n"@
        + "    mov  rbp, rsp\n"@
}

pub open spec fn epilogue() -> Seq<char> {
    "    pop  rbp\n"@ + "    ret\n"@
}

/// The assembly for `main` returning the value of `e` in `rax`.
pub open spec fn spec_native_codegen(e: ExprV) -> Result<Seq<char>, NativeError> {
    match native_emit(e, Reg::Rax, initial_pool()) {
        Ok(t) => Ok(prologue() + t + epilogue()),
        Err(x) => Err(x),
    }
}

/// Whether `e` is a phase-1 expression this backend handles: literals, unary
/// minus, `+`, `-` and `*`.
pub open spec fn phase_one(e: ExprV) -> bool
    decreases e,
{
    match e {
        ExprV::Num(_) => true,
        ExprV::Neg(inner) => phase_one(*inner),
        ExprV::Bin { op, left, right } => op != BinOp::Div && phase_one(*left) && phase_one(*right),
        _ => false,
    }
}

/// How many scratch registers the tree walk needs for `e`.
pub open spec fn regs_needed(e: ExprV) -> nat
    decreases e,
{
    match e {
        ExprV::Neg(inner) => regs_needed(*inner),
        ExprV::Bin { left, right, .. } => {
            let l = regs_needed(*left);
            let r = regs_needed(*right) + 1;
            if l >= r {
                l
            } else {
                r
            }
        },
        _ => 0,
    }
}

/// The backend succeeds exactly on phase-1 expressions whose register need
/// fits in the pool.
pub proof fn lemma_native_emit_succeeds(e: ExprV, dest: Reg, pool: Seq<Reg>)
    ensures
        native_emit(e, dest, pool) is Ok <==> phase_one(e) && regs_needed(e) <= pool.len(),
    decreases e,
{
    reveal(native_instrs);
    match e {
        ExprV::Neg(inner) => {
            lemma_native_emit_succeeds(*inner, dest, pool);
        },
        ExprV::Bin { op, left, right } => {
            lemma_native_emit_succeeds(*left, dest, pool);
            if pool.len() > 0 {
                lemma_native_emit_succeeds(*right, pool.last(), pool.drop_last());
            }
        },
        _ => {},
    }
}

fn reg_str(r: Reg) -> (s: &'static str)
    ensures
        s@ == reg_name(r),
{
    match r {
        Reg::Rax => "rax",
        Reg::Rbx => "rbx",
        Reg::Rcx => "rcx",
        Reg::Rdx => "rdx",
        Reg::R8 => "r8",
        Reg::R9 => "r9",
        Reg::R10 => "r10",
        Reg::R11 => "r11",
    }
}

/// The free scratch registers; the last one is handed out next.
struct RegPool {
    free: Vec<Reg>,
}

impl RegPool {
    fn new() -> (p: Self)
        ensures
            p.free@ == initial_pool(),
    {
        let p = Self {
            free: vec![Reg::Rbx, Reg::Rcx, Reg::Rdx, Reg::R8, Reg::R9, Reg::R10, Reg::R11],
        };
        assert(p.free@ =~= initial_pool());
        p
    }

    /// Takes the most recently freed register, if any is left.
    fn acquire(&mut self) -> (r: Option<Reg>)
        ensures
            old(self).free@.len() == 0 ==> r is None && final(self).free@ == old(self).free@,
            old(self).free@.len() > 0 ==> r == Some(old(self).free@.last()) && final(self).free@
                == old(self).free@.drop_last(),
    {
        self.free.pop()
    }

    /// Returns a register to the pool.
    fn free(&mut self, reg: Reg)
        ensures
            final(self).free@ == old(self).free@.push(reg),
    {
        self.free.push(reg);
    }
}

fn put_mov(out: &mut String, dest: Reg, n: i64)
    ensures
        final(out)@ == old(out)@ + mov_line(dest, n),
{
    reveal(mov_line);
    out.append("    mov  ");
    out.append(reg_str(dest));
    out.append(", ");
    out.append(i64_text(n).as_str());
    out.append("\n");
    assert(out@ =~= old(out)@ + mov_line(dest, n));
}

fn put_neg(out: &mut String, dest: Reg)
    ensures
        final(out)@ == old(out)@ + neg_line(dest),
{
    reveal(neg_line);
    out.append("    neg  ");
    out.append(reg_str(dest));
    out.append("\n");
    assert(out@ =~= old(out)@ + neg_line(dest));
}

fn put_op(out: &mut String, mnemonic: &str, op: BinOp, dest: Reg, src: Reg)
    requires
        mnemonic@ == op_mnemonic(op),
    ensures
        final(out)@ == old(out)@ + op_line(op, dest, src),
{
    reveal(op_line);
    out.append("    ");
    out.append(mnemonic);
    out.append(" ");
    out.append(reg_str(dest));
    out.append(", ");
    out.append(reg_str(src));
    out.append("\n");
    assert(out@ =~= old(out)@ + op_line(op, dest, src));
}

/// Emits the instructions for `expr` into `out`, leaving its value in `dest`;
/// every register taken from `pool` is given back.
#[verifier::spinoff_prover]
fn emit(expr: &Expr, dest: Reg, pool: &mut RegPool, out: &mut String) -> (r: Result<(), NativeError>)
    ensures
        match native_emit(expr@, dest, old(pool).free@) {
            Ok(t) => r is Ok && final(out)@ == old(out)@ + t,
            Err(x) => r == Err::<(), NativeError>(x),
        },
        final(pool).free@ == old(pool).free@,
    decreases expr,
{
    reveal(native_instrs);
    let ghost out0 = out@;
    match expr {
        Expr::Num(n) => {
            put_mov(out, dest, *n);
            assert(render(seq![Instr::Mov(dest, *n)]) =~= mov_line(dest, *n)) by {
                assert(seq![Instr::Mov(dest, *n)].drop_last() =~= Seq::<Instr>::empty());
                assert(render(Seq::<Instr>::empty()) == Seq::<char>::empty());
                assert(Seq::<char>::empty() + mov_line(dest, *n) =~= mov_line(dest, *n));
            }
            Ok(())
        },
        Expr::Neg(inner) => {
            match emit(inner, dest, pool, out) {
                Ok(()) => {},
                Err(e) => return Err(e),
            }
            let ghost out1 = out@;
            put_neg(out, dest);
            proof {
                if let Ok(is) = native_instrs(inner@, dest, pool.free@) {
                    assert(is.push(Instr::Neg(dest)).drop_last() =~= is);
                    assert(out@ =~= out0 + (render(is) + neg_line(dest)));
                }
            }
            Ok(())
        },
        Expr::Bin { op, left, right } => {
            let ghost pool0 = pool.free@;
            match emit(left, dest, pool, out) {
                Ok(()) => {},
                Err(e) => return Err(e),
            }
            let ghost out1 = out@;
            let tmp = match pool.acquire() {
                Some(r) => r,
                None => return Err(NativeError::OutOfRegisters),
            };
            let r = emit(right, tmp, pool, out);
            pool.free(tmp);
            assert(pool.free@ =~= pool0);
            match r {
                Ok(()) => {},
                Err(e) => return Err(e),
            }
            let mnemonic = match op {
                BinOp::Add => "add ",
                BinOp::Sub => "sub ",
                BinOp::Mul => "imul",
                BinOp::Div => return Err(NativeError::DivisionUnsupported),
            };
            assert(mnemonic@ == op_mnemonic(*op));
            put_op(out, mnemonic, *op, dest, tmp);
            proof {
                if let Ok(is1) = native_instrs(left@, dest, pool0) {
                    if let Ok(is2) = native_instrs(right@, tmp, pool0.drop_last()) {
                        let is = (is1 + is2).push(Instr::Op(*op, dest, tmp));
                        assert(is.drop_last() =~= is1 + is2);
                        lemma_render_concat(is1, is2);
                        assert(out@ =~= out0 + (render(is1) + render(is2) + op_line(*op, dest, tmp)));
                    }
                }
            }
            Ok(())
        },
        _ => Err(NativeError::Unsupported),
    }
}

/// Assembles a phase-1 expression into a `main` that returns its value, or
/// reports why the expression is beyond this backend.
pub fn try_codegen(expr: &Expr) -> (r: Result<String, NativeError>)
    ensures
        r is Ok <==> spec_native_codegen(expr@) is Ok,
        r matches Ok(text) ==> spec_native_codegen(expr@) == Ok::<_, NativeError>(text@),
        r matches Err(e) ==> spec_native_codegen(expr@) == Err::<Seq<char>, _>(e),
        r is Ok <==> phase_one(expr@) && regs_needed(expr@) <= 7,
{
    proof {
        lemma_native_emit_succeeds(expr@, Reg::Rax, initial_pool());
    }
    let mut out = String::new();
    out.append(".intel_syntax noprefix\n");
    out.append(".global _main\n");
    out.append("_main:\n");
    out.append("    push rbp\n");
    out.append("    mov  rbp, rsp\n");
    let ghost out0 = out@;
    assert(out0 =~= prologue());
    let mut pool = RegPool::new();
    match emit(expr, Reg::Rax, &mut pool, &mut out) {
        Ok(()) => {},
        Err(e) => return Err(e),
    }
    out.append("    pop  rbp\n");
    out.append("    ret\n");
    proof {
        if let Ok(t) = native_emit(expr@, Reg::Rax, initial_pool()) {
            assert(out@ =~= prologue() + t + epilogue());
        }
    }
    Ok(out)
}

/// Assembles an expression that this backend handles: see `try_codegen` for
/// the total version that reports why it does not.
pub fn codegen(expr: &Expr) -> (text: String)
    requires
        phase_one(expr@),
        regs_needed(expr@) <= 7,
    ensures
        spec_native_codegen(expr@) == Ok::<_, NativeError>(text@),
{
    proof {
        lemma_native_emit_succeeds(expr@, Reg::Rax, initial_pool());
    }
    match try_codegen(expr) {
        Ok(text) => text,
        Err(_) => {
            assert(false);
            String::new()
        },
    }
}


/// No register is handed out twice: the pool holds distinct registers.
pub open spec fn distinct_regs(pool: Seq<Reg>) -> bool {
    forall|i: int, j: int| 0 <= i < j < pool.len() ==> pool[i] != pool[j]
}

/// Whether, all through the tree walk for `e` into `dest`, the register that
/// receives a right operand holds no live value: it is neither the left
/// operand's register `dest` nor any register in `live` (those holding the
/// pending left operands of enclosing operations).
pub open spec fn no_clobber(e: ExprV, dest: Reg, pool: Seq<Reg>, live: Set<Reg>) -> bool
    decreases e,
{
    match e {
        ExprV::Neg(inner) => no_clobber(*inner, dest, pool, live),
        ExprV::Bin { left, right, .. } => {
            &&& no_clobber(*left, dest, pool, live)
            &&& pool.len() > 0 ==> {
                let tmp = pool.last();
                &&& tmp != dest
                &&& !live.contains(tmp)
                &&& no_clobber(*right, tmp, pool.drop_last(), live.insert(dest))
            }
        },
        _ => true,
    }
}

/// With a pool of distinct registers that holds neither the destination nor
/// any live register, the tree walk never overwrites a value it still needs.
pub proof fn lemma_no_clobber(e: ExprV, dest: Reg, pool: Seq<Reg>, live: Set<Reg>)
    requires
        distinct_regs(pool),
        !pool.contains(dest),
        !live.contains(dest),
        forall|r: Reg| live.contains(r) ==> !pool.contains(r),
    ensures
        no_clobber(e, dest, pool, live),
    decreases e,
{
    match e {
        ExprV::Neg(inner) => {
            lemma_no_clobber(*inner, dest, pool, live);
        },
        ExprV::Bin { left, right, .. } => {
            lemma_no_clobber(*left, dest, pool, live);
            if pool.len() > 0 {
                let tmp = pool.last();
                let rest = pool.drop_last();
                assert(pool.contains(tmp));
                assert(!rest.contains(tmp)) by {
                    if rest.contains(tmp) {
                        let k = choose|k: int| 0 <= k < rest.len() && rest[k] == tmp;
                        assert(pool[k] == pool[pool.len() - 1]);
                    }
                }
                assert(distinct_regs(rest)) by {
                    assert forall|i: int, j: int| 0 <= i < j < rest.len() implies rest[i] != rest[j] by {
                        assert(rest[i] == pool[i] && rest[j] == pool[j]);
                    }
                }
                assert forall|r: Reg| live.insert(dest).contains(r) implies !rest.contains(r) by {
                    if rest.contains(r) {
                        let k = choose|k: int| 0 <= k < rest.len() && rest[k] == r;
                        assert(pool[k] == r);
                    }
                }
                lemma_no_clobber(*right, tmp, rest, live.insert(dest));
            }
        },
        _ => {},
    }
}

/// The program's tree walk (into `rax`, with the initial pool) never
/// overwrites a live value.
pub proof fn lemma_main_no_clobber(e: ExprV)
    ensures
        no_clobber(e, Reg::Rax, initial_pool(), Set::empty()),
{
    let pool = initial_pool();
    assert(distinct_regs(pool));
    assert(!pool.contains(Reg::Rax)) by {
        if pool.contains(Reg::Rax) {
            let k = choose|k: int| 0 <= k < pool.len() && pool[k] == Reg::Rax;
        }
    }
    lemma_no_clobber(e, Reg::Rax, pool, Set::empty());
}


/// The value an arithmetic expression leaves in a 64-bit register: each
/// operation wraps, as `neg`, `add`, `sub` and `imul` do.
pub open spec fn value_of(e: ExprV) -> int
    decreases e,
{
    match e {
        ExprV::Num(n) => n as int,
        ExprV::Neg(inner) => wrap_i64(-value_of(*inner)),
        ExprV::Bin { op, left, right } => {
            let l = value_of(*left);
            let r = value_of(*right);
            match op {
                BinOp::Add => wrap_i64(l + r),
                BinOp::Sub => wrap_i64(l - r),
                BinOp::Mul => wrap_i64(l * r),
                BinOp::Div => trunc_div(l, r),
            }
        },
        _ => 0,
    }
}

pub open spec fn set_reg(regs: spec_fn(Reg) -> int, d: Reg, v: int) -> spec_fn(Reg) -> int {
    |r: Reg| if r == d { v } else { regs(r) }
}

/// What one instruction does to the registers.
pub open spec fn step(i: Instr, regs: spec_fn(Reg) -> int) -> spec_fn(Reg) -> int {
    match i {
        Instr::Mov(d, n) => set_reg(regs, d, n as int),
        Instr::Neg(d) => set_reg(regs, d, wrap_i64(-regs(d))),
        Instr::Op(op, d, s) => set_reg(
            regs,
            d,
            match op {
                BinOp::Add => wrap_i64(regs(d) + regs(s)),
                BinOp::Sub => wrap_i64(regs(d) - regs(s)),
                BinOp::Mul => wrap_i64(regs(d) * regs(s)),
                BinOp::Div => trunc_div(regs(d), regs(s)),
            },
        ),
    }
}

/// The registers after running an instruction sequence.
pub open spec fn run(is: Seq<Instr>, regs: spec_fn(Reg) -> int) -> spec_fn(Reg) -> int
    decreases is.len(),
{
    if is.len() == 0 {
        regs
    } else {
        step(is.last(), run(is.drop_last(), regs))
    }
}

/// Running two instruction sequences in a row.
pub proof fn lemma_run_concat(a: Seq<Instr>, b: Seq<Instr>, regs: spec_fn(Reg) -> int)
    ensures
        run(a + b, regs) == run(b, run(a, regs)),
    decreases b.len(),
{
    if b.len() == 0 {
        assert(a + b =~= a);
    } else {
        assert((a + b).drop_last() =~= a + b.drop_last());
        lemma_run_concat(a, b.drop_last(), regs);
    }
}

proof fn lemma_pool_split(pool: Seq<Reg>, dest: Reg)
    requires
        distinct_regs(pool),
        !pool.contains(dest),
        pool.len() > 0,
    ensures
        distinct_regs(pool.drop_last()),
        !pool.drop_last().contains(pool.last()),
        pool.last() != dest,
        forall|r: Reg| pool.drop_last().contains(r) ==> pool.contains(r),
{
    let rest = pool.drop_last();
    assert(pool.contains(pool.last()));
    assert(!rest.contains(pool.last())) by {
        if rest.contains(pool.last()) {
            let k = choose|k: int| 0 <= k < rest.len() && rest[k] == pool.last();
            assert(pool[k] == pool[pool.len() - 1]);
        }
    }
    assert forall|i: int, j: int| 0 <= i < j < rest.len() implies rest[i] != rest[j] by {
        assert(rest[i] == pool[i] && rest[j] == pool[j]);
    }
    assert forall|r: Reg| rest.contains(r) implies pool.contains(r) by {
        let k = choose|k: int| 0 <= k < rest.len() && rest[k] == r;
        assert(pool[k] == r);
    }
}

/// The instructions for `e` leave its value in `dest` and change no register
/// outside `dest` and the pool.
pub proof fn lemma_native_instrs_compute(e: ExprV, dest: Reg, pool: Seq<Reg>, regs: spec_fn(Reg) -> int)
    requires
        distinct_regs(pool),
        !pool.contains(dest),
    ensures
        native_instrs(e, dest, pool) matches Ok(is) ==> {
            &&& run(is, regs)(dest) == value_of(e)
            &&& forall|r: Reg| r != dest && !pool.contains(r) ==> run(is, regs)(r) == regs(r)
        },
    decreases e,
{
    reveal(native_instrs);
    match e {
        ExprV::Num(n) => {
            let is = seq![Instr::Mov(dest, n)];
            assert(is.drop_last() =~= Seq::<Instr>::empty());
            assert(run(Seq::<Instr>::empty(), regs) == regs);
            assert(run(is, regs) == step(Instr::Mov(dest, n), regs));
        },
        ExprV::Neg(inner) => {
            lemma_native_instrs_compute(*inner, dest, pool, regs);
            if let Ok(is) = native_instrs(*inner, dest, pool) {
                assert(is.push(Instr::Neg(dest)).drop_last() =~= is);
                assert(run(is.push(Instr::Neg(dest)), regs) == step(Instr::Neg(dest), run(is, regs)));
            }
        },
        ExprV::Bin { op, left, right } => {
            lemma_native_instrs_compute(*left, dest, pool, regs);
            if let Ok(is1) = native_instrs(*left, dest, pool) {
                if pool.len() > 0 {
                    let tmp = pool.last();
                    let rest = pool.drop_last();
                    lemma_pool_split(pool, dest);
                    let r1 = run(is1, regs);
                    lemma_native_instrs_compute(*right, tmp, rest, r1);
                    if let Ok(is2) = native_instrs(*right, tmp, rest) {
                        if op != BinOp::Div {
                            let is = (is1 + is2).push(Instr::Op(op, dest, tmp));
                            assert(is.drop_last() =~= is1 + is2);
                            lemma_run_concat(is1, is2, regs);
                            let r2 = run(is2, r1);
                            assert(r2(dest) == r1(dest));
                            assert(run(is, regs) == step(Instr::Op(op, dest, tmp), r2));
                            assert(run(is, regs)(dest) == value_of(e));
                        }
                    }
                }
            }
        },
        _ => {},
    }
}

/// Where a phase-1 expression's value is defined (no step overflows), the
/// wrapping register arithmetic computes exactly that value.
pub proof fn lemma_value_of_eval(env: Seq<(Seq<char>, Value)>, e: ExprV)
    requires
        phase_one(e),
        eval_expr(env, e) is Some,
    ensures
        value_of(e) == value_code(eval_expr(env, e)->Some_0),
    decreases e,
{
    reveal(eval_expr);
    match e {
        ExprV::Neg(inner) => {
            lemma_value_of_eval(env, *inner);
            lemma_wrap_fits(-value_of(*inner));
        },
        ExprV::Bin { op, left, right } => {
            lemma_value_of_eval(env, *left);
            lemma_value_of_eval(env, *right);
            let l = value_of(*left);
            let r = value_of(*right);
            match op {
                BinOp::Add => lemma_wrap_fits(l + r),
                BinOp::Sub => lemma_wrap_fits(l - r),
                BinOp::Mul => lemma_wrap_fits(l * r),
                BinOp::Div => {},
            }
        },
        _ => {},
    }
}

/// The assembly computes the program: when the backend succeeds, the text
/// between the prologue and the epilogue renders an instruction sequence
/// that, from any register contents, leaves the expression's value in `rax`
/// and changes no register but `rax` and the scratch pool. Where the
/// program's value is defined, that is the value `rax` ends with.
pub proof fn lemma_native_codegen_computes(e: ExprV, regs: spec_fn(Reg) -> int)
    ensures
        spec_native_codegen(e) is Ok <==> native_instrs(e, Reg::Rax, initial_pool()) is Ok,
        native_instrs(e, Reg::Rax, initial_pool()) matches Ok(is) ==> {
            &&& spec_native_codegen(e) == Ok::<_, NativeError>(prologue() + render(is) + epilogue())
            &&& run(is, regs)(Reg::Rax) == value_of(e)
            &&& forall|r: Reg| r != Reg::Rax && !initial_pool().contains(r) ==> run(is, regs)(r)
                == regs(r)
            &&& eval_expr(Seq::empty(), e) matches Some(v) ==> run(is, regs)(Reg::Rax)
                == value_code(v)
        },
{
    let pool = initial_pool();
    assert(distinct_regs(pool));
    assert(!pool.contains(Reg::Rax)) by {
        if pool.contains(Reg::Rax) {
            let k = choose|k: int| 0 <= k < pool.len() && pool[k] == Reg::Rax;
        }
    }
    lemma_native_instrs_compute(e, Reg::Rax, pool, regs);
    lemma_native_emit_succeeds(e, Reg::Rax, pool);
    if eval_expr(Seq::empty(), e) is Some && native_instrs(e, Reg::Rax, pool) is Ok {
        lemma_value_of_eval(Seq::empty(), e);
    }
}

/// Giving back the register just taken restores the pool: `acquire` takes
/// the last free register and `free` puts it back at the end.
pub proof fn lemma_free_undoes_acquire(pool: Seq<Reg>)
    requires
        pool.len() > 0,
    ensures
        pool.drop_last().push(pool.last()) == pool,
{
    assert(pool.drop_last().push(pool.last()) =~= pool);
}

/// Registers identified by the names the assembly prints.
pub open spec fn set_named(regs: spec_fn(Seq<char>) -> int, name: Seq<char>, v: int) -> spec_fn(
    Seq<char>,
) -> int {
    |n: Seq<char>| if n == name { v } else { regs(n) }
}

/// What a two-operand x86-64 instruction computes, read from the mnemonic
/// text it is printed with: `add`, `sub` and `imul` wrap. (Division is
/// never emitted.)
pub open spec fn x86_binop(mn: Seq<char>, d: int, s: int) -> int {
    if mn == "add "@ {
        wrap_i64(d + s)
    } else if mn == "sub "@ {
        wrap_i64(d - s)
    } else if mn == "imul"@ {
        wrap_i64(d * s)
    } else {
        0
    }
}

/// One instruction, on registers named as printed.
pub open spec fn step_named(i: Instr, regs: spec_fn(Seq<char>) -> int) -> spec_fn(Seq<char>) -> int {
    match i {
        Instr::Mov(d, n) => set_named(regs, reg_name(d), n as int),
        Instr::Neg(d) => set_named(regs, reg_name(d), wrap_i64(-regs(reg_name(d)))),
        Instr::Op(op, d, s) => set_named(
            regs,
            reg_name(d),
            x86_binop(op_mnemonic(op), regs(reg_name(d)), regs(reg_name(s))),
        ),
    }
}

/// An instruction sequence, on registers named as printed.
pub open spec fn run_named(is: Seq<Instr>, regs: spec_fn(Seq<char>) -> int) -> spec_fn(
    Seq<char>,
) -> int
    decreases is.len(),
{
    if is.len() == 0 {
        regs
    } else {
        step_named(is.last(), run_named(is.drop_last(), regs))
    }
}

/// No instruction of `is` divides.
pub open spec fn no_division(is: Seq<Instr>) -> bool {
    forall|i: int| 0 <= i < is.len() ==> !(#[trigger] is[i] matches Instr::Op(BinOp::Div, _, _))
}

/// The names the assembly prints for the registers: the standard x86-64
/// names, one per register.
pub proof fn lemma_reg_names()
    ensures
        reg_name(Reg::Rax) == "rax"@,
        forall|r: Reg| #[trigger] reg_name(r) == "rax"@ || reg_name(r) == "rbx"@ || reg_name(r) == "rcx"@
            || reg_name(r) == "rdx"@ || reg_name(r) == "r8"@ || reg_name(r) == "r9"@ || reg_name(r)
            == "r10"@ || reg_name(r) == "r11"@,
        forall|r1: Reg, r2: Reg| r1 != r2 ==> #[trigger] reg_name(r1) != #[trigger] reg_name(r2),
{
    reveal_strlit("rax");
    reveal_strlit("rbx");
    reveal_strlit("rcx");
    reveal_strlit("rdx");
    reveal_strlit("r8");
    reveal_strlit("r9");
    reveal_strlit("r10");
    reveal_strlit("r11");
    assert forall|r1: Reg, r2: Reg| r1 != r2 implies #[trigger] reg_name(r1) != #[trigger] reg_name(
        r2,
    ) by {
        if reg_name(r1) == reg_name(r2) {
            assert(reg_name(r1).len() == reg_name(r2).len());
            assert(reg_name(r1)[1] == reg_name(r2)[1]);
            if reg_name(r1).len() == 3 {
                assert(reg_name(r1)[2] == reg_name(r2)[2]);
            }
        }
    }
}

/// The mnemonic printed for each operator is the x86-64 instruction that
/// computes it.
proof fn lemma_x86_mnemonics(op: BinOp, a: int, b: int)
    requires
        op != BinOp::Div,
    ensures
        x86_binop(op_mnemonic(op), a, b) == match op {
            BinOp::Add => wrap_i64(a + b),
            BinOp::Sub => wrap_i64(a - b),
            _ => wrap_i64(a * b),
        },
{
    reveal_strlit("add ");
    reveal_strlit("sub ");
    reveal_strlit("imul");
    assert("sub "@[0] != "add "@[0]);
    assert("imul"@[0] != "add "@[0] && "imul"@[0] != "sub "@[0]);
}

/// On instructions that do not divide, the registers named as printed hold
/// what the registers themselves hold, and a name no register prints is
/// never written.
proof fn lemma_run_named(is: Seq<Instr>, regs: spec_fn(Seq<char>) -> int)
    requires
        no_division(is),
    ensures
        forall|r: Reg| #[trigger] run_named(is, regs)(reg_name(r)) == run(
            is,
            |q: Reg| regs(reg_name(q)),
        )(r),
        forall|n: Seq<char>| (forall|r: Reg| reg_name(r) != n) ==> #[trigger] run_named(is, regs)(n)
            == regs(n),
    decreases is.len(),
{
    lemma_reg_names();
    let base = |q: Reg| regs(reg_name(q));
    if is.len() > 0 {
        let front = is.drop_last();
        assert forall|i: int| 0 <= i < front.len() implies !(#[trigger] front[i] matches Instr::Op(
            BinOp::Div,
            _,
            _,
        )) by {
            assert(front[i] == is[i]);
        }
        lemma_run_named(front, regs);
        let mn = run_named(front, regs);
        let mr = run(front, base);
        let i = is.last();
        assert(!(is[is.len() - 1] matches Instr::Op(BinOp::Div, _, _)));
        assert(run_named(is, regs) == step_named(i, mn));
        assert(run(is, base) == step(i, mr));
        match i {
            Instr::Op(op, d, src) => {
                lemma_x86_mnemonics(op, mn(reg_name(d)), mn(reg_name(src)));
            },
            _ => {},
        }
        assert forall|r: Reg| #[trigger] run_named(is, regs)(reg_name(r)) == run(is, base)(r) by {
            assert(mn(reg_name(r)) == mr(r));
        }
    }
}

/// The instructions for an expression never divide.
proof fn lemma_no_division(e: ExprV, dest: Reg, pool: Seq<Reg>)
    ensures
        native_instrs(e, dest, pool) matches Ok(is) ==> no_division(is),
    decreases e,
{
    reveal(native_instrs);
    match e {
        ExprV::Neg(inner) => {
            lemma_no_division(*inner, dest, pool);
            if let Ok(is) = native_instrs(*inner, dest, pool) {
                assert forall|i: int| 0 <= i < is.push(Instr::Neg(dest)).len() implies !(
                #[trigger] is.push(Instr::Neg(dest))[i] matches Instr::Op(BinOp::Div, _, _)) by {
                    if i < is.len() {
                        assert(is.push(Instr::Neg(dest))[i] == is[i]);
                    }
                }
            }
        },
        ExprV::Bin { op, left, right } => {
            lemma_no_division(*left, dest, pool);
            if pool.len() > 0 {
                lemma_no_division(*right, pool.last(), pool.drop_last());
                if let Ok(is1) = native_instrs(*left, dest, pool) {
                    if let Ok(is2) = native_instrs(*right, pool.last(), pool.drop_last()) {
                        if op != BinOp::Div {
                            let is = (is1 + is2).push(Instr::Op(op, dest, pool.last()));
                            assert forall|i: int| 0 <= i < is.len() implies !(
                            #[trigger] is[i] matches Instr::Op(BinOp::Div, _, _)) by {
                                if i < is1.len() {
                                    assert(is[i] == is1[i]);
                                } else if i < is1.len() + is2.len() {
                                    assert(is[i] == is2[i - is1.len()]);
                                }
                            }
                        }
                    }
                }
            }
        },
        _ => {},
    }
}

/// The assembly computes the program with registers identified by the
/// names it prints: from any register contents, the code between prologue
/// and epilogue leaves the expression's value in `rax` (the program's value,
/// where that is defined) and writes no register but `rax`, `rbx`, `rcx`,
/// `rdx`, `r8`, `r9`, `r10` and `r11` (so never `rbp` or `rsp`).
pub proof fn lemma_native_text_computes(e: ExprV, regs: spec_fn(Seq<char>) -> int)
    ensures
        native_instrs(e, Reg::Rax, initial_pool()) matches Ok(is) ==> {
            &&& spec_native_codegen(e) == Ok::<_, NativeError>(prologue() + render(is) + epilogue())
            &&& run_named(is, regs)("rax"@) == value_of(e)
            &&& eval_expr(Seq::empty(), e) matches Some(v) ==> run_named(is, regs)("rax"@)
                == value_code(v)
            &&& forall|n: Seq<char>|
                n != "rax"@ && n != "rbx"@ && n != "rcx"@ && n != "rdx"@ && n != "r8"@ && n
                    != "r9"@ && n != "r10"@ && n != "r11"@ ==> #[trigger] run_named(is, regs)(n)
                    == regs(n)
        },
{
    lemma_reg_names();
    lemma_no_division(e, Reg::Rax, initial_pool());
    lemma_native_codegen_computes(e, |q: Reg| regs(reg_name(q)));
    if let Ok(is) = native_instrs(e, Reg::Rax, initial_pool()) {
        lemma_run_named(is, regs);
        assert(run_named(is, regs)(reg_name(Reg::Rax)) == run(is, |q: Reg| regs(reg_name(q)))(
            Reg::Rax,
        ));
    }
}

/// The register an x86-64 register name denotes.
pub open spec fn reg_of_word(w: Seq<char>) -> Option<Reg> {
    if w == seq!['r', 'a', 'x'] {
        Some(Reg::Rax)
    } else if w == seq!['r', 'b', 'x'] {
        Some(Reg::Rbx)
    } else if w == seq!['r', 'c', 'x'] {
        Some(Reg::Rcx)
    } else if w == seq!['r', 'd', 'x'] {
        Some(Reg::Rdx)
    } else if w == seq!['r', '8'] {
        Some(Reg::R8)
    } else if w == seq!['r', '9'] {
        Some(Reg::R9)
    } else if w == seq!['r', '1', '0'] {
        Some(Reg::R10)
    } else if w == seq!['r', '1', '1'] {
        Some(Reg::R11)
    } else {
        None
    }
}

/// The operator an x86-64 two-operand mnemonic denotes.
pub open spec fn x86_op_of_word(w: Seq<char>) -> Option<BinOp> {
    if w == seq!['a', 'd', 'd'] {
        Some(BinOp::Add)
    } else if w == seq!['s', 'u', 'b'] {
        Some(BinOp::Sub)
    } else if w == seq!['i', 'm', 'u', 'l'] {
        Some(BinOp::Mul)
    } else if w == seq!['i', 'd', 'i', 'v'] {
        Some(BinOp::Div)
    } else {
        None
    }
}

/// The instruction a line of assembly spells, read from its words alone.
pub open spec fn decode_asm_line(line: Seq<char>) -> Option<Instr> {
    if !ends_with(line, '\n') {
        None
    } else {
        let ws = words(line.drop_last());
        if ws.len() == 3 && ws[0] == seq!['m', 'o', 'v'] && ends_with(ws[1], ',') {
            match (reg_of_word(ws[1].drop_last()), literal_value(ws[2])) {
                (Some(r), Some(v)) => if fits_i64(v) {
                    Some(Instr::Mov(r, v as i64))
                } else {
                    None
                },
                _ => None,
            }
        } else if ws.len() == 2 && ws[0] == seq!['n', 'e', 'g'] {
            match reg_of_word(ws[1]) {
                Some(r) => Some(Instr::Neg(r)),
                None => None,
            }
        } else if ws.len() == 3 && ends_with(ws[1], ',') {
            match (x86_op_of_word(ws[0]), reg_of_word(ws[1].drop_last()), reg_of_word(ws[2])) {
                (Some(op), Some(d), Some(r)) => Some(Instr::Op(op, d, r)),
                _ => None,
            }
        } else {
            None
        }
    }
}

proof fn lemma_reg_words(r: Reg)
    ensures
        plain(reg_name(r)),
        reg_of_word(reg_name(r)) == Some(r),
{
    reveal_strlit("rax");
    reveal_strlit("rbx");
    reveal_strlit("rcx");
    reveal_strlit("rdx");
    reveal_strlit("r8");
    reveal_strlit("r9");
    reveal_strlit("r10");
    reveal_strlit("r11");
    assert("rax"@ =~= seq!['r', 'a', 'x']);
    assert("rbx"@ =~= seq!['r', 'b', 'x']);
    assert("rcx"@ =~= seq!['r', 'c', 'x']);
    assert("rdx"@ =~= seq!['r', 'd', 'x']);
    assert("r8"@ =~= seq!['r', '8']);
    assert("r9"@ =~= seq!['r', '9']);
    assert("r10"@ =~= seq!['r', '1', '0']);
    assert("r11"@ =~= seq!['r', '1', '1']);
}

/// Four spaces of indentation are not words.
proof fn lemma_words_indent(rest: Seq<char>)
    ensures
        words(seq![' ', ' ', ' ', ' '] + rest) == words(rest),
{
    assert(seq![' ', ' ', ' ', ' '] + rest =~= seq![' '] + (seq![' '] + (seq![' '] + (seq![' ']
        + rest))));
    lemma_words_space(seq![' '] + (seq![' '] + (seq![' '] + rest)));
    lemma_words_space(seq![' '] + (seq![' '] + rest));
    lemma_words_space(seq![' '] + rest);
    lemma_words_space(rest);
}

#[verifier::spinoff_prover]
proof fn lemma_decode_mov(d: Reg, n: i64)
    ensures
        decode_asm_line(render_instr(Instr::Mov(d, n))) == Some(Instr::Mov(d, n)),
{
    reveal(mov_line);
    reveal_strlit("\n");
    let i = Instr::Mov(d, n);
    reveal_strlit("    mov  ");
    reveal_strlit(", ");
    lemma_reg_words(d);
    let num = i64_view_text(n);
    lemma_int_text_operand(Map::empty(), n as int);
    lemma_nat_text_digits(if n < 0 { (-n) as nat } else { n as nat });
    assert(plain(num)) by {
        assert forall|k: int| 0 <= k < num.len() implies num[k] != ' ' by {
            if n < 0 {
                if k > 0 {
                    assert(num[k] == nat_text((-n) as nat)[k - 1]);
                }
            }
        }
    }
    let rc = reg_name(d) + seq![','];
    assert(plain(rc));
    let body = seq!['m', 'o', 'v'] + seq![' '] + (seq![' '] + (rc + seq![' '] + num));
    assert(render_instr(i).drop_last() =~= seq![' ', ' ', ' ', ' '] + body);
    lemma_words_indent(body);
    lemma_words_cons(seq!['m', 'o', 'v'], seq![' '] + (rc + seq![' '] + num));
    lemma_words_space(rc + seq![' '] + num);
    lemma_words_cons(rc, num);
    lemma_words_single(num);
    assert(words(render_instr(i).drop_last()) =~= seq![seq!['m', 'o', 'v'], rc, num]);
    assert(rc.drop_last() =~= reg_name(d));
    assert(literal_value(num) == Some(n as int));
}

#[verifier::spinoff_prover]
proof fn lemma_decode_neg_line(d: Reg)
    ensures
        decode_asm_line(render_instr(Instr::Neg(d))) == Some(Instr::Neg(d)),
{
    reveal(neg_line);
    reveal_strlit("\n");
    let i = Instr::Neg(d);
    reveal_strlit("    neg  ");
    lemma_reg_words(d);
    let body = seq!['n', 'e', 'g'] + seq![' '] + (seq![' '] + reg_name(d));
    assert(render_instr(i).drop_last() =~= seq![' ', ' ', ' ', ' '] + body);
    lemma_words_indent(body);
    lemma_words_cons(seq!['n', 'e', 'g'], seq![' '] + reg_name(d));
    lemma_words_space(reg_name(d));
    lemma_words_single(reg_name(d));
    assert(words(render_instr(i).drop_last()) =~= seq![seq!['n', 'e', 'g'], reg_name(d)]);
}

#[verifier::spinoff_prover]
proof fn lemma_decode_op(op: BinOp, d: Reg, src: Reg)
    ensures
        decode_asm_line(render_instr(Instr::Op(op, d, src))) == Some(Instr::Op(op, d, src)),
{
    reveal(op_line);
    reveal_strlit("\n");
    let i = Instr::Op(op, d, src);
    reveal_strlit("    ");
    reveal_strlit(" ");
    reveal_strlit(", ");
    reveal_strlit("add ");
    reveal_strlit("sub ");
    reveal_strlit("imul");
    reveal_strlit("idiv");
    lemma_reg_words(d);
    lemma_reg_words(src);
    let mw = if op == BinOp::Add {
        seq!['a', 'd', 'd']
    } else if op == BinOp::Sub {
        seq!['s', 'u', 'b']
    } else if op == BinOp::Mul {
        seq!['i', 'm', 'u', 'l']
    } else {
        seq!['i', 'd', 'i', 'v']
    };
    let rest = reg_name(d) + seq![','] + seq![' '] + reg_name(src);
    let tail = if op == BinOp::Add || op == BinOp::Sub {
        seq![' '] + rest
    } else {
        rest
    };
    assert(op_mnemonic(op) + " "@ + reg_name(d) + ", "@ + reg_name(src) =~= mw + seq![' ']
        + tail);
    let body = mw + seq![' '] + tail;
    assert(render_instr(i).drop_last() =~= seq![' ', ' ', ' ', ' '] + body);
    lemma_words_indent(body);
    lemma_words_cons(mw, tail);
    if op == BinOp::Add || op == BinOp::Sub {
        lemma_words_space(rest);
    }
    let rc = reg_name(d) + seq![','];
    assert(plain(rc));
    lemma_words_cons(rc, reg_name(src));
    lemma_words_single(reg_name(src));
    assert(words(render_instr(i).drop_last()) =~= seq![mw, rc, reg_name(src)]);
    assert(rc.drop_last() =~= reg_name(d));
    assert(mw != seq!['m', 'o', 'v'] && mw != seq!['n', 'e', 'g']);
}

/// Every line of assembly the backend prints, read back by the decoder
/// alone (register names, mnemonics and numbers), is the instruction it
/// was printed for.
pub proof fn lemma_decode_asm(i: Instr)
    ensures
        decode_asm_line(render_instr(i)) == Some(i),
{
    match i {
        Instr::Mov(d, n) => lemma_decode_mov(d, n),
        Instr::Neg(d) => lemma_decode_neg_line(d),
        Instr::Op(op, d, src) => lemma_decode_op(op, d, src),
    }
}
} // verus!
