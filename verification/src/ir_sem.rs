//! A small-step semantics of the LLVM IR subset that the translation emits,
//! with the facts about decimal text and fresh names that reading operands
//! relies on.
//!
//! A machine has SSA registers and stack slots, both keyed by their names,
//! the label of the block it is in, the block it came from (for `phi`), and
//! the value `ret` returned, once it has.
use vstd::prelude::*;

use crate::ast::{BinOp, CmpOp};
use crate::eval::{compare, fits_i64, trunc_div, wrap_i64};
use crate::ir::{Inst, mnemonic, predicate};
use crate::lexer::{digit_value, digits_value, is_digit};
use crate::text::{digit_char, int_text, nat_text};

verus! {

pub open spec fn all_digits(s: Seq<char>) -> bool {
    forall|i: int| 0 <= i < s.len() ==> is_digit(#[trigger] s[i])
}

/// The number a literal operand denotes: `true`, `false`, or a decimal
/// integer with an optional leading `-`.
pub open spec fn literal_value(o: Seq<char>) -> Option<int> {
    if o == "true"@ {
        Some(1)
    } else if o == "false"@ {
        Some(0)
    } else if o.len() >= 2 && o[0] == '-' && all_digits(o.drop_first()) {
        Some(-digits_value(o.drop_first()))
    } else if o.len() >= 1 && all_digits(o) {
        Some(digits_value(o))
    } else {
        None
    }
}

pub open spec fn is_register(o: Seq<char>) -> bool {
    o.len() > 0 && o[0] == '%'
}

/// The value of an operand: a register's contents, or a literal's number.
pub open spec fn operand(regs: Map<Seq<char>, int>, o: Seq<char>) -> Option<int> {
    if is_register(o) {
        if regs.dom().contains(o) {
            Some(regs[o])
        } else {
            None
        }
    } else {
        literal_value(o)
    }
}

pub open spec fn digit_suffix_len(s: Seq<char>) -> nat
    decreases s.len(),
{
    if s.len() > 0 && is_digit(s.last()) {
        1 + digit_suffix_len(s.drop_last())
    } else {
        0
    }
}

/// The number a fresh name was drawn with: the value of its trailing
/// digits, or -1 where it has none.
pub open spec fn name_id(s: Seq<char>) -> int {
    let k = digit_suffix_len(s);
    if k == 0 {
        -1
    } else {
        digits_value(s.subrange(s.len() - k, s.len() as int))
    }
}

/// `add`, `sub` and `mul` wrap; `sdiv` is undefined on a zero divisor and
/// where the quotient overflows.
pub open spec fn ir_arith(op: BinOp, a: int, b: int) -> Option<int> {
    match op {
        BinOp::Add => Some(wrap_i64(a + b)),
        BinOp::Sub => Some(wrap_i64(a - b)),
        BinOp::Mul => Some(wrap_i64(a * b)),
        BinOp::Div => if b == 0 || !fits_i64(trunc_div(a, b)) {
            None
        } else {
            Some(trunc_div(a, b))
        },
    }
}

/// What an LLVM integer opcode, read from its text, computes: `add`, `sub`
/// and `mul` wrap; `sdiv` is undefined on a zero divisor and where the
/// quotient overflows. Any other text is no opcode.
pub open spec fn llvm_binop(opcode: Seq<char>, a: int, b: int) -> Option<int> {
    if opcode == "add"@ {
        Some(wrap_i64(a + b))
    } else if opcode == "sub"@ {
        Some(wrap_i64(a - b))
    } else if opcode == "mul"@ {
        Some(wrap_i64(a * b))
    } else if opcode == "sdiv"@ {
        if b == 0 || !fits_i64(trunc_div(a, b)) {
            None
        } else {
            Some(trunc_div(a, b))
        }
    } else {
        None
    }
}

/// What an `icmp` predicate, read from its text, decides of two signed
/// integers. Any other text is no predicate.
pub open spec fn llvm_icmp(pred: Seq<char>, a: int, b: int) -> Option<bool> {
    if pred == "slt"@ {
        Some(a < b)
    } else if pred == "sgt"@ {
        Some(a > b)
    } else if pred == "sle"@ {
        Some(a <= b)
    } else if pred == "sge"@ {
        Some(a >= b)
    } else if pred == "eq"@ {
        Some(a == b)
    } else if pred == "ne"@ {
        Some(a != b)
    } else {
        None
    }
}

/// The state of a running function body.
pub struct Machine {
    pub pc: int,
    pub regs: Map<Seq<char>, int>,
    pub mem: Map<Seq<char>, int>,
    pub block: Seq<char>,
    pub prev: Seq<char>,
    pub ret: Option<int>,
}

pub open spec fn label_at(prog: Seq<Inst>, i: int, l: Seq<char>) -> bool {
    0 <= i < prog.len() && prog[i] == (Inst::Label { label: l })
}

/// A jump to label `l`: control moves to the label, and the block being
/// left is remembered for the `phi` of the block entered.
pub open spec fn jump(prog: Seq<Inst>, m: Machine, l: Seq<char>) -> Option<Machine> {
    if exists|i: int| label_at(prog, i, l) {
        let i = choose|i: int| label_at(prog, i, l);
        Some(Machine { pc: i, regs: m.regs, mem: m.mem, block: m.block, prev: m.block, ret: m.ret })
    } else {
        None
    }
}

pub open spec fn with_reg(m: Machine, dest: Seq<char>, x: int) -> Machine {
    Machine {
        pc: m.pc + 1,
        regs: m.regs.insert(dest, x),
        mem: m.mem,
        block: m.block,
        prev: m.prev,
        ret: m.ret,
    }
}

pub open spec fn with_mem(m: Machine, slot: Seq<char>, x: int) -> Machine {
    Machine {
        pc: m.pc + 1,
        regs: m.regs,
        mem: m.mem.insert(slot, x),
        block: m.block,
        prev: m.prev,
        ret: m.ret,
    }
}

/// One instruction. `None` is undefined behaviour (or a machine that has
/// already returned). A slot made by `alloca` holds 0 until a `store`; the
/// emitted code stores into every slot before it loads from it.
pub open spec fn step(prog: Seq<Inst>, m: Machine) -> Option<Machine> {
    if m.ret is Some || m.pc < 0 || m.pc >= prog.len() {
        None
    } else {
        match prog[m.pc] {
            Inst::Alloca { slot, ty } => Some(with_mem(m, slot, 0)),
            Inst::Store { ty, val, slot } => match operand(m.regs, val) {
                Some(x) => if m.mem.dom().contains(slot) {
                    Some(with_mem(m, slot, x))
                } else {
                    None
                },
                None => None,
            },
            Inst::Load { dest, ty, slot } => if m.mem.dom().contains(slot) {
                Some(with_reg(m, dest, m.mem[slot]))
            } else {
                None
            },
            Inst::Neg { dest, val } => match operand(m.regs, val) {
                Some(x) => Some(with_reg(m, dest, wrap_i64(0 - x))),
                None => None,
            },
            Inst::Arith { dest, op, l, r } => match operand(m.regs, l) {
                Some(a) => match operand(m.regs, r) {
                    Some(b) => match llvm_binop(mnemonic(op), a, b) {
                        Some(x) => Some(with_reg(m, dest, x)),
                        None => None,
                    },
                    None => None,
                },
                None => None,
            },
            Inst::Icmp { dest, op, l, r } => match operand(m.regs, l) {
                Some(a) => match operand(m.regs, r) {
                    Some(b) => match llvm_icmp(predicate(op), a, b) {
                        Some(c) => Some(
                            with_reg(
                                m,
                                dest,
                                if c {
                                    1
                                } else {
                                    0
                                },
                            ),
                        ),
                        None => None,
                    },
                    None => None,
                },
                None => None,
            },
            Inst::BrCond { cond, then_label, else_label } => match operand(m.regs, cond) {
                Some(x) => if x == 1 {
                    jump(prog, m, then_label)
                } else if x == 0 {
                    jump(prog, m, else_label)
                } else {
                    None
                },
                None => None,
            },
            Inst::Br { label } => jump(prog, m, label),
            Inst::Label { label } => Some(
                Machine {
                    pc: m.pc + 1,
                    regs: m.regs,
                    mem: m.mem,
                    block: label,
                    prev: m.prev,
                    ret: m.ret,
                },
            ),
            Inst::Phi { dest, ty, then_val, then_block, else_val, else_block } => if m.prev
                == then_block {
                match operand(m.regs, then_val) {
                    Some(x) => Some(with_reg(m, dest, x)),
                    None => None,
                }
            } else if m.prev == else_block {
                match operand(m.regs, else_val) {
                    Some(x) => Some(with_reg(m, dest, x)),
                    None => None,
                }
            } else {
                None
            },
            Inst::Zext { dest, ty, val } => match operand(m.regs, val) {
                Some(x) => Some(with_reg(m, dest, x)),
                None => None,
            },
            Inst::Ret { val } => match operand(m.regs, val) {
                Some(x) => Some(
                    Machine {
                        pc: m.pc + 1,
                        regs: m.regs,
                        mem: m.mem,
                        block: m.block,
                        prev: m.prev,
                        ret: Some(x),
                    },
                ),
                None => None,
            },
        }
    }
}

/// `n` instructions in a row.
pub open spec fn steps(prog: Seq<Inst>, m: Machine, n: nat) -> Option<Machine>
    decreases n,
{
    if n == 0 {
        Some(m)
    } else {
        match step(prog, m) {
            Some(m1) => steps(prog, m1, (n - 1) as nat),
            None => None,
        }
    }
}

/// A function body about to run: at its first instruction, in block `entry`.
pub open spec fn initial_machine() -> Machine {
    Machine {
        pc: 0,
        regs: Map::empty(),
        mem: Map::empty(),
        block: "entry"@,
        prev: "entry"@,
        ret: None,
    }
}

/// The body, run from its entry, has returned `x` after `n` instructions.
pub open spec fn returns_after(prog: Seq<Inst>, n: nat, x: int) -> bool {
    steps(prog, initial_machine(), n) matches Some(m) && m.ret == Some(x)
}

/// Running `a + b` steps is running `a` steps, then `b` more.
pub proof fn lemma_steps_add(prog: Seq<Inst>, m: Machine, a: nat, b: nat)
    ensures
        steps(prog, m, a + b) == match steps(prog, m, a) {
            Some(m1) => steps(prog, m1, b),
            None => None,
        },
    decreases a,
{
    if a > 0 {
        if let Some(m1) = step(prog, m) {
            lemma_steps_add(prog, m1, (a - 1) as nat, b);
            assert((a + b - 1) as nat == (a - 1) as nat + b);
        }
    }
}

/// Running `a` steps to `m1` and then `b` steps to `m2` is running `a + b` steps.
pub proof fn lemma_steps_then(prog: Seq<Inst>, m0: Machine, a: nat, m1: Machine, b: nat, m2: Machine)
    requires
        steps(prog, m0, a) == Some(m1),
        steps(prog, m1, b) == Some(m2),
    ensures
        steps(prog, m0, a + b) == Some(m2),
{
    lemma_steps_add(prog, m0, a, b);
}

/// One step, seen as a run of length one.
pub proof fn lemma_one_step(prog: Seq<Inst>, m0: Machine, m1: Machine)
    requires
        step(prog, m0) == Some(m1),
    ensures
        steps(prog, m0, 1) == Some(m1),
{
    assert(steps(prog, m1, 0) == Some(m1));
}

/// `digit_char` gives the digit for each value below ten.
pub proof fn lemma_digit_char(d: int)
    requires
        0 <= d < 10,
    ensures
        is_digit(digit_char(d)),
        digit_value(digit_char(d)) == d,
{
}

/// The decimal notation of `n` is a nonempty string of digits denoting `n`.
pub proof fn lemma_nat_text_digits(n: nat)
    ensures
        nat_text(n).len() >= 1,
        all_digits(nat_text(n)),
        digits_value(nat_text(n)) == n,
    decreases n,
{
    if n < 10 {
        lemma_digit_char(n as int);
        assert(nat_text(n).drop_last() =~= Seq::<char>::empty());
        assert(digits_value(Seq::<char>::empty()) == 0);
        assert(digits_value(nat_text(n)) == digits_value(nat_text(n).drop_last()) * 10 + n);
    } else {
        lemma_nat_text_digits(n / 10);
        lemma_digit_char((n % 10) as int);
        let t = nat_text(n);
        assert(t.drop_last() =~= nat_text(n / 10));
        assert(t.last() == digit_char((n % 10) as int));
        assert(n == (n / 10) * 10 + n % 10);
        assert(digits_value(t) == digits_value(t.drop_last()) * 10 + (n % 10));
        assert forall|i: int| 0 <= i < t.len() implies is_digit(#[trigger] t[i]) by {
            if i < t.len() - 1 {
                assert(t[i] == nat_text(n / 10)[i]);
            }
        }
    }
}

/// A name that ends in the digits `d` after a non-digit has exactly `d` as
/// its trailing digits.
pub proof fn lemma_digit_suffix(p: Seq<char>, d: Seq<char>)
    requires
        p.len() > 0,
        !is_digit(p.last()),
        all_digits(d),
    ensures
        digit_suffix_len(p + d) == d.len(),
    decreases d.len(),
{
    if d.len() == 0 {
        assert(p + d =~= p);
    } else {
        assert((p + d).drop_last() =~= p + d.drop_last());
        assert((p + d).last() == d.last());
        assert(is_digit(d[d.len() - 1]));
        lemma_digit_suffix(p, d.drop_last());
    }
}

/// A fresh name `<prefix><n>`, whose prefix ends in a non-digit, was drawn
/// with `n`.
pub proof fn lemma_name_id(p: Seq<char>, n: nat)
    requires
        p.len() > 0,
        !is_digit(p.last()),
    ensures
        name_id(p + nat_text(n)) == n,
{
    lemma_nat_text_digits(n);
    lemma_digit_suffix(p, nat_text(n));
    let s = p + nat_text(n);
    assert(s.subrange(s.len() - nat_text(n).len(), s.len() as int) =~= nat_text(n));
}

/// The decimal text of an integer is a literal operand denoting it.
pub proof fn lemma_int_text_operand(regs: Map<Seq<char>, int>, x: int)
    ensures
        !is_register(int_text(x)),
        operand(regs, int_text(x)) == Some(x),
{
    reveal_strlit("true");
    reveal_strlit("false");
    if x < 0 {
        let d = nat_text((-x) as nat);
        lemma_nat_text_digits((-x) as nat);
        let s = seq!['-'] + d;
        assert(s.drop_first() =~= d);
        assert(s[0] == '-');
        assert(s != "true"@ && s != "false"@) by {
            assert("true"@[0] == 't');
            assert("false"@[0] == 'f');
        }
    } else {
        let d = nat_text(x as nat);
        lemma_nat_text_digits(x as nat);
        assert(is_digit(d[0]));
        assert(d != "true"@ && d != "false"@) by {
            assert("true"@[0] == 't');
            assert("false"@[0] == 'f');
        }
    }
}

/// `true` and `false` are literal operands denoting 1 and 0.
pub proof fn lemma_bool_operand(regs: Map<Seq<char>, int>)
    ensures
        !is_register("true"@),
        !is_register("false"@),
        operand(regs, "true"@) == Some(1int),
        operand(regs, "false"@) == Some(0int),
{
    reveal_strlit("true");
    reveal_strlit("false");
}

/// The opcode printed for each arithmetic operator is the LLVM opcode that
/// computes it: `add`, `sub`, `mul` wrap and `sdiv` divides toward zero.
pub proof fn lemma_opcode_meanings(op: BinOp, a: int, b: int)
    ensures
        llvm_binop(mnemonic(op), a, b) == ir_arith(op, a, b),
{
    reveal_strlit("add");
    reveal_strlit("sub");
    reveal_strlit("mul");
    reveal_strlit("sdiv");
    assert("sub"@[0] != "add"@[0]);
    assert("mul"@[0] != "add"@[0] && "mul"@[0] != "sub"@[0]);
    assert("sdiv"@.len() != "add"@.len() && "sdiv"@.len() != "mul"@.len() && "sdiv"@[1]
        != "sub"@[1]);
}

/// The predicate printed for each comparison is the `icmp` predicate that
/// decides it on signed integers.
pub proof fn lemma_predicate_meanings(op: CmpOp, a: int, b: int)
    ensures
        llvm_icmp(predicate(op), a, b) == Some(compare(op, a, b)),
{
    reveal_strlit("slt");
    reveal_strlit("sgt");
    reveal_strlit("sle");
    reveal_strlit("sge");
    reveal_strlit("eq");
    reveal_strlit("ne");
    assert("sgt"@[1] != "slt"@[1]);
    assert("sle"@[2] != "slt"@[2] && "sle"@[1] != "sgt"@[1]);
    assert("sge"@[1] != "slt"@[1] && "sge"@[2] != "sgt"@[2] && "sge"@[1] != "sle"@[1]);
    assert("eq"@.len() != "slt"@.len() && "eq"@.len() != "sgt"@.len() && "eq"@.len()
        != "sle"@.len() && "eq"@.len() != "sge"@.len());
    assert("ne"@.len() != "slt"@.len() && "ne"@.len() != "sgt"@.len() && "ne"@.len()
        != "sle"@.len() && "ne"@.len() != "sge"@.len() && "ne"@[0] != "eq"@[0]);
}

} // verus!
