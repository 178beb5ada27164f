//! The model of the LLVM IR translation: the instructions each construct
//! becomes, and their text.
use vstd::prelude::*;

use crate::ast::{BinOp, BlockV, CmpOp, ExprV, StmtV};
use crate::text::{i64_view_text, nat_text};

verus! {

/// The LLVM type of an emitted value.
#[derive(Debug, Clone, Copy, PartialEq, Eq, Structural)]
pub enum Ty {
    I64,
    I1,
}

pub open spec fn ty_name(t: Ty) -> Seq<char> {
    match t {
        Ty::I64 => "i64"@,
        Ty::I1 => "i1"@,
    }
}

pub open spec fn mnemonic(op: BinOp) -> Seq<char> {
    match op {
        BinOp::Add => "add"@,
        BinOp::Sub => "sub"@,
        BinOp::Mul => "mul"@,
        BinOp::Div => "sdiv"@,
    }
}

pub open spec fn predicate(op: CmpOp) -> Seq<char> {
    match op {
        CmpOp::Lt => "slt"@,
        CmpOp::Gt => "sgt"@,
        CmpOp::Le => "sle"@,
        CmpOp::Ge => "sge"@,
        CmpOp::Eq => "eq"@,
        CmpOp::Ne => "ne"@,
    }
}

/// A name in scope: its stack slot and the type stored there.
pub struct BindingV {
    pub name: Seq<char>,
    pub slot: Seq<char>,
    pub ty: Ty,
}

/// The state the translation threads: the next fresh number, the basic block
/// being filled, and the bindings in scope (later ones shadow earlier ones).
pub struct CgState {
    pub next_id: nat,
    pub block: Seq<char>,
    pub symbols: Seq<BindingV>,
}

/// What translating an expression yields: the instructions, the operand that
/// holds its value, the value's type, and the state afterwards.
pub struct Emitted {
    pub insts: Seq<Inst>,
    pub value: Seq<char>,
    pub ty: Ty,
    pub st: CgState,
}

/// The model of a translation error.
pub enum CgError {
    Undefined(Seq<char>),
    BranchTypes,
    IllTyped,
    TooManyNames,
}

/// The binding that a name refers to: the latest one of that name.
pub open spec fn lookup(syms: Seq<BindingV>, name: Seq<char>) -> Option<BindingV>
    decreases syms.len(),
{
    if syms.len() == 0 {
        None
    } else if syms.last().name == name {
        Some(syms.last())
    } else {
        lookup(syms.drop_last(), name)
    }
}

/// A fresh SSA register `%<hint><n>`, numbered by the state's counter.
pub open spec fn fresh_value(st: CgState, hint: Seq<char>) -> Result<(Seq<char>, CgState), CgError> {
    if st.next_id >= u32::MAX {
        Err(CgError::TooManyNames)
    } else {
        Ok(
            (
                seq!['%'] + hint + nat_text(st.next_id),
                CgState { next_id: st.next_id + 1, block: st.block, symbols: st.symbols },
            ),
        )
    }
}

/// A fresh basic-block label `<base><n>`, numbered by the same counter.
pub open spec fn fresh_label(st: CgState, base: Seq<char>) -> Result<(Seq<char>, CgState), CgError> {
    if st.next_id >= u32::MAX {
        Err(CgError::TooManyNames)
    } else {
        Ok(
            (
                base + nat_text(st.next_id),
                CgState { next_id: st.next_id + 1, block: st.block, symbols: st.symbols },
            ),
        )
    }
}

#[verifier::opaque]
pub open spec fn line_load(dest: Seq<char>, ty: Ty, slot: Seq<char>) -> Seq<char> {
    "  "@ + dest + " = load "@ + ty_name(ty) + ", ptr "@ + slot + "\n"@
}

#[verifier::opaque]
pub open spec fn line_neg(dest: Seq<char>, v: Seq<char>) -> Seq<char> {
    "  "@ + dest + " = sub i64 0, "@ + v + "\n"@
}

#[verifier::opaque]
pub open spec fn line_bin(dest: Seq<char>, op: BinOp, l: Seq<char>, r: Seq<char>) -> Seq<char> {
    "  "@ + dest + " = "@ + mnemonic(op) + " i64 "@ + l + ", "@ + r + "\n"@
}

#[verifier::opaque]
pub open spec fn line_compare(dest: Seq<char>, op: CmpOp, l: Seq<char>, r: Seq<char>) -> Seq<char> {
    "  "@ + dest + " = icmp "@ + predicate(op) + " i64 "@ + l + ", "@ + r + "\n"@
}

#[verifier::opaque]
pub open spec fn line_br_cond(c: Seq<char>, t: Seq<char>, e: Seq<char>) -> Seq<char> {
    "  br i1 "@ + c + ", label %"@ + t + ", label %"@ + e + "\n"@
}

#[verifier::opaque]
pub open spec fn line_label(l: Seq<char>) -> Seq<char> {
    l + ":\n"@
}

#[verifier::opaque]
pub open spec fn line_br(l: Seq<char>) -> Seq<char> {
    "  br label %"@ + l + "\n"@
}

#[verifier::opaque]
pub open spec fn line_phi(
    dest: Seq<char>,
    ty: Ty,
    tv: Seq<char>,
    tb: Seq<char>,
    ev: Seq<char>,
    eb: Seq<char>,
) -> Seq<char> {
    "  "@ + dest + " = phi "@ + ty_name(ty) + " ["@ + tv + ", %"@ + tb + "], ["@ + ev + ", %"@ + eb
        + "]\n"@
}

#[verifier::opaque]
pub open spec fn line_alloca(slot: Seq<char>, ty: Ty) -> Seq<char> {
    "  "@ + slot + " = alloca "@ + ty_name(ty) + "\n"@
}

#[verifier::opaque]
pub open spec fn line_store(ty: Ty, v: Seq<char>, slot: Seq<char>) -> Seq<char> {
    "  store "@ + ty_name(ty) + " "@ + v + ", ptr "@ + slot + "\n"@
}

#[verifier::opaque]
pub open spec fn line_zext(dest: Seq<char>, ty: Ty, v: Seq<char>) -> Seq<char> {
    "  "@ + dest + " = zext "@ + ty_name(ty) + " "@ + v + " to i64\n"@
}

#[verifier::opaque]
pub open spec fn line_ret(v: Seq<char>) -> Seq<char> {
    "  ret i64 "@ + v + "\n"@
}

/// An LLVM instruction (or block label) as the translation emits it.
/// Operands, registers, slots and labels are kept as their text.
pub enum Inst {
    Alloca { slot: Seq<char>, ty: Ty },
    Store { ty: Ty, val: Seq<char>, slot: Seq<char> },
    Load { dest: Seq<char>, ty: Ty, slot: Seq<char> },
    Neg { dest: Seq<char>, val: Seq<char> },
    Arith { dest: Seq<char>, op: BinOp, l: Seq<char>, r: Seq<char> },
    Icmp { dest: Seq<char>, op: CmpOp, l: Seq<char>, r: Seq<char> },
    BrCond { cond: Seq<char>, then_label: Seq<char>, else_label: Seq<char> },
    Br { label: Seq<char> },
    Label { label: Seq<char> },
    Phi {
        dest: Seq<char>,
        ty: Ty,
        then_val: Seq<char>,
        then_block: Seq<char>,
        else_val: Seq<char>,
        else_block: Seq<char>,
    },
    Zext { dest: Seq<char>, ty: Ty, val: Seq<char> },
    Ret { val: Seq<char> },
}

/// The text line of one instruction.
pub open spec fn render_inst(i: Inst) -> Seq<char> {
    match i {
        Inst::Alloca { slot, ty } => line_alloca(slot, ty),
        Inst::Store { ty, val, slot } => line_store(ty, val, slot),
        Inst::Load { dest, ty, slot } => line_load(dest, ty, slot),
        Inst::Neg { dest, val } => line_neg(dest, val),
        Inst::Arith { dest, op, l, r } => line_bin(dest, op, l, r),
        Inst::Icmp { dest, op, l, r } => line_compare(dest, op, l, r),
        Inst::BrCond { cond, then_label, else_label } => line_br_cond(cond, then_label, else_label),
        Inst::Br { label } => line_br(label),
        Inst::Label { label } => line_label(label),
        Inst::Phi { dest, ty, then_val, then_block, else_val, else_block } => line_phi(
            dest,
            ty,
            then_val,
            then_block,
            else_val,
            else_block,
        ),
        Inst::Zext { dest, ty, val } => line_zext(dest, ty, val),
        Inst::Ret { val } => line_ret(val),
    }
}

/// The text of an instruction sequence, one line each.
pub open spec fn render(is: Seq<Inst>) -> Seq<char>
    decreases is.len(),
{
    if is.len() == 0 {
        Seq::empty()
    } else {
        render(is.drop_last()) + render_inst(is.last())
    }
}

/// The text of two instruction sequences in a row is their texts in a row.
pub proof fn lemma_render_concat(a: Seq<Inst>, b: Seq<Inst>)
    ensures
        render(a + b) == render(a) + render(b),
    decreases b.len(),
{
    if b.len() == 0 {
        assert(a + b =~= a);
        assert(render(a) + Seq::<char>::empty() =~= render(a));
    } else {
        assert((a + b).drop_last() =~= a + b.drop_last());
        lemma_render_concat(a, b.drop_last());
        assert(render(a) + (render(b.drop_last()) + render_inst(b.last())) =~= (render(a) + render(
            b.drop_last(),
        )) + render_inst(b.last()));
    }
}

/// Appending an instruction appends its line.
pub proof fn lemma_render_push(a: Seq<Inst>, i: Inst)
    ensures
        render(a.push(i)) == render(a) + render_inst(i),
{
    assert(a.push(i).drop_last() =~= a);
}

/// No instructions, no text.
pub proof fn lemma_render_empty()
    ensures
        render(Seq::<Inst>::empty()) == Seq::<char>::empty(),
{
}

pub open spec fn with_block(st: CgState, block: Seq<char>) -> CgState {
    CgState { next_id: st.next_id, block, symbols: st.symbols }
}

pub open spec fn with_symbols(st: CgState, symbols: Seq<BindingV>) -> CgState {
    CgState { next_id: st.next_id, block: st.block, symbols }
}

/// The translation of an expression in state `st`.
#[verifier::opaque]
pub open spec fn translate_expr(st: CgState, e: ExprV) -> Result<Emitted, CgError>
    decreases e,
{
    match e {
        ExprV::Num(n) => Ok(Emitted { insts: seq![], value: i64_view_text(n), ty: Ty::I64, st }),
        ExprV::Bool(b) => Ok(
            Emitted {
                insts: seq![],
                value: if b {
                    "true"@
                } else {
                    "false"@
                },
                ty: Ty::I1,
                st,
            },
        ),
        ExprV::Ident(name) => match lookup(st.symbols, name) {
            None => Err(CgError::Undefined(name)),
            Some(b) => match fresh_value(st, "v"@) {
                Ok((dest, st1)) => Ok(
                    Emitted {
                        insts: seq![Inst::Load { dest, ty: b.ty, slot: b.slot }],
                        value: dest,
                        ty: b.ty,
                        st: st1,
                    },
                ),
                Err(x) => Err(x),
            },
        },
        ExprV::Neg(inner) => match translate_expr(st, *inner) {
            Ok(a) => if a.ty != Ty::I64 {
                Err(CgError::IllTyped)
            } else {
                match fresh_value(a.st, "v"@) {
                    Ok((dest, st1)) => Ok(
                        Emitted {
                            insts: a.insts.push(Inst::Neg { dest, val: a.value }),
                            value: dest,
                            ty: Ty::I64,
                            st: st1,
                        },
                    ),
                    Err(x) => Err(x),
                }
            },
            Err(x) => Err(x),
        },
        ExprV::Bin { op, left, right } => match translate_expr(st, *left) {
            Ok(a) => match translate_expr(a.st, *right) {
                Ok(b) => if a.ty != Ty::I64 || b.ty != Ty::I64 {
                    Err(CgError::IllTyped)
                } else {
                    match fresh_value(b.st, "v"@) {
                        Ok((dest, st1)) => Ok(
                            Emitted {
                                insts: (a.insts + b.insts).push(
                                    Inst::Arith { dest, op, l: a.value, r: b.value },
                                ),
                                value: dest,
                                ty: Ty::I64,
                                st: st1,
                            },
                        ),
                        Err(x) => Err(x),
                    }
                },
                Err(x) => Err(x),
            },
            Err(x) => Err(x),
        },
        ExprV::Cmp { op, left, right } => match translate_expr(st, *left) {
            Ok(a) => match translate_expr(a.st, *right) {
                Ok(b) => if a.ty != Ty::I64 || b.ty != Ty::I64 {
                    Err(CgError::IllTyped)
                } else {
                    match fresh_value(b.st, "v"@) {
                        Ok((dest, st1)) => Ok(
                            Emitted {
                                insts: (a.insts + b.insts).push(
                                    Inst::Icmp { dest, op, l: a.value, r: b.value },
                                ),
                                value: dest,
                                ty: Ty::I1,
                                st: st1,
                            },
                        ),
                        Err(x) => Err(x),
                    }
                },
                Err(x) => Err(x),
            },
            Err(x) => Err(x),
        },
        ExprV::If { cond, then_branch, else_branch } => match translate_expr(st, *cond) {
            Ok(c) => if c.ty != Ty::I1 {
                Err(CgError::IllTyped)
            } else {
                match fresh_label(c.st, "if.then."@) {
                    Ok((tl, s1)) => match fresh_label(s1, "if.else."@) {
                        Ok((el, s2)) => match fresh_label(s2, "if.merge."@) {
                            Ok((ml, s3)) => match translate_block(with_block(s3, tl), *then_branch) {
                                Ok(t) => match translate_block(with_block(t.st, el), *else_branch) {
                                    Ok(f) => if t.ty != f.ty {
                                        Err(CgError::BranchTypes)
                                    } else {
                                        match fresh_value(with_block(f.st, ml), "v"@) {
                                            Ok((dest, s4)) => Ok(
                                                Emitted {
                                                    insts: if_insts(
                                                        c.insts,
                                                        c.value,
                                                        tl,
                                                        el,
                                                        ml,
                                                        t,
                                                        f,
                                                        dest,
                                                    ),
                                                    value: dest,
                                                    ty: t.ty,
                                                    st: s4,
                                                },
                                            ),
                                            Err(x) => Err(x),
                                        }
                                    },
                                    Err(x) => Err(x),
                                },
                                Err(x) => Err(x),
                            },
                            Err(x) => Err(x),
                        },
                        Err(x) => Err(x),
                    },
                    Err(x) => Err(x),
                }
            },
            Err(x) => Err(x),
        },
        ExprV::Block(b) => translate_block(st, *b),
    }
}

/// The diamond for an `if`: the condition's code, a conditional branch, the
/// then-block, the else-block (each ending in a jump to the merge block), and
/// a `phi` in the merge block that picks the value of the branch that ran.
pub open spec fn if_insts(
    cond_insts: Seq<Inst>,
    cond_val: Seq<char>,
    tl: Seq<char>,
    el: Seq<char>,
    ml: Seq<char>,
    t: Emitted,
    f: Emitted,
    dest: Seq<char>,
) -> Seq<Inst> {
    cond_insts + seq![
        Inst::BrCond { cond: cond_val, then_label: tl, else_label: el },
        Inst::Label { label: tl },
    ] + t.insts + seq![Inst::Br { label: ml }, Inst::Label { label: el }] + f.insts + seq![
        Inst::Br { label: ml },
        Inst::Label { label: ml },
        Inst::Phi {
            dest,
            ty: t.ty,
            then_val: t.value,
            then_block: t.st.block,
            else_val: f.value,
            else_block: f.st.block,
        },
    ]
}

/// The translation of a block: its bindings are dropped again at its end.
#[verifier::opaque]
pub open spec fn translate_block(st: CgState, b: BlockV) -> Result<Emitted, CgError>
    decreases b,
{
    match translate_stmts(st, b.stmts) {
        Ok((is1, s1)) => match translate_expr(s1, b.result) {
            Ok(r) => Ok(
                Emitted {
                    insts: is1 + r.insts,
                    value: r.value,
                    ty: r.ty,
                    st: with_symbols(r.st, st.symbols),
                },
            ),
            Err(x) => Err(x),
        },
        Err(x) => Err(x),
    }
}

/// The translation of a sequence of statements, in order.
#[verifier::opaque]
pub open spec fn translate_stmts(st: CgState, ss: Seq<StmtV>) -> Result<(Seq<Inst>, CgState), CgError>
    decreases ss,
{
    if ss.len() == 0 {
        Ok((seq![], st))
    } else {
        proof {
            broadcast use vstd::seq::axiom_seq_index_decreases;
            broadcast use vstd::seq::axiom_seq_subrange_decreases;

            assert(decreases_to!(ss => ss[0]));
            assert(decreases_to!(ss => ss.subrange(1, ss.len() as int)));
        }
        match translate_stmt(st, ss[0]) {
            Ok((is1, s1)) => match translate_stmts(s1, ss.subrange(1, ss.len() as int)) {
                Ok((is2, s2)) => Ok((is1 + is2, s2)),
                Err(x) => Err(x),
            },
            Err(x) => Err(x),
        }
    }
}

/// `let name = value;`: the value goes to a fresh stack slot, and `name` is
/// bound to that slot from here on.
#[verifier::opaque]
pub open spec fn translate_stmt(st: CgState, s: StmtV) -> Result<(Seq<Inst>, CgState), CgError>
    decreases s,
{
    match s {
        StmtV::Let { name, value } => match translate_expr(st, value) {
            Ok(a) => match fresh_value(a.st, name + "_slot_"@) {
                Ok((slot, s1)) => Ok(
                    (
                        a.insts + seq![
                            Inst::Alloca { slot, ty: a.ty },
                            Inst::Store { ty: a.ty, val: a.value, slot },
                        ],
                        with_symbols(s1, s1.symbols.push(BindingV { name, slot, ty: a.ty })),
                    ),
                ),
                Err(x) => Err(x),
            },
            Err(x) => Err(x),
        },
    }
}

pub open spec fn initial_state() -> CgState {
    CgState { next_id: 0, block: "entry"@, symbols: seq![] }
}

/// The body of `main` for a program: its statements and result expression
/// translated in order, then `ret`; a boolean result is zero-extended to
/// `i64` first.
pub open spec fn main_body(p: BlockV) -> Result<Seq<Inst>, CgError> {
    match translate_stmts(initial_state(), p.stmts) {
        Ok((is1, s1)) => match translate_expr(s1, p.result) {
            Ok(r) => if r.ty == Ty::I64 {
                Ok(is1 + r.insts + seq![Inst::Ret { val: r.value }])
            } else {
                match fresh_value(r.st, "v"@) {
                    Ok((z, _)) => Ok(
                        is1 + r.insts + seq![
                            Inst::Zext { dest: z, ty: r.ty, val: r.value },
                            Inst::Ret { val: z },
                        ],
                    ),
                    Err(x) => Err(x),
                }
            },
            Err(x) => Err(x),
        },
        Err(x) => Err(x),
    }
}

/// The LLVM module for a program: a `main` returning `i64` whose body is
/// `main_body`.
pub open spec fn spec_codegen(p: BlockV) -> Result<Seq<char>, CgError> {
    match main_body(p) {
        Ok(body) => Ok("define i64 @main() {\n"@ + "entry:\n"@ + render(body) + "}\n"@),
        Err(x) => Err(x),
    }
}


/// One instruction is one line.
pub proof fn lemma_render_single(i: Inst)
    ensures
        render(seq![i]) == render_inst(i),
{
    assert(seq![i] =~= Seq::<Inst>::empty().push(i));
    lemma_render_push(Seq::<Inst>::empty(), i);
    assert(Seq::<char>::empty() + render_inst(i) =~= render_inst(i));
}

/// Two instructions are two lines.
pub proof fn lemma_render_pair(i: Inst, j: Inst)
    ensures
        render(seq![i, j]) == render_inst(i) + render_inst(j),
{
    assert(seq![i, j].drop_last() =~= seq![i]);
    lemma_render_single(i);
}

/// The text of an `if` diamond, line by line.
pub proof fn lemma_render_if(
    cond_insts: Seq<Inst>,
    cond_val: Seq<char>,
    tl: Seq<char>,
    el: Seq<char>,
    ml: Seq<char>,
    t: Emitted,
    f: Emitted,
    dest: Seq<char>,
)
    ensures
        render(if_insts(cond_insts, cond_val, tl, el, ml, t, f, dest)) == render(cond_insts)
            + line_br_cond(cond_val, tl, el) + line_label(tl) + render(t.insts) + line_br(ml)
            + line_label(el) + render(f.insts) + line_br(ml) + line_label(ml) + line_phi(
            dest,
            t.ty,
            t.value,
            t.st.block,
            f.value,
            f.st.block,
        ),
{
    let p1 = seq![
        Inst::BrCond { cond: cond_val, then_label: tl, else_label: el },
        Inst::Label { label: tl },
    ];
    let p2 = seq![Inst::Br { label: ml }, Inst::Label { label: el }];
    let phi = Inst::Phi {
        dest,
        ty: t.ty,
        then_val: t.value,
        then_block: t.st.block,
        else_val: f.value,
        else_block: f.st.block,
    };
    let p3 = seq![Inst::Br { label: ml }, Inst::Label { label: ml }, phi];
    lemma_render_pair(p1[0], p1[1]);
    lemma_render_pair(p2[0], p2[1]);
    assert(p3.drop_last() =~= seq![p3[0], p3[1]]);
    lemma_render_pair(p3[0], p3[1]);
    lemma_render_concat(cond_insts, p1);
    lemma_render_concat(cond_insts + p1, t.insts);
    lemma_render_concat(cond_insts + p1 + t.insts, p2);
    lemma_render_concat(cond_insts + p1 + t.insts + p2, f.insts);
    lemma_render_concat(cond_insts + p1 + t.insts + p2 + f.insts, p3);
    assert(render(if_insts(cond_insts, cond_val, tl, el, ml, t, f, dest)) =~= render(cond_insts)
        + line_br_cond(cond_val, tl, el) + line_label(tl) + render(t.insts) + line_br(ml)
        + line_label(el) + render(f.insts) + line_br(ml) + line_label(ml) + line_phi(
        dest,
        t.ty,
        t.value,
        t.st.block,
        f.value,
        f.st.block,
    ));
}

} // verus!
