//! The LLVM IR that the translation emits computes what the program means:
//! run from its entry, the body of `main` returns the program's value.
use vstd::prelude::*;

use crate::ast::{BlockV, ExprV, StmtV};
use crate::eval::{
    Value, env_lookup, eval_bin, eval_block, eval_expr, eval_stmt, eval_stmts, int_result,
    lemma_wrap_fits, num_value, program_value, value_code, wrap_i64,
};
use crate::ir::{
    BindingV, CgError, CgState, Emitted, Inst, Ty, mnemonic, fresh_label, fresh_value, if_insts,
    initial_state, lookup, main_body, translate_block, translate_expr, translate_stmt,
    translate_stmts, with_block, with_symbols,
};
use crate::ir_laws::lemma_expr_keeps_scope;
use crate::ir_sem::{
    Machine, initial_machine, ir_arith, lemma_opcode_meanings, lemma_predicate_meanings,
    llvm_binop, is_register, jump, label_at, lemma_bool_operand,
    lemma_int_text_operand, lemma_name_id, lemma_one_step, lemma_steps_then, name_id, operand,
    returns_after, step, steps, with_mem, with_reg,
};
use crate::text::nat_text;

verus! {

/// The name-number of a label instruction (-1 for other instructions).
pub open spec fn label_id(i: Inst) -> int {
    match i {
        Inst::Label { label } => name_id(label),
        _ => -1,
    }
}

/// No two labels of `is` were drawn with the same number, so no two are
/// the same label.
pub open spec fn labels_distinct(is: Seq<Inst>) -> bool {
    forall|i: int, j: int|
        0 <= i < j < is.len() && (#[trigger] is[i]) is Label && (#[trigger] is[j]) is Label
            ==> label_id(is[i]) != label_id(is[j])
}

/// Every label of `is` was drawn with a number in `[lo, hi)`.
pub open spec fn labels_between(is: Seq<Inst>, lo: nat, hi: nat) -> bool {
    forall|i: int| 0 <= i < is.len() && (#[trigger] is[i]) is Label ==> lo <= label_id(is[i]) < hi
}

/// No label of `is` was drawn with `x`.
pub open spec fn labels_avoid(is: Seq<Inst>, x: nat) -> bool {
    forall|i: int| 0 <= i < is.len() && (#[trigger] is[i]) is Label ==> label_id(is[i]) != x
}

/// What code generation from state `st` to `st2`, emitting `is`, always satisfies: the
/// counter grows, the labels are distinct and drawn in `[st, st2)`, and the
/// block left current is the one entered or one drawn in that range.
pub open spec fn translation_facts(st: CgState, is: Seq<Inst>, st2: CgState) -> bool {
    &&& st.next_id <= st2.next_id
    &&& labels_distinct(is)
    &&& labels_between(is, st.next_id, st2.next_id)
    &&& (st2.block == st.block || st.next_id <= name_id(st2.block) < st2.next_id)
}

/// A register operand was defined with a number below `n`.
pub open spec fn value_below(v: Seq<char>, n: nat) -> bool {
    is_register(v) ==> name_id(v) < n
}

pub open spec fn emitted_facts(st: CgState, em: Emitted) -> bool {
    &&& translation_facts(st, em.insts, em.st)
    &&& value_below(em.value, em.st.next_id)
    &&& em.st.symbols == st.symbols
}

proof fn lemma_concat_distinct(a: Seq<Inst>, b: Seq<Inst>)
    requires
        labels_distinct(a),
        labels_distinct(b),
        forall|i: int, j: int|
            0 <= i < a.len() && 0 <= j < b.len() && (#[trigger] a[i]) is Label && (
            #[trigger] b[j]) is Label ==> label_id(a[i]) != label_id(b[j]),
    ensures
        labels_distinct(a + b),
{
    let s = a + b;
    assert forall|i: int, j: int|
        0 <= i < j < s.len() && (#[trigger] s[i]) is Label && (#[trigger] s[j]) is Label implies label_id(
        s[i],
    ) != label_id(s[j]) by {
        if j < a.len() {
            assert(s[i] == a[i] && s[j] == a[j]);
        } else if i >= a.len() {
            assert(s[i] == b[i - a.len()] && s[j] == b[j - a.len()]);
        } else {
            assert(s[i] == a[i] && s[j] == b[j - a.len()]);
        }
    }
}

proof fn lemma_concat_disjoint(a: Seq<Inst>, b: Seq<Inst>, lo1: nat, hi1: nat, lo2: nat, hi2: nat)
    requires
        labels_distinct(a),
        labels_distinct(b),
        labels_between(a, lo1, hi1),
        labels_between(b, lo2, hi2),
        hi1 <= lo2 || hi2 <= lo1,
    ensures
        labels_distinct(a + b),
{
    assert forall|i: int, j: int|
        0 <= i < a.len() && 0 <= j < b.len() && (#[trigger] a[i]) is Label && (
        #[trigger] b[j]) is Label implies label_id(a[i]) != label_id(b[j]) by {}
    lemma_concat_distinct(a, b);
}

proof fn lemma_concat_between(a: Seq<Inst>, b: Seq<Inst>, lo: nat, hi: nat)
    requires
        labels_between(a, lo, hi),
        labels_between(b, lo, hi),
    ensures
        labels_between(a + b, lo, hi),
{
    let s = a + b;
    assert forall|i: int| 0 <= i < s.len() && (#[trigger] s[i]) is Label implies lo <= label_id(
        s[i],
    ) < hi by {
        if i < a.len() {
            assert(s[i] == a[i]);
        } else {
            assert(s[i] == b[i - a.len()]);
        }
    }
}

proof fn lemma_concat_avoid(a: Seq<Inst>, b: Seq<Inst>, x: nat)
    requires
        labels_avoid(a, x),
        labels_avoid(b, x),
    ensures
        labels_avoid(a + b, x),
{
    let s = a + b;
    assert forall|i: int| 0 <= i < s.len() && (#[trigger] s[i]) is Label implies label_id(s[i])
        != x by {
        if i < a.len() {
            assert(s[i] == a[i]);
        } else {
            assert(s[i] == b[i - a.len()]);
        }
    }
}

/// Labels drawn in `[lo, hi)` avoid any number outside it.
proof fn lemma_between_avoid(a: Seq<Inst>, lo: nat, hi: nat, x: nat)
    requires
        labels_between(a, lo, hi),
        x < lo || x >= hi,
    ensures
        labels_avoid(a, x),
{
}

proof fn lemma_between_widen(a: Seq<Inst>, lo: nat, hi: nat, lo2: nat, hi2: nat)
    requires
        labels_between(a, lo, hi),
        lo2 <= lo,
        hi <= hi2,
    ensures
        labels_between(a, lo2, hi2),
{
}

/// The labels of the `if` diamond are distinct: the condition's, the three
/// fresh ones, and each branch's are drawn from separate numbers.
proof fn lemma_if_labels(
    c: Seq<Inst>,
    cv: Seq<char>,
    tl: Seq<char>,
    el: Seq<char>,
    ml: Seq<char>,
    t: Emitted,
    f: Emitted,
    dest: Seq<char>,
    lo: nat,
    n: nat,
    hi_t: nat,
    hi_f: nat,
)
    requires
        lo <= n,
        n + 3 <= hi_t <= hi_f,
        labels_distinct(c),
        labels_between(c, lo, n),
        name_id(tl) == n,
        name_id(el) == n + 1,
        name_id(ml) == n + 2,
        labels_distinct(t.insts),
        labels_between(t.insts, n + 3, hi_t),
        labels_distinct(f.insts),
        labels_between(f.insts, hi_t, hi_f),
    ensures
        labels_distinct(if_insts(c, cv, tl, el, ml, t, f, dest)),
        labels_between(if_insts(c, cv, tl, el, ml, t, f, dest), lo, hi_f),
{
    let p1 = seq![
        Inst::BrCond { cond: cv, then_label: tl, else_label: el },
        Inst::Label { label: tl },
    ];
    let p2 = seq![Inst::Br { label: ml }, Inst::Label { label: el }];
    let p3 = seq![
        Inst::Br { label: ml },
        Inst::Label { label: ml },
        Inst::Phi {
            dest,
            ty: t.ty,
            then_val: t.value,
            then_block: t.st.block,
            else_val: f.value,
            else_block: f.st.block,
        },
    ];
    assert(labels_distinct(p1));
    assert(labels_between(p1, n, n + 1));
    assert(labels_distinct(p2));
    assert(labels_between(p2, n + 1, n + 2));
    assert(labels_distinct(p3));
    assert(labels_between(p3, n + 2, n + 3));
    let a1 = c + p1;
    lemma_concat_disjoint(c, p1, lo, n, n, n + 1);
    lemma_between_widen(c, lo, n, lo, n + 1);
    lemma_between_widen(p1, n, n + 1, lo, n + 1);
    lemma_concat_between(c, p1, lo, n + 1);
    let a2 = a1 + t.insts;
    lemma_concat_disjoint(a1, t.insts, lo, n + 1, n + 3, hi_t);
    lemma_between_avoid(a1, lo, n + 1, n + 1);
    lemma_between_avoid(t.insts, n + 3, hi_t, n + 1);
    lemma_concat_avoid(a1, t.insts, n + 1);
    let a3 = a2 + p2;
    lemma_concat_distinct(a2, p2);
    lemma_between_widen(a1, lo, n + 1, lo, hi_t);
    lemma_between_widen(t.insts, n + 3, hi_t, lo, hi_t);
    lemma_concat_between(a1, t.insts, lo, hi_t);
    lemma_between_widen(p2, n + 1, n + 2, lo, hi_t);
    lemma_concat_between(a2, p2, lo, hi_t);
    let a4 = a3 + f.insts;
    lemma_concat_disjoint(a3, f.insts, lo, hi_t, hi_t, hi_f);
    lemma_between_avoid(a1, lo, n + 1, n + 2);
    lemma_between_avoid(t.insts, n + 3, hi_t, n + 2);
    lemma_between_avoid(p2, n + 1, n + 2, n + 2);
    lemma_between_avoid(f.insts, hi_t, hi_f, n + 2);
    lemma_concat_avoid(a1, t.insts, n + 2);
    lemma_concat_avoid(a2, p2, n + 2);
    lemma_concat_avoid(a3, f.insts, n + 2);
    lemma_concat_distinct(a4, p3);
    lemma_between_widen(a3, lo, hi_t, lo, hi_f);
    lemma_between_widen(f.insts, hi_t, hi_f, lo, hi_f);
    lemma_concat_between(a3, f.insts, lo, hi_f);
    lemma_between_widen(p3, n + 2, n + 3, lo, hi_f);
    lemma_concat_between(a4, p3, lo, hi_f);
    assert(if_insts(c, cv, tl, el, ml, t, f, dest) == a4 + p3);
}

/// `%v<n>` is a register drawn with `n`.
proof fn lemma_v_name(n: nat)
    ensures
        is_register(seq!['%'] + "v"@ + nat_text(n)),
        name_id(seq!['%'] + "v"@ + nat_text(n)) == n,
{
    reveal_strlit("v");
    let p = seq!['%'] + "v"@;
    assert(p.last() == 'v');
    lemma_name_id(p, n);
    assert((p + nat_text(n))[0] == '%');
}

/// `%<name>_slot_<n>` is a slot drawn with `n`, whatever the name.
proof fn lemma_slot_name(name: Seq<char>, n: nat)
    ensures
        is_register(seq!['%'] + (name + "_slot_"@) + nat_text(n)),
        name_id(seq!['%'] + (name + "_slot_"@) + nat_text(n)) == n,
{
    reveal_strlit("_slot_");
    let p = seq!['%'] + (name + "_slot_"@);
    assert(p.last() == '_');
    lemma_name_id(p, n);
    assert((p + nat_text(n))[0] == '%');
}

/// The three labels of an `if` drawn with `n` carry `n`.
proof fn lemma_label_names(n: nat)
    ensures
        name_id("if.then."@ + nat_text(n)) == n,
        name_id("if.else."@ + nat_text(n)) == n,
        name_id("if.merge."@ + nat_text(n)) == n,
{
    reveal_strlit("if.then.");
    reveal_strlit("if.else.");
    reveal_strlit("if.merge.");
    assert("if.then."@.last() == '.');
    assert("if.else."@.last() == '.');
    assert("if.merge."@.last() == '.');
    lemma_name_id("if.then."@, n);
    lemma_name_id("if.else."@, n);
    lemma_name_id("if.merge."@, n);
}

/// Appending an instruction that is no label keeps the label facts.
proof fn lemma_push_plain(a: Seq<Inst>, i: Inst, lo: nat, hi: nat)
    requires
        !(i is Label),
        labels_distinct(a),
        labels_between(a, lo, hi),
    ensures
        labels_distinct(a.push(i)),
        labels_between(a.push(i), lo, hi),
{
    assert(labels_distinct(seq![i]));
    assert(labels_between(seq![i], lo, hi));
    lemma_concat_disjoint(a, seq![i], lo, hi, hi, hi);
    lemma_concat_between(a, seq![i], lo, hi);
    assert(a + seq![i] == a.push(i));
}

/// The facts every expression translation satisfies.
pub proof fn lemma_expr_facts(st: CgState, e: ExprV)
    ensures
        translate_expr(st, e) matches Ok(em) ==> emitted_facts(st, em),
    decreases e, 0int,
{
    reveal(translate_expr);
    reveal(translate_block);
    lemma_expr_keeps_scope(st, e);
    match e {
        ExprV::Num(n) => {
            lemma_int_text_operand(Map::empty(), num_value(n));
        },
        ExprV::Bool(b) => {
            lemma_bool_operand(Map::empty());
        },
        ExprV::Ident(name) => {
            lemma_v_name(st.next_id);
        },
        ExprV::Neg(inner) => {
            lemma_expr_facts(st, *inner);
            if let Ok(a) = translate_expr(st, *inner) {
                lemma_v_name(a.st.next_id);
                if let Ok((dest, st1)) = fresh_value(a.st, "v"@) {
                    lemma_push_plain(
                        a.insts,
                        Inst::Neg { dest, val: a.value },
                        st.next_id,
                        st1.next_id,
                    );
                }
            }
        },
        ExprV::Bin { op, left, right } => {
            lemma_expr_facts(st, *left);
            if let Ok(a) = translate_expr(st, *left) {
                lemma_expr_facts(a.st, *right);
                if let Ok(b) = translate_expr(a.st, *right) {
                    lemma_v_name(b.st.next_id);
                    if let Ok((dest, st1)) = fresh_value(b.st, "v"@) {
                        lemma_concat_disjoint(
                            a.insts,
                            b.insts,
                            st.next_id,
                            a.st.next_id,
                            a.st.next_id,
                            b.st.next_id,
                        );
                        lemma_between_widen(
                            a.insts,
                            st.next_id,
                            a.st.next_id,
                            st.next_id,
                            st1.next_id,
                        );
                        lemma_between_widen(
                            b.insts,
                            a.st.next_id,
                            b.st.next_id,
                            st.next_id,
                            st1.next_id,
                        );
                        lemma_concat_between(
                            a.insts,
                            b.insts,
                            st.next_id,
                            st1.next_id,
                        );
                        lemma_push_plain(
                            a.insts + b.insts,
                            Inst::Arith { dest, op, l: a.value, r: b.value },
                            st.next_id,
                            st1.next_id,
                        );
                    }
                }
            }
        },
        ExprV::Cmp { op, left, right } => {
            lemma_expr_facts(st, *left);
            if let Ok(a) = translate_expr(st, *left) {
                lemma_expr_facts(a.st, *right);
                if let Ok(b) = translate_expr(a.st, *right) {
                    lemma_v_name(b.st.next_id);
                    if let Ok((dest, st1)) = fresh_value(b.st, "v"@) {
                        let lo = st.next_id;
                        let hi = st1.next_id;
                        lemma_concat_disjoint(
                            a.insts,
                            b.insts,
                            lo,
                            a.st.next_id,
                            a.st.next_id,
                            b.st.next_id,
                        );
                        lemma_between_widen(a.insts, lo, a.st.next_id, lo, hi);
                        lemma_between_widen(
                            b.insts,
                            a.st.next_id,
                            b.st.next_id,
                            lo,
                            hi,
                        );
                        lemma_concat_between(a.insts, b.insts, lo, hi);
                        lemma_push_plain(
                            a.insts + b.insts,
                            Inst::Icmp { dest, op, l: a.value, r: b.value },
                            lo,
                            hi,
                        );
                    }
                }
            }
        },
        ExprV::If { cond, then_branch, else_branch } => {
            lemma_expr_facts(st, *cond);
            if let Ok(c) = translate_expr(st, *cond) {
                let n = c.st.next_id;
                lemma_label_names(n);
                lemma_label_names(n + 1);
                lemma_label_names(n + 2);
                if let Ok((tl, s1)) = fresh_label(c.st, "if.then."@) {
                    if let Ok((el, s2)) = fresh_label(s1, "if.else."@) {
                        if let Ok((ml, s3)) = fresh_label(s2, "if.merge."@) {
                            lemma_block_facts(with_block(s3, tl), *then_branch);
                            if let Ok(t) = translate_block(with_block(s3, tl), *then_branch) {
                                lemma_block_facts(with_block(t.st, el), *else_branch);
                                if let Ok(f) = translate_block(
                                    with_block(t.st, el),
                                    *else_branch,
                                ) {
                                    lemma_v_name(f.st.next_id);
                                    if let Ok((dest, s4)) = fresh_value(
                                        with_block(f.st, ml),
                                        "v"@,
                                    ) {
                                        lemma_if_labels(
                                            c.insts,
                                            c.value,
                                            tl,
                                            el,
                                            ml,
                                            t,
                                            f,
                                            dest,
                                            st.next_id,
                                            n,
                                            t.st.next_id,
                                            f.st.next_id,
                                        );
                                        lemma_between_widen(
                                            if_insts(c.insts, c.value, tl, el, ml, t, f, dest),
                                            st.next_id,
                                            f.st.next_id,
                                            st.next_id,
                                            s4.next_id,
                                        );
                                    }
                                }
                            }
                        }
                    }
                }
            }
        },
        ExprV::Block(b) => {
            lemma_block_facts(st, *b);
            assert(translate_expr(st, e) == translate_block(st, *b));
        },
    }
}

/// The facts every block translation satisfies.
pub proof fn lemma_block_facts(st: CgState, b: BlockV)
    ensures
        translate_block(st, b) matches Ok(em) ==> emitted_facts(st, em),
    decreases b, 0int,
{
    reveal(translate_expr);
    reveal(translate_block);
    reveal(translate_stmts);
    reveal(translate_stmt);
    lemma_stmts_facts(st, b.stmts);
    if let Ok((is1, s1)) = translate_stmts(st, b.stmts) {
        lemma_expr_facts(s1, b.result);
        if let Ok(r) = translate_expr(s1, b.result) {
            lemma_concat_disjoint(
                is1,
                r.insts,
                st.next_id,
                s1.next_id,
                s1.next_id,
                r.st.next_id,
            );
            lemma_between_widen(
                is1,
                st.next_id,
                s1.next_id,
                st.next_id,
                r.st.next_id,
            );
            lemma_between_widen(
                r.insts,
                s1.next_id,
                r.st.next_id,
                st.next_id,
                r.st.next_id,
            );
            lemma_concat_between(is1, r.insts, st.next_id, r.st.next_id);
            let em = Emitted {
                insts: is1 + r.insts,
                value: r.value,
                ty: r.ty,
                st: with_symbols(r.st, st.symbols),
            };
            assert(translate_block(st, b) == Ok::<Emitted, CgError>(em));
            assert(translation_facts(st, em.insts, em.st));
            assert(value_below(em.value, em.st.next_id));
        }
    }
}

/// The facts every translation of a statement list satisfies.
pub proof fn lemma_stmts_facts(st: CgState, ss: Seq<StmtV>)
    ensures
        translate_stmts(st, ss) matches Ok((is, st2)) ==> translation_facts(st, is, st2),
    decreases ss, 0int,
{
    reveal(translate_expr);
    reveal(translate_block);
    reveal(translate_stmts);
    reveal(translate_stmt);
    if ss.len() > 0 {
        broadcast use vstd::seq::axiom_seq_index_decreases;
        broadcast use vstd::seq::axiom_seq_subrange_decreases;

        assert(decreases_to!(ss => ss[0]));
        assert(decreases_to!(ss => ss.subrange(1, ss.len() as int)));
        lemma_stmt_facts(st, ss[0]);
        if let Ok((is1, s1)) = translate_stmt(st, ss[0]) {
            let rest = ss.subrange(1, ss.len() as int);
            lemma_stmts_facts(s1, rest);
            if let Ok((is2, s2)) = translate_stmts(s1, rest) {
                lemma_concat_disjoint(
                    is1,
                    is2,
                    st.next_id,
                    s1.next_id,
                    s1.next_id,
                    s2.next_id,
                );
                lemma_between_widen(
                    is1,
                    st.next_id,
                    s1.next_id,
                    st.next_id,
                    s2.next_id,
                );
                lemma_between_widen(
                    is2,
                    s1.next_id,
                    s2.next_id,
                    st.next_id,
                    s2.next_id,
                );
                lemma_concat_between(is1, is2, st.next_id, s2.next_id);
                assert(translate_stmts(st, ss) == Ok::<(Seq<Inst>, CgState), CgError>((is1 + is2, s2)));
                assert(translation_facts(st, is1 + is2, s2));
            }
        }
    } else {
        assert(translate_stmts(st, ss) == Ok::<(Seq<Inst>, CgState), CgError>((seq![], st)));
        assert(labels_distinct(Seq::<Inst>::empty()));
        assert(labels_between(Seq::<Inst>::empty(), st.next_id, st.next_id));
    }
}

/// The facts every statement translation satisfies.
#[verifier::spinoff_prover]
pub proof fn lemma_stmt_facts(st: CgState, s: StmtV)
    ensures
        translate_stmt(st, s) matches Ok((is, st2)) ==> translation_facts(st, is, st2),
    decreases s, 0int,
{
    reveal(translate_stmt);
    match s {
        StmtV::Let { name, value } => {
            lemma_expr_facts(st, value);
            if let Ok(a) = translate_expr(st, value) {
                if let Ok((slot, s1)) = fresh_value(a.st, name + "_slot_"@) {
                    let lo = st.next_id;
                    let hi = s1.next_id;
                    let tail = seq![
                        Inst::Alloca { slot, ty: a.ty },
                        Inst::Store { ty: a.ty, val: a.value, slot },
                    ];
                    let st2 = with_symbols(s1, s1.symbols.push(BindingV { name, slot, ty: a.ty }));
                    assert(translate_stmt(st, s) == Ok::<(Seq<Inst>, CgState), CgError>(
                        (a.insts + tail, st2),
                    ));
                    assert(labels_distinct(tail));
                    assert(labels_between(tail, hi, hi));
                    lemma_concat_disjoint(a.insts, tail, lo, a.st.next_id, hi, hi);
                    lemma_between_widen(a.insts, lo, a.st.next_id, lo, hi);
                    lemma_between_widen(tail, hi, hi, lo, hi);
                    lemma_concat_between(a.insts, tail, lo, hi);
                }
            }
        },
    }
}

/// The bindings in scope and the source bindings correspond one to one:
/// same names in the same order, each binding's slot holds the code of its
/// value, and every slot was drawn below `n`.
pub open spec fn env_ok(
    syms: Seq<BindingV>,
    n: nat,
    env: Seq<(Seq<char>, Value)>,
    mem: Map<Seq<char>, int>,
) -> bool {
    &&& syms.len() == env.len()
    &&& forall|i: int|
        0 <= i < syms.len() ==> {
            &&& (#[trigger] syms[i]).name == env[i].0
            &&& mem.dom().contains(syms[i].slot)
            &&& mem[syms[i].slot] == value_code(env[i].1)
            &&& name_id(syms[i].slot) < n
        }
}

/// `b` keeps every entry of `a` whose name was drawn below `n`.
pub open spec fn agree_below(a: Map<Seq<char>, int>, b: Map<Seq<char>, int>, n: nat) -> bool {
    forall|k: Seq<char>|
        #![trigger a.dom().contains(k)]
        a.dom().contains(k) && name_id(k) < n ==> b.dom().contains(k) && b[k] == a[k]
}

/// `is` stands in `prog` from index `k` on.
pub open spec fn code_at(prog: Seq<Inst>, k: int, is: Seq<Inst>) -> bool {
    &&& 0 <= k
    &&& k + is.len() <= prog.len()
    &&& forall|i: int| 0 <= i < is.len() ==> prog[k + i] == #[trigger] is[i]
}

/// A machine about to run `is`, emitted in state `st`, under the bindings `env`.
pub open spec fn ready(
    prog: Seq<Inst>,
    is: Seq<Inst>,
    m: Machine,
    st: CgState,
    env: Seq<(Seq<char>, Value)>,
) -> bool {
    &&& code_at(prog, m.pc, is)
    &&& labels_distinct(prog)
    &&& m.ret is None
    &&& m.block == st.block
    &&& env_ok(st.symbols, st.next_id, env, m.mem)
}

/// `n` steps took `m` through `is` to `m1`, in block `block`, with every
/// register and slot drawn below `lo` left as it was.
pub open spec fn ran(
    prog: Seq<Inst>,
    is: Seq<Inst>,
    m: Machine,
    n: nat,
    m1: Machine,
    lo: nat,
    block: Seq<char>,
) -> bool {
    &&& steps(prog, m, n) == Some(m1)
    &&& m1.pc == m.pc + is.len()
    &&& m1.ret is None
    &&& m1.block == block
    &&& agree_below(m.regs, m1.regs, lo)
    &&& agree_below(m.mem, m1.mem, lo)
}

proof fn lemma_agree_trans(
    a: Map<Seq<char>, int>,
    b: Map<Seq<char>, int>,
    c: Map<Seq<char>, int>,
    n1: nat,
    n2: nat,
    n: nat,
)
    requires
        agree_below(a, b, n1),
        agree_below(b, c, n2),
        n <= n1,
        n <= n2,
    ensures
        agree_below(a, c, n),
{
    assert forall|k: Seq<char>| a.dom().contains(k) && name_id(k) < n implies c.dom().contains(k)
        && c[k] == a[k] by {
        assert(b.dom().contains(k));
    }
}

proof fn lemma_agree_insert(a: Map<Seq<char>, int>, k: Seq<char>, x: int, n: nat)
    requires
        name_id(k) >= n,
    ensures
        agree_below(a, a.insert(k, x), n),
{
}

/// An operand drawn below `n` reads the same after a change that keeps
/// everything drawn below `n`.
proof fn lemma_operand_frame(a: Map<Seq<char>, int>, b: Map<Seq<char>, int>, v: Seq<char>, n: nat)
    requires
        agree_below(a, b, n),
        value_below(v, n),
        operand(a, v) is Some,
    ensures
        operand(b, v) == operand(a, v),
{
    if is_register(v) {
        assert(a.dom().contains(v));
    }
}

proof fn lemma_env_frame(
    syms: Seq<BindingV>,
    n: nat,
    n2: nat,
    env: Seq<(Seq<char>, Value)>,
    mem0: Map<Seq<char>, int>,
    mem1: Map<Seq<char>, int>,
    lo: nat,
)
    requires
        env_ok(syms, n, env, mem0),
        agree_below(mem0, mem1, lo),
        n <= lo,
        n <= n2,
    ensures
        env_ok(syms, n2, env, mem1),
{
    assert forall|i: int| 0 <= i < syms.len() implies {
        &&& (#[trigger] syms[i]).name == env[i].0
        &&& mem1.dom().contains(syms[i].slot)
        &&& mem1[syms[i].slot] == value_code(env[i].1)
        &&& name_id(syms[i].slot) < n2
    } by {
        assert(mem0.dom().contains(syms[i].slot));
    }
}

/// A name bound in the translation is bound in the source to the value
/// its slot holds.
proof fn lemma_lookup_env(
    syms: Seq<BindingV>,
    n: nat,
    env: Seq<(Seq<char>, Value)>,
    mem: Map<Seq<char>, int>,
    name: Seq<char>,
)
    requires
        env_ok(syms, n, env, mem),
    ensures
        lookup(syms, name) matches Some(b) ==> env_lookup(env, name) matches Some(v)
            && mem.dom().contains(b.slot) && mem[b.slot] == value_code(v),
        lookup(syms, name) is None ==> env_lookup(env, name) is None,
    decreases syms.len(),
{
    if syms.len() > 0 {
        let k = syms.len() - 1;
        assert(syms[k].name == env[k].0);
        if syms.last().name != name {
            let s2 = syms.drop_last();
            let e2 = env.drop_last();
            assert forall|i: int| 0 <= i < s2.len() implies {
                &&& (#[trigger] s2[i]).name == e2[i].0
                &&& mem.dom().contains(s2[i].slot)
                &&& mem[s2[i].slot] == value_code(e2[i].1)
                &&& name_id(s2[i].slot) < n
            } by {
                assert(s2[i] == syms[i]);
                assert(e2[i] == env[i]);
            }
            lemma_lookup_env(s2, n, e2, mem, name);
        }
    }
}

proof fn lemma_code_at_concat(prog: Seq<Inst>, k: int, a: Seq<Inst>, b: Seq<Inst>)
    requires
        code_at(prog, k, a + b),
    ensures
        code_at(prog, k, a),
        code_at(prog, k + a.len(), b),
{
    assert forall|i: int| 0 <= i < a.len() implies prog[k + i] == #[trigger] a[i] by {
        assert((a + b)[i] == a[i]);
    }
    assert forall|i: int| 0 <= i < b.len() implies prog[k + a.len() + i] == #[trigger] b[i] by {
        assert((a + b)[a.len() + i] == b[i]);
    }
}

proof fn lemma_code_at_push(prog: Seq<Inst>, k: int, a: Seq<Inst>, i: Inst)
    requires
        code_at(prog, k, a.push(i)),
    ensures
        code_at(prog, k, a),
        prog[k + a.len()] == i,
{
    assert(a.push(i) == a + seq![i]);
    lemma_code_at_concat(prog, k, a, seq![i]);
    assert(seq![i][0] == i);
}

/// With distinct labels, a jump to `l` lands on the one label `l`.
proof fn lemma_jump(prog: Seq<Inst>, m: Machine, l: Seq<char>, i: int)
    requires
        labels_distinct(prog),
        label_at(prog, i, l),
    ensures
        jump(prog, m, l) == Some(
            Machine { pc: i, regs: m.regs, mem: m.mem, block: m.block, prev: m.block, ret: m.ret },
        ),
{
    let j = choose|j: int| label_at(prog, j, l);
    assert(label_at(prog, j, l));
    if j < i {
        assert(label_id(prog[j]) == label_id(prog[i]));
    } else if i < j {
        assert(label_id(prog[j]) == label_id(prog[i]));
    }
}

/// Where the source defines a binary operation, `add`/`sub`/`mul`/`sdiv`
/// compute the same integer.
proof fn lemma_arith_agrees(op: crate::ast::BinOp, a: int, b: int)
    requires
        eval_bin(op, a, b) is Some,
    ensures
        eval_bin(op, a, b) matches Some(Value::Int(x)) && ir_arith(op, a, b) == Some(x)
            && llvm_binop(mnemonic(op), a, b) == Some(x),
{
    lemma_opcode_meanings(op, a, b);
    match op {
        crate::ast::BinOp::Add => {
            lemma_wrap_fits(a + b);
        },
        crate::ast::BinOp::Sub => {
            lemma_wrap_fits(a - b);
        },
        crate::ast::BinOp::Mul => {
            lemma_wrap_fits(a * b);
        },
        crate::ast::BinOp::Div => {},
    }
}

/// A new binding whose slot holds its value extends the correspondence.
proof fn lemma_env_push(
    syms: Seq<BindingV>,
    n: nat,
    env: Seq<(Seq<char>, Value)>,
    mem: Map<Seq<char>, int>,
    b: BindingV,
    v: Value,
)
    requires
        env_ok(syms, n, env, mem),
        mem.dom().contains(b.slot),
        mem[b.slot] == value_code(v),
        name_id(b.slot) < n,
    ensures
        env_ok(syms.push(b), n, env.push((b.name, v)), mem),
{
    let s2 = syms.push(b);
    let e2 = env.push((b.name, v));
    assert forall|i: int| 0 <= i < s2.len() implies {
        &&& (#[trigger] s2[i]).name == e2[i].0
        &&& mem.dom().contains(s2[i].slot)
        &&& mem[s2[i].slot] == value_code(e2[i].1)
        &&& name_id(s2[i].slot) < n
    } by {
        if i < syms.len() {
            assert(s2[i] == syms[i]);
            assert(e2[i] == env[i]);
        }
    }
}

/// Running the code of an expression leaves its value in its operand.
#[verifier::spinoff_prover]
pub proof fn lemma_expr_runs(
    prog: Seq<Inst>,
    st: CgState,
    e: ExprV,
    env: Seq<(Seq<char>, Value)>,
    m: Machine,
) -> (r: (nat, Machine))
    requires
        translate_expr(st, e) is Ok,
        eval_expr(env, e) is Some,
        ready(prog, translate_expr(st, e)->Ok_0.insts, m, st, env),
    ensures
        ran(
            prog,
            translate_expr(st, e)->Ok_0.insts,
            m,
            r.0,
            r.1,
            st.next_id,
            translate_expr(st, e)->Ok_0.st.block,
        ),
        operand(r.1.regs, translate_expr(st, e)->Ok_0.value) == Some(
            value_code(eval_expr(env, e)->Some_0),
        ),
    decreases e, 2int,
{
    reveal(translate_expr);
    reveal(translate_block);
    reveal(translate_stmts);
    reveal(translate_stmt);
    reveal(eval_expr);
    reveal(eval_block);
    reveal(eval_stmts);
    reveal(eval_stmt);
    let em = translate_expr(st, e)->Ok_0;
    let v = eval_expr(env, e)->Some_0;
    match e {
        ExprV::Num(n) => {
            lemma_int_text_operand(m.regs, num_value(n));
            (0, m)
        },
        ExprV::Bool(b) => {
            lemma_bool_operand(m.regs);
            (0, m)
        },
        ExprV::Ident(name) => {
            lemma_lookup_env(st.symbols, st.next_id, env, m.mem, name);
            let b = lookup(st.symbols, name)->Some_0;
            let dest = fresh_value(st, "v"@)->Ok_0.0;
            lemma_v_name(st.next_id);
            let ld = Inst::Load { dest, ty: b.ty, slot: b.slot };
            assert(em.insts == seq![ld]);
            assert(prog[m.pc + 0] == em.insts[0]);
            let m1 = with_reg(m, dest, m.mem[b.slot]);
            assert(step(prog, m) == Some(m1));
            lemma_one_step(prog, m, m1);
            lemma_agree_insert(m.regs, dest, m.mem[b.slot], st.next_id);
            (1, m1)
        },
        ExprV::Neg(inner) => {
            let a = translate_expr(st, *inner)->Ok_0;
            lemma_expr_facts(st, *inner);
            let x = value_code(eval_expr(env, *inner)->Some_0);
            assert(eval_expr(env, *inner) == Some(Value::Int(x)));
            assert(int_result(-x) == Some(v));
            let dest = fresh_value(a.st, "v"@)->Ok_0.0;
            lemma_v_name(a.st.next_id);
            let ng = Inst::Neg { dest, val: a.value };
            assert(em.insts == a.insts.push(ng));
            lemma_code_at_push(prog, m.pc, a.insts, ng);
            let (n1, m1) = lemma_expr_runs(prog, st, *inner, env, m);
            lemma_wrap_fits(0 - x);
            let m2 = with_reg(m1, dest, wrap_i64(0 - x));
            assert(step(prog, m1) == Some(m2));
            lemma_one_step(prog, m1, m2);
            lemma_steps_then(prog, m, n1, m1, 1, m2);
            lemma_agree_insert(m1.regs, dest, wrap_i64(0 - x), st.next_id);
            lemma_agree_trans(m.regs, m1.regs, m2.regs, st.next_id, st.next_id, st.next_id);
            (n1 + 1, m2)
        },
        ExprV::Bin { op, left, right } => {
            let a = translate_expr(st, *left)->Ok_0;
            lemma_expr_facts(st, *left);
            let b = translate_expr(a.st, *right)->Ok_0;
            lemma_expr_facts(a.st, *right);
            let xa = value_code(eval_expr(env, *left)->Some_0);
            let xb = value_code(eval_expr(env, *right)->Some_0);
            assert(eval_expr(env, *left) == Some(Value::Int(xa)));
            assert(eval_expr(env, *right) == Some(Value::Int(xb)));
            assert(eval_bin(op, xa, xb) == Some(v));
            let dest = fresh_value(b.st, "v"@)->Ok_0.0;
            lemma_v_name(b.st.next_id);
            let ar = Inst::Arith { dest, op, l: a.value, r: b.value };
            assert(em.insts == (a.insts + b.insts).push(ar));
            lemma_code_at_push(prog, m.pc, a.insts + b.insts, ar);
            lemma_code_at_concat(prog, m.pc, a.insts, b.insts);
            let (n1, m1) = lemma_expr_runs(prog, st, *left, env, m);
            lemma_env_frame(st.symbols, st.next_id, a.st.next_id, env, m.mem, m1.mem, st.next_id);
            let (n2, m2) = lemma_expr_runs(prog, a.st, *right, env, m1);
            lemma_operand_frame(m1.regs, m2.regs, a.value, a.st.next_id);
            lemma_arith_agrees(op, xa, xb);
            let x = value_code(v);
            let m3 = with_reg(m2, dest, x);
            assert(step(prog, m2) == Some(m3));
            lemma_one_step(prog, m2, m3);
            lemma_steps_then(prog, m, n1, m1, n2, m2);
            lemma_steps_then(prog, m, n1 + n2, m2, 1, m3);
            lemma_agree_trans(m.regs, m1.regs, m2.regs, st.next_id, a.st.next_id, st.next_id);
            lemma_agree_insert(m2.regs, dest, x, st.next_id);
            lemma_agree_trans(m.regs, m2.regs, m3.regs, st.next_id, st.next_id, st.next_id);
            lemma_agree_trans(m.mem, m1.mem, m2.mem, st.next_id, a.st.next_id, st.next_id);
            (n1 + n2 + 1, m3)
        },
        ExprV::Cmp { op, left, right } => {
            let a = translate_expr(st, *left)->Ok_0;
            lemma_expr_facts(st, *left);
            let b = translate_expr(a.st, *right)->Ok_0;
            lemma_expr_facts(a.st, *right);
            let xa = value_code(eval_expr(env, *left)->Some_0);
            let xb = value_code(eval_expr(env, *right)->Some_0);
            assert(eval_expr(env, *left) == Some(Value::Int(xa)));
            assert(eval_expr(env, *right) == Some(Value::Int(xb)));
            let dest = fresh_value(b.st, "v"@)->Ok_0.0;
            lemma_v_name(b.st.next_id);
            let ic = Inst::Icmp { dest, op, l: a.value, r: b.value };
            assert(em.insts == (a.insts + b.insts).push(ic));
            lemma_code_at_push(prog, m.pc, a.insts + b.insts, ic);
            lemma_code_at_concat(prog, m.pc, a.insts, b.insts);
            let (n1, m1) = lemma_expr_runs(prog, st, *left, env, m);
            lemma_env_frame(st.symbols, st.next_id, a.st.next_id, env, m.mem, m1.mem, st.next_id);
            let (n2, m2) = lemma_expr_runs(prog, a.st, *right, env, m1);
            lemma_operand_frame(m1.regs, m2.regs, a.value, a.st.next_id);
            lemma_predicate_meanings(op, xa, xb);
            let x = value_code(v);
            let m3 = with_reg(m2, dest, x);
            assert(step(prog, m2) == Some(m3));
            lemma_one_step(prog, m2, m3);
            lemma_steps_then(prog, m, n1, m1, n2, m2);
            lemma_steps_then(prog, m, n1 + n2, m2, 1, m3);
            lemma_agree_trans(m.regs, m1.regs, m2.regs, st.next_id, a.st.next_id, st.next_id);
            lemma_agree_insert(m2.regs, dest, x, st.next_id);
            lemma_agree_trans(m.regs, m2.regs, m3.regs, st.next_id, st.next_id, st.next_id);
            lemma_agree_trans(m.mem, m1.mem, m2.mem, st.next_id, a.st.next_id, st.next_id);
            (n1 + n2 + 1, m3)
        },
        ExprV::If { .. } => lemma_if_runs(prog, st, e, env, m),
        ExprV::Block(b) => {
            assert(translate_expr(st, e) == translate_block(st, *b));
            assert(eval_expr(env, e) == eval_block(env, *b));
            lemma_block_runs(prog, st, *b, env, m)
        },
    }
}

/// Running the diamond of an `if`: the branch its condition picks runs, and
/// the `phi` takes that branch's value.
#[verifier::spinoff_prover]
#[verifier::rlimit(40)]
pub proof fn lemma_if_runs(
    prog: Seq<Inst>,
    st: CgState,
    e: ExprV,
    env: Seq<(Seq<char>, Value)>,
    m: Machine,
) -> (r: (nat, Machine))
    requires
        e is If,
        translate_expr(st, e) is Ok,
        eval_expr(env, e) is Some,
        ready(prog, translate_expr(st, e)->Ok_0.insts, m, st, env),
    ensures
        ran(
            prog,
            translate_expr(st, e)->Ok_0.insts,
            m,
            r.0,
            r.1,
            st.next_id,
            translate_expr(st, e)->Ok_0.st.block,
        ),
        operand(r.1.regs, translate_expr(st, e)->Ok_0.value) == Some(
            value_code(eval_expr(env, e)->Some_0),
        ),
    decreases e, 1int,
{
    reveal(translate_expr);
    reveal(translate_block);
    reveal(eval_expr);
    reveal(eval_block);
    let em = translate_expr(st, e)->Ok_0;
    let v = eval_expr(env, e)->Some_0;
    match e {
        ExprV::If { cond, then_branch, else_branch } => {
            let c = translate_expr(st, *cond)->Ok_0;
            lemma_expr_facts(st, *cond);
            let n = c.st.next_id;
            let (tl, s1) = fresh_label(c.st, "if.then."@)->Ok_0;
            let (el, s2) = fresh_label(s1, "if.else."@)->Ok_0;
            let (ml, s3) = fresh_label(s2, "if.merge."@)->Ok_0;
            let t = translate_block(with_block(s3, tl), *then_branch)->Ok_0;
            lemma_block_facts(with_block(s3, tl), *then_branch);
            let f = translate_block(with_block(t.st, el), *else_branch)->Ok_0;
            lemma_block_facts(with_block(t.st, el), *else_branch);
            let dest = fresh_value(with_block(f.st, ml), "v"@)->Ok_0.0;
            lemma_label_names(n);
            lemma_label_names(n + 1);
            lemma_label_names(n + 2);
            lemma_v_name(f.st.next_id);
            let p1 = seq![
                Inst::BrCond { cond: c.value, then_label: tl, else_label: el },
                Inst::Label { label: tl },
            ];
            let p2 = seq![Inst::Br { label: ml }, Inst::Label { label: el }];
            let phi = Inst::Phi {
                dest,
                ty: t.ty,
                then_val: t.value,
                then_block: t.st.block,
                else_val: f.value,
                else_block: f.st.block,
            };
            let p3 = seq![Inst::Br { label: ml }, Inst::Label { label: ml }, phi];
            let a1 = c.insts + p1;
            let a2 = a1 + t.insts;
            let a3 = a2 + p2;
            let a4 = a3 + f.insts;
            assert(em.insts == a4 + p3);
            let k = m.pc;
            lemma_code_at_concat(prog, k, a4, p3);
            lemma_code_at_concat(prog, k, a3, f.insts);
            lemma_code_at_concat(prog, k, a2, p2);
            lemma_code_at_concat(prog, k, a1, t.insts);
            lemma_code_at_concat(prog, k, c.insts, p1);
            let kc = k + c.insts.len();
            let kel = kc + 2 + t.insts.len();
            let km = kel + 2 + f.insts.len();
            assert(prog[kc + 0] == p1[0]);
            assert(prog[kc + 1] == p1[1]);
            assert(prog[kel + 0] == p2[0]);
            assert(prog[kel + 1] == p2[1]);
            assert(prog[km + 0] == p3[0]);
            assert(prog[km + 1] == p3[1]);
            assert(prog[km + 2] == p3[2]);
            assert(t.st.block != f.st.block) by {
                if t.st.block == f.st.block {
                    assert(name_id(t.st.block) == name_id(f.st.block));
                }
            }
            let cv = eval_expr(env, *cond)->Some_0;
            assert(cv is Bool);
            let (n1, m1) = lemma_expr_runs(prog, st, *cond, env, m);
            if cv->Bool_0 {
                assert(operand(m1.regs, c.value) == Some(1int));
                lemma_env_frame(
                    st.symbols,
                    st.next_id,
                    s3.next_id,
                    env,
                    m.mem,
                    m1.mem,
                    st.next_id,
                );
                lemma_jump(prog, m1, tl, kc + 1);
                let m2 = Machine {
                    pc: kc + 1,
                    regs: m1.regs,
                    mem: m1.mem,
                    block: m1.block,
                    prev: m1.block,
                    ret: m1.ret,
                };
                assert(step(prog, m1) == Some(m2));
                let m3 = Machine {
                    pc: kc + 2,
                    regs: m1.regs,
                    mem: m1.mem,
                    block: tl,
                    prev: m1.block,
                    ret: m1.ret,
                };
                assert(step(prog, m2) == Some(m3));
                let (n4, m4) = lemma_block_runs(prog, with_block(s3, tl), *then_branch, env, m3);
                lemma_jump(prog, m4, ml, km + 1);
                let m5 = Machine {
                    pc: km + 1,
                    regs: m4.regs,
                    mem: m4.mem,
                    block: m4.block,
                    prev: m4.block,
                    ret: m4.ret,
                };
                assert(step(prog, m4) == Some(m5));
                let m6 = Machine {
                    pc: km + 2,
                    regs: m4.regs,
                    mem: m4.mem,
                    block: ml,
                    prev: m4.block,
                    ret: m4.ret,
                };
                assert(step(prog, m5) == Some(m6));
                let x = value_code(v);
                let m7 = with_reg(m6, dest, x);
                assert(step(prog, m6) == Some(m7));
                lemma_one_step(prog, m1, m2);
                lemma_one_step(prog, m2, m3);
                lemma_one_step(prog, m4, m5);
                lemma_one_step(prog, m5, m6);
                lemma_one_step(prog, m6, m7);
                lemma_steps_then(prog, m, n1, m1, 1, m2);
                lemma_steps_then(prog, m, n1 + 1, m2, 1, m3);
                lemma_steps_then(prog, m, n1 + 2, m3, n4, m4);
                lemma_steps_then(prog, m, n1 + 2 + n4, m4, 1, m5);
                lemma_steps_then(prog, m, n1 + 3 + n4, m5, 1, m6);
                lemma_steps_then(prog, m, n1 + 4 + n4, m6, 1, m7);
                lemma_agree_trans(m.regs, m1.regs, m4.regs, st.next_id, s3.next_id, st.next_id);
                lemma_agree_insert(m4.regs, dest, x, st.next_id);
                lemma_agree_trans(m.regs, m4.regs, m7.regs, st.next_id, st.next_id, st.next_id);
                lemma_agree_trans(m.mem, m1.mem, m4.mem, st.next_id, s3.next_id, st.next_id);
                (n1 + 5 + n4, m7)
            } else {
                assert(operand(m1.regs, c.value) == Some(0int));
                lemma_env_frame(
                    st.symbols,
                    st.next_id,
                    t.st.next_id,
                    env,
                    m.mem,
                    m1.mem,
                    st.next_id,
                );
                lemma_jump(prog, m1, el, kel + 1);
                let m2 = Machine {
                    pc: kel + 1,
                    regs: m1.regs,
                    mem: m1.mem,
                    block: m1.block,
                    prev: m1.block,
                    ret: m1.ret,
                };
                assert(step(prog, m1) == Some(m2));
                let m3 = Machine {
                    pc: kel + 2,
                    regs: m1.regs,
                    mem: m1.mem,
                    block: el,
                    prev: m1.block,
                    ret: m1.ret,
                };
                assert(step(prog, m2) == Some(m3));
                let (n4, m4) = lemma_block_runs(prog, with_block(t.st, el), *else_branch, env, m3);
                lemma_jump(prog, m4, ml, km + 1);
                let m5 = Machine {
                    pc: km + 1,
                    regs: m4.regs,
                    mem: m4.mem,
                    block: m4.block,
                    prev: m4.block,
                    ret: m4.ret,
                };
                assert(step(prog, m4) == Some(m5));
                let m6 = Machine {
                    pc: km + 2,
                    regs: m4.regs,
                    mem: m4.mem,
                    block: ml,
                    prev: m4.block,
                    ret: m4.ret,
                };
                assert(step(prog, m5) == Some(m6));
                let x = value_code(v);
                let m7 = with_reg(m6, dest, x);
                assert(step(prog, m6) == Some(m7));
                lemma_one_step(prog, m1, m2);
                lemma_one_step(prog, m2, m3);
                lemma_one_step(prog, m4, m5);
                lemma_one_step(prog, m5, m6);
                lemma_one_step(prog, m6, m7);
                lemma_steps_then(prog, m, n1, m1, 1, m2);
                lemma_steps_then(prog, m, n1 + 1, m2, 1, m3);
                lemma_steps_then(prog, m, n1 + 2, m3, n4, m4);
                lemma_steps_then(prog, m, n1 + 2 + n4, m4, 1, m5);
                lemma_steps_then(prog, m, n1 + 3 + n4, m5, 1, m6);
                lemma_steps_then(prog, m, n1 + 4 + n4, m6, 1, m7);
                lemma_agree_trans(m.regs, m1.regs, m4.regs, st.next_id, t.st.next_id, st.next_id);
                lemma_agree_insert(m4.regs, dest, x, st.next_id);
                lemma_agree_trans(m.regs, m4.regs, m7.regs, st.next_id, st.next_id, st.next_id);
                lemma_agree_trans(m.mem, m1.mem, m4.mem, st.next_id, t.st.next_id, st.next_id);
                (n1 + 5 + n4, m7)
            }
        },
        _ => (0, m),
    }
}

/// Running the code of a block leaves the block's value in its operand.
#[verifier::spinoff_prover]
pub proof fn lemma_block_runs(
    prog: Seq<Inst>,
    st: CgState,
    b: BlockV,
    env: Seq<(Seq<char>, Value)>,
    m: Machine,
) -> (r: (nat, Machine))
    requires
        translate_block(st, b) is Ok,
        eval_block(env, b) is Some,
        ready(prog, translate_block(st, b)->Ok_0.insts, m, st, env),
    ensures
        ran(
            prog,
            translate_block(st, b)->Ok_0.insts,
            m,
            r.0,
            r.1,
            st.next_id,
            translate_block(st, b)->Ok_0.st.block,
        ),
        operand(r.1.regs, translate_block(st, b)->Ok_0.value) == Some(
            value_code(eval_block(env, b)->Some_0),
        ),
    decreases b, 2int,
{
    reveal(translate_expr);
    reveal(translate_block);
    reveal(translate_stmts);
    reveal(translate_stmt);
    reveal(eval_expr);
    reveal(eval_block);
    reveal(eval_stmts);
    reveal(eval_stmt);
    let em = translate_block(st, b)->Ok_0;
    let (is1, s1) = translate_stmts(st, b.stmts)->Ok_0;
    let res = translate_expr(s1, b.result)->Ok_0;
    let env1 = eval_stmts(env, b.stmts)->Some_0;
    lemma_stmts_facts(st, b.stmts);
    assert(em.insts == is1 + res.insts);
    lemma_code_at_concat(prog, m.pc, is1, res.insts);
    let (n1, m1) = lemma_stmts_runs(prog, st, b.stmts, env, m);
    let (n2, m2) = lemma_expr_runs(prog, s1, b.result, env1, m1);
    lemma_steps_then(prog, m, n1, m1, n2, m2);
    lemma_agree_trans(m.regs, m1.regs, m2.regs, st.next_id, s1.next_id, st.next_id);
    lemma_agree_trans(m.mem, m1.mem, m2.mem, st.next_id, s1.next_id, st.next_id);
    (n1 + n2, m2)
}

/// Running the code of statements binds their values in their slots.
#[verifier::spinoff_prover]
pub proof fn lemma_stmts_runs(
    prog: Seq<Inst>,
    st: CgState,
    ss: Seq<StmtV>,
    env: Seq<(Seq<char>, Value)>,
    m: Machine,
) -> (r: (nat, Machine))
    requires
        translate_stmts(st, ss) is Ok,
        eval_stmts(env, ss) is Some,
        ready(prog, translate_stmts(st, ss)->Ok_0.0, m, st, env),
    ensures
        ran(
            prog,
            translate_stmts(st, ss)->Ok_0.0,
            m,
            r.0,
            r.1,
            st.next_id,
            translate_stmts(st, ss)->Ok_0.1.block,
        ),
        env_ok(
            translate_stmts(st, ss)->Ok_0.1.symbols,
            translate_stmts(st, ss)->Ok_0.1.next_id,
            eval_stmts(env, ss)->Some_0,
            r.1.mem,
        ),
    decreases ss, 2int,
{
    reveal(translate_stmts);
    reveal(eval_stmts);
    if ss.len() == 0 {
        (0, m)
    } else {
        broadcast use vstd::seq::axiom_seq_index_decreases;
        broadcast use vstd::seq::axiom_seq_subrange_decreases;

        assert(decreases_to!(ss => ss[0]));
        assert(decreases_to!(ss => ss.subrange(1, ss.len() as int)));
        let rest = ss.subrange(1, ss.len() as int);
        let (is1, s1) = translate_stmt(st, ss[0])->Ok_0;
        let (is2, s2) = translate_stmts(s1, rest)->Ok_0;
        let env1 = eval_stmt(env, ss[0])->Some_0;
        lemma_stmt_facts(st, ss[0]);
        lemma_code_at_concat(prog, m.pc, is1, is2);
        let (n1, m1) = lemma_stmt_runs(prog, st, ss[0], env, m);
        let (n2, m2) = lemma_stmts_runs(prog, s1, rest, env1, m1);
        lemma_steps_then(prog, m, n1, m1, n2, m2);
        lemma_agree_trans(m.regs, m1.regs, m2.regs, st.next_id, s1.next_id, st.next_id);
        lemma_agree_trans(m.mem, m1.mem, m2.mem, st.next_id, s1.next_id, st.next_id);
        (n1 + n2, m2)
    }
}

/// Running `let name = value;` stores the value in the new slot.
#[verifier::spinoff_prover]
pub proof fn lemma_stmt_runs(
    prog: Seq<Inst>,
    st: CgState,
    s: StmtV,
    env: Seq<(Seq<char>, Value)>,
    m: Machine,
) -> (r: (nat, Machine))
    requires
        translate_stmt(st, s) is Ok,
        eval_stmt(env, s) is Some,
        ready(prog, translate_stmt(st, s)->Ok_0.0, m, st, env),
    ensures
        ran(
            prog,
            translate_stmt(st, s)->Ok_0.0,
            m,
            r.0,
            r.1,
            st.next_id,
            translate_stmt(st, s)->Ok_0.1.block,
        ),
        env_ok(
            translate_stmt(st, s)->Ok_0.1.symbols,
            translate_stmt(st, s)->Ok_0.1.next_id,
            eval_stmt(env, s)->Some_0,
            r.1.mem,
        ),
    decreases s, 2int,
{
    reveal(translate_stmt);
    reveal(eval_stmt);
    match s {
        StmtV::Let { name, value } => {
            let a = translate_expr(st, value)->Ok_0;
            lemma_expr_facts(st, value);
            let (slot, s1) = fresh_value(a.st, name + "_slot_"@)->Ok_0;
            lemma_slot_name(name, a.st.next_id);
            let al = Inst::Alloca { slot, ty: a.ty };
            let sto = Inst::Store { ty: a.ty, val: a.value, slot };
            let bnd = BindingV { name, slot, ty: a.ty };
            let st2 = with_symbols(s1, s1.symbols.push(bnd));
            assert(translate_stmt(st, s) == Ok::<(Seq<Inst>, CgState), CgError>(
                (a.insts + seq![al, sto], st2),
            ));
            lemma_code_at_concat(prog, m.pc, a.insts, seq![al, sto]);
            assert(prog[m.pc + a.insts.len() + 0] == al);
            assert(prog[m.pc + a.insts.len() + 1] == sto);
            let val = eval_expr(env, value)->Some_0;
            assert(eval_stmt(env, s) == Some(env.push((name, val))));
            let (n1, m1) = lemma_expr_runs(prog, st, value, env, m);
            let x = value_code(val);
            let m2 = with_mem(m1, slot, 0);
            assert(step(prog, m1) == Some(m2));
            let m3 = with_mem(m2, slot, x);
            assert(step(prog, m2) == Some(m3));
            lemma_one_step(prog, m1, m2);
            lemma_one_step(prog, m2, m3);
            lemma_steps_then(prog, m, n1, m1, 1, m2);
            lemma_steps_then(prog, m, n1 + 1, m2, 1, m3);
            lemma_agree_insert(m1.mem, slot, 0, st.next_id);
            lemma_agree_insert(m2.mem, slot, x, st.next_id);
            lemma_agree_trans(m.mem, m1.mem, m2.mem, st.next_id, st.next_id, st.next_id);
            lemma_agree_trans(m.mem, m2.mem, m3.mem, st.next_id, st.next_id, st.next_id);
            lemma_env_frame(
                st.symbols,
                st.next_id,
                st2.next_id,
                env,
                m.mem,
                m3.mem,
                st.next_id,
            );
            lemma_env_push(st.symbols, st2.next_id, env, m3.mem, bnd, val);
            (n1 + 2, m3)
        },
    }
}

/// The LLVM backend computes what the program means: where the value of a
/// program is defined (no overflow, no division by zero, no ill-typed
/// operation), the body of the `main` generated for it, run from its entry,
/// returns that value (a boolean as 0 or 1) as the exit code.
pub proof fn lemma_codegen_computes(p: BlockV)
    requires
        main_body(p) is Ok,
        program_value(p) is Some,
    ensures
        exists|n: nat| returns_after(main_body(p)->Ok_0, n, program_value(p)->Some_0),
{
    reveal(eval_expr);
    reveal(eval_block);
    reveal(eval_stmts);
    reveal(eval_stmt);
    let prog = main_body(p)->Ok_0;
    let st0 = initial_state();
    let env0 = Seq::<(Seq<char>, Value)>::empty();
    let (is1, s1) = translate_stmts(st0, p.stmts)->Ok_0;
    let res = translate_expr(s1, p.result)->Ok_0;
    let env1 = eval_stmts(env0, p.stmts)->Some_0;
    let v = eval_expr(env1, p.result)->Some_0;
    let x = value_code(v);
    assert(program_value(p) == Some(x));
    lemma_stmts_facts(st0, p.stmts);
    lemma_expr_facts(s1, p.result);
    lemma_concat_disjoint(is1, res.insts, 0, s1.next_id, s1.next_id, res.st.next_id);
    lemma_between_widen(is1, 0, s1.next_id, 0, res.st.next_id);
    lemma_between_widen(res.insts, s1.next_id, res.st.next_id, 0, res.st.next_id);
    lemma_concat_between(is1, res.insts, 0, res.st.next_id);
    let body = is1 + res.insts;
    let m0 = initial_machine();
    assert(env_ok(st0.symbols, st0.next_id, env0, m0.mem));
    if res.ty == Ty::I64 {
        let tail = seq![Inst::Ret { val: res.value }];
        assert(prog == body + tail);
        assert(labels_distinct(tail));
        assert(labels_between(tail, res.st.next_id, res.st.next_id));
        lemma_concat_disjoint(body, tail, 0, res.st.next_id, res.st.next_id, res.st.next_id);
        assert(code_at(prog, 0, prog));
        lemma_code_at_concat(prog, 0, body, tail);
        lemma_code_at_concat(prog, 0, is1, res.insts);
        let (n1, m1) = lemma_stmts_runs(prog, st0, p.stmts, env0, m0);
        let (n2, m2) = lemma_expr_runs(prog, s1, p.result, env1, m1);
        assert(prog[body.len() as int + 0] == tail[0]);
        let m3 = Machine {
            pc: m2.pc + 1,
            regs: m2.regs,
            mem: m2.mem,
            block: m2.block,
            prev: m2.prev,
            ret: Some(x),
        };
        assert(step(prog, m2) == Some(m3));
        lemma_one_step(prog, m2, m3);
        lemma_steps_then(prog, m0, n1, m1, n2, m2);
        lemma_steps_then(prog, m0, n1 + n2, m2, 1, m3);
        assert(returns_after(prog, n1 + n2 + 1, x));
    } else {
        let z = fresh_value(res.st, "v"@)->Ok_0.0;
        lemma_v_name(res.st.next_id);
        let tail = seq![Inst::Zext { dest: z, ty: res.ty, val: res.value }, Inst::Ret { val: z }];
        assert(prog == body + tail);
        assert(labels_distinct(tail));
        assert(labels_between(tail, res.st.next_id, res.st.next_id));
        lemma_concat_disjoint(body, tail, 0, res.st.next_id, res.st.next_id, res.st.next_id);
        assert(code_at(prog, 0, prog));
        lemma_code_at_concat(prog, 0, body, tail);
        lemma_code_at_concat(prog, 0, is1, res.insts);
        let (n1, m1) = lemma_stmts_runs(prog, st0, p.stmts, env0, m0);
        let (n2, m2) = lemma_expr_runs(prog, s1, p.result, env1, m1);
        assert(prog[body.len() as int + 0] == tail[0]);
        assert(prog[body.len() as int + 1] == tail[1]);
        let m3 = with_reg(m2, z, x);
        assert(step(prog, m2) == Some(m3));
        let m4 = Machine {
            pc: m3.pc + 1,
            regs: m3.regs,
            mem: m3.mem,
            block: m3.block,
            prev: m3.prev,
            ret: Some(x),
        };
        assert(step(prog, m3) == Some(m4));
        lemma_one_step(prog, m2, m3);
        lemma_one_step(prog, m3, m4);
        lemma_steps_then(prog, m0, n1, m1, n2, m2);
        lemma_steps_then(prog, m0, n1 + n2, m2, 1, m3);
        lemma_steps_then(prog, m0, n1 + n2 + 1, m3, 1, m4);
        assert(returns_after(prog, n1 + n2 + 2, x));
    }
}

} // verus!
