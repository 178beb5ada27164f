//! Properties of the LLVM IR translation: scoping, shadowing, the
//! uniqueness of fresh names, and what code generation checks of a program.
use vstd::prelude::*;

use crate::ast::{BlockV, ExprV, StmtV};
use crate::ir::{
    BindingV, CgError, CgState, Inst, Ty, fresh_label, fresh_value, initial_state, lookup,
    main_body, spec_codegen, translate_block, translate_expr, translate_stmt, translate_stmts,
    with_block, with_symbols,
};
use crate::ir_sem::lemma_nat_text_digits;
use crate::text::nat_text;

verus! {

/// Translating an expression leaves the names in scope as they were: a block
/// drops its own bindings at its end, and no other expression binds a name.
pub proof fn lemma_expr_keeps_scope(st: CgState, e: ExprV)
    ensures
        translate_expr(st, e) matches Ok(em) ==> em.st.symbols == st.symbols,
    decreases e,
{
    reveal(translate_expr);
    reveal(translate_block);
    reveal(translate_stmts);
    reveal(translate_stmt);
    match e {
        ExprV::Neg(inner) => {
            lemma_expr_keeps_scope(st, *inner);
        },
        ExprV::Bin { left, right, .. } => {
            lemma_expr_keeps_scope(st, *left);
            if let Ok(a) = translate_expr(st, *left) {
                lemma_expr_keeps_scope(a.st, *right);
            }
        },
        ExprV::Cmp { left, right, .. } => {
            lemma_expr_keeps_scope(st, *left);
            if let Ok(a) = translate_expr(st, *left) {
                lemma_expr_keeps_scope(a.st, *right);
            }
        },
        ExprV::If { cond, then_branch, else_branch } => {
            lemma_expr_keeps_scope(st, *cond);
            if let Ok(c) = translate_expr(st, *cond) {
                if let Ok((tl, s1)) = fresh_label(c.st, "if.then."@) {
                    if let Ok((el, s2)) = fresh_label(s1, "if.else."@) {
                        if let Ok((ml, s3)) = fresh_label(s2, "if.merge."@) {
                            if let Ok(t) = translate_block(with_block(s3, tl), *then_branch) {
                                assert(t.st.symbols == st.symbols);
                                if let Ok(f) = translate_block(with_block(t.st, el), *else_branch) {
                                    assert(f.st.symbols == st.symbols);
                                }
                            }
                        }
                    }
                }
            }
        },
        ExprV::Block(b) => {
            assert(translate_expr(st, e) == translate_block(st, *b));
        },
        _ => {},
    }
}

/// After `let name = value;` the name refers to the new stack slot
/// `%<name>_slot_<n>`, and every other name refers to what it did before:
/// a later `let` shadows an earlier one.
pub proof fn lemma_let_shadows(st: CgState, name: Seq<char>, value: ExprV, other: Seq<char>)
    ensures
        translate_stmt(st, StmtV::Let { name, value }) matches Ok((_, st2)) ==> {
            &&& st2.next_id >= 1
            &&& lookup(st2.symbols, name) matches Some(b) && b.name == name && b.slot == seq![
                '%',
            ] + (name + "_slot_"@) + nat_text((st2.next_id - 1) as nat)
            &&& other != name ==> lookup(st2.symbols, other) == lookup(st.symbols, other)
        },
{
    reveal(translate_stmt);
    reveal(translate_expr);
    lemma_expr_keeps_scope(st, value);
    if let Ok((_, st2)) = translate_stmt(st, StmtV::Let { name, value }) {
        let a = translate_expr(st, value)->Ok_0;
        let (slot, s1) = fresh_value(a.st, name + "_slot_"@)->Ok_0;
        assert(st2.symbols.drop_last() =~= s1.symbols);
    }
}

/// Distinct numbers have distinct decimal notations.
pub proof fn lemma_nat_text_injective(m: nat, n: nat)
    ensures
        nat_text(m) == nat_text(n) ==> m == n,
{
    lemma_nat_text_digits(m);
    lemma_nat_text_digits(n);
}

/// Fresh names drawn at different counter values are different: since the
/// counter only grows, every SSA register and label is defined once.
pub proof fn lemma_fresh_names_distinct(hint: Seq<char>, i: nat, j: nat)
    ensures
        i != j ==> seq!['%'] + hint + nat_text(i) != seq!['%'] + hint + nat_text(j),
        i != j ==> hint + nat_text(i) != hint + nat_text(j),
{
    if i != j {
        lemma_nat_text_injective(i, j);
        let k = hint.len() as int;
        if hint + nat_text(i) == hint + nat_text(j) {
            assert((hint + nat_text(i)).subrange(k, (hint + nat_text(i)).len() as int) =~= nat_text(i));
            assert((hint + nat_text(j)).subrange(k, (hint + nat_text(j)).len() as int) =~= nat_text(j));
        }
        if seq!['%'] + hint + nat_text(i) == seq!['%'] + hint + nat_text(j) {
            let a = seq!['%'] + hint + nat_text(i);
            let b = seq!['%'] + hint + nat_text(j);
            assert(a.subrange(k + 1, a.len() as int) =~= nat_text(i));
            assert(b.subrange(k + 1, b.len() as int) =~= nat_text(j));
        }
    }
}

/// The names a list of bindings binds, oldest first.
pub open spec fn scope_names(syms: Seq<BindingV>) -> Seq<Seq<char>> {
    syms.map_values(|b: BindingV| b.name)
}

/// Every identifier of `e` names a binding of `scope`, or of a `let` before
/// it in a block around it.
#[verifier::opaque]
pub open spec fn names_bound_expr(scope: Seq<Seq<char>>, e: ExprV) -> bool
    decreases e,
{
    match e {
        ExprV::Num(_) => true,
        ExprV::Bool(_) => true,
        ExprV::Ident(name) => scope.contains(name),
        ExprV::Neg(inner) => names_bound_expr(scope, *inner),
        ExprV::Bin { left, right, .. } => names_bound_expr(scope, *left) && names_bound_expr(
            scope,
            *right,
        ),
        ExprV::Cmp { left, right, .. } => names_bound_expr(scope, *left) && names_bound_expr(
            scope,
            *right,
        ),
        ExprV::If { cond, then_branch, else_branch } => names_bound_expr(scope, *cond)
            && names_bound_block(scope, *then_branch) && names_bound_block(scope, *else_branch),
        ExprV::Block(b) => names_bound_block(scope, *b),
    }
}

/// Every identifier of a block is bound where it is used.
#[verifier::opaque]
pub open spec fn names_bound_block(scope: Seq<Seq<char>>, b: BlockV) -> bool
    decreases b,
{
    match scope_after_stmts(scope, b.stmts) {
        Some(s1) => names_bound_expr(s1, b.result),
        None => false,
    }
}

/// The names in scope after the statements, where each statement uses only
/// names bound before it.
#[verifier::opaque]
pub open spec fn scope_after_stmts(scope: Seq<Seq<char>>, ss: Seq<StmtV>) -> Option<
    Seq<Seq<char>>,
>
    decreases ss,
{
    if ss.len() == 0 {
        Some(scope)
    } else {
        proof {
            broadcast use vstd::seq::axiom_seq_index_decreases;
            broadcast use vstd::seq::axiom_seq_subrange_decreases;

            assert(decreases_to!(ss => ss[0]));
            assert(decreases_to!(ss => ss.subrange(1, ss.len() as int)));
        }
        match scope_after_stmt(scope, ss[0]) {
            Some(s1) => scope_after_stmts(s1, ss.subrange(1, ss.len() as int)),
            None => None,
        }
    }
}

#[verifier::opaque]
pub open spec fn scope_after_stmt(scope: Seq<Seq<char>>, s: StmtV) -> Option<Seq<Seq<char>>>
    decreases s,
{
    match s {
        StmtV::Let { name, value } => if names_bound_expr(scope, value) {
            Some(scope.push(name))
        } else {
            None
        },
    }
}

/// A name that the bindings resolve is one of their names.
proof fn lemma_lookup_in_scope(syms: Seq<BindingV>, name: Seq<char>)
    ensures
        lookup(syms, name) is Some ==> scope_names(syms).contains(name),
    decreases syms.len(),
{
    if syms.len() > 0 {
        let k = syms.len() - 1;
        if syms.last().name == name {
            assert(scope_names(syms)[k] == name);
        } else {
            lemma_lookup_in_scope(syms.drop_last(), name);
            if lookup(syms, name) is Some {
                let i = choose|i: int|
                    0 <= i < scope_names(syms.drop_last()).len() && scope_names(
                        syms.drop_last(),
                    )[i] == name;
                assert(scope_names(syms)[i] == name);
            }
        }
    }
}

/// An expression that compiles uses only names in scope.
pub proof fn lemma_compiled_expr_names_bound(st: CgState, e: ExprV)
    ensures
        translate_expr(st, e) is Ok ==> names_bound_expr(scope_names(st.symbols), e),
    decreases e, 0int,
{
    reveal(translate_expr);
    reveal(translate_block);
    reveal(translate_stmts);
    reveal(translate_stmt);
    reveal(names_bound_expr);
    reveal(names_bound_block);
    reveal(scope_after_stmts);
    reveal(scope_after_stmt);
    match e {
        ExprV::Ident(name) => {
            lemma_lookup_in_scope(st.symbols, name);
        },
        ExprV::Neg(inner) => {
            lemma_compiled_expr_names_bound(st, *inner);
        },
        ExprV::Bin { left, right, .. } => {
            lemma_compiled_expr_names_bound(st, *left);
            lemma_expr_keeps_scope(st, *left);
            if let Ok(a) = translate_expr(st, *left) {
                lemma_compiled_expr_names_bound(a.st, *right);
            }
        },
        ExprV::Cmp { left, right, .. } => {
            lemma_compiled_expr_names_bound(st, *left);
            lemma_expr_keeps_scope(st, *left);
            if let Ok(a) = translate_expr(st, *left) {
                lemma_compiled_expr_names_bound(a.st, *right);
            }
        },
        ExprV::If { cond, then_branch, else_branch } => {
            lemma_compiled_expr_names_bound(st, *cond);
            lemma_expr_keeps_scope(st, *cond);
            if let Ok(c) = translate_expr(st, *cond) {
                if let Ok((tl, s1)) = fresh_label(c.st, "if.then."@) {
                    if let Ok((el, s2)) = fresh_label(s1, "if.else."@) {
                        if let Ok((ml, s3)) = fresh_label(s2, "if.merge."@) {
                            lemma_compiled_block_names_bound(with_block(s3, tl), *then_branch);
                            if let Ok(t) = translate_block(with_block(s3, tl), *then_branch) {
                                lemma_compiled_block_names_bound(
                                    with_block(t.st, el),
                                    *else_branch,
                                );
                            }
                        }
                    }
                }
            }
        },
        ExprV::Block(b) => {
            lemma_compiled_block_names_bound(st, *b);
            assert(translate_expr(st, e) == translate_block(st, *b));
        },
        _ => {},
    }
}

/// A block that compiles uses only names in scope where it uses them.
pub proof fn lemma_compiled_block_names_bound(st: CgState, b: BlockV)
    ensures
        translate_block(st, b) is Ok ==> names_bound_block(scope_names(st.symbols), b),
    decreases b, 0int,
{
    reveal(translate_expr);
    reveal(translate_block);
    reveal(translate_stmts);
    reveal(translate_stmt);
    reveal(names_bound_expr);
    reveal(names_bound_block);
    reveal(scope_after_stmts);
    reveal(scope_after_stmt);
    lemma_compiled_stmts_names_bound(st, b.stmts);
    if let Ok((is1, s1)) = translate_stmts(st, b.stmts) {
        lemma_compiled_expr_names_bound(s1, b.result);
    }
}

/// Statements that compile use only names bound before them, and leave
/// in scope exactly the names the code generator has bound.
pub proof fn lemma_compiled_stmts_names_bound(st: CgState, ss: Seq<StmtV>)
    ensures
        translate_stmts(st, ss) matches Ok((_, st2)) ==> scope_after_stmts(
            scope_names(st.symbols),
            ss,
        ) == Some(scope_names(st2.symbols)),
    decreases ss, 0int,
{
    reveal(translate_expr);
    reveal(translate_block);
    reveal(translate_stmts);
    reveal(translate_stmt);
    reveal(names_bound_expr);
    reveal(names_bound_block);
    reveal(scope_after_stmts);
    reveal(scope_after_stmt);
    if ss.len() > 0 {
        broadcast use vstd::seq::axiom_seq_index_decreases;
        broadcast use vstd::seq::axiom_seq_subrange_decreases;

        assert(decreases_to!(ss => ss[0]));
        assert(decreases_to!(ss => ss.subrange(1, ss.len() as int)));
        lemma_compiled_stmt_names_bound(st, ss[0]);
        if let Ok((is1, s1)) = translate_stmt(st, ss[0]) {
            lemma_compiled_stmts_names_bound(s1, ss.subrange(1, ss.len() as int));
        }
    }
}

proof fn lemma_scope_names_push(syms: Seq<BindingV>, b: BindingV)
    ensures
        scope_names(syms.push(b)) == scope_names(syms).push(b.name),
{
    assert(scope_names(syms.push(b)) =~= scope_names(syms).push(b.name));
}

/// A `let` that compiles uses only names in scope, and adds its own name.
#[verifier::spinoff_prover]
pub proof fn lemma_compiled_stmt_names_bound(st: CgState, s: StmtV)
    ensures
        translate_stmt(st, s) matches Ok((_, st2)) ==> scope_after_stmt(
            scope_names(st.symbols),
            s,
        ) == Some(scope_names(st2.symbols)),
    decreases s, 0int,
{
    reveal(translate_stmt);
    reveal(scope_after_stmt);
    match s {
        StmtV::Let { name, value } => {
            lemma_compiled_expr_names_bound(st, value);
            lemma_expr_keeps_scope(st, value);
            if let Ok(a) = translate_expr(st, value) {
                if let Ok((slot, s1)) = fresh_value(a.st, name + "_slot_"@) {
                    let syms2 = s1.symbols.push(BindingV { name, slot, ty: a.ty });
                    assert(translate_stmt(st, s) matches Ok((_, st2)) && st2.symbols == syms2);
                    lemma_scope_names_push(s1.symbols, BindingV { name, slot, ty: a.ty });
                    assert(scope_after_stmt(scope_names(st.symbols), s) == Some(
                        scope_names(st.symbols).push(name),
                    ));
                }
            }
        },
    }
}

/// Forward references are an error: a program that uses a name where no
/// `let` before it, in its block or a block around it, binds it does not
/// compile.
pub proof fn lemma_unbound_name_rejected(p: BlockV)
    requires
        !names_bound_block(Seq::empty(), p),
    ensures
        spec_codegen(p) is Err,
{
    reveal(translate_expr);
    reveal(translate_block);
    reveal(translate_stmts);
    reveal(translate_stmt);
    reveal(names_bound_expr);
    reveal(names_bound_block);
    reveal(scope_after_stmts);
    reveal(scope_after_stmt);
    lemma_compiled_stmts_names_bound(initial_state(), p.stmts);
    if let Ok((is1, s1)) = translate_stmts(initial_state(), p.stmts) {
        lemma_compiled_expr_names_bound(s1, p.result);
        assert(scope_names(initial_state().symbols) =~= Seq::<Seq<char>>::empty());
    }
}

/// The types of the names in scope, as the bindings record them.
pub open spec fn scope_types(syms: Seq<BindingV>) -> Seq<(Seq<char>, Ty)> {
    syms.map_values(|b: BindingV| (b.name, b.ty))
}

/// The type of the latest binding of `name`.
pub open spec fn type_lookup(scope: Seq<(Seq<char>, Ty)>, name: Seq<char>) -> Option<Ty>
    decreases scope.len(),
{
    if scope.len() == 0 {
        None
    } else if scope.last().0 == name {
        Some(scope.last().1)
    } else {
        type_lookup(scope.drop_last(), name)
    }
}

/// The type of an expression: `i64` for integer literals and arithmetic on
/// integers, `i1` for boolean literals and comparisons of integers, a name's
/// binding type, the common type of an `if`'s branches when its condition
/// is a boolean. `None` where a name is unbound, an operand of arithmetic or
/// a comparison is not an integer, an `if` condition is not a boolean, or
/// the branches of an `if` have different types.
#[verifier::opaque]
pub open spec fn expr_type(scope: Seq<(Seq<char>, Ty)>, e: ExprV) -> Option<Ty>
    decreases e,
{
    match e {
        ExprV::Num(_) => Some(Ty::I64),
        ExprV::Bool(_) => Some(Ty::I1),
        ExprV::Ident(name) => type_lookup(scope, name),
        ExprV::Neg(inner) => if expr_type(scope, *inner) == Some(Ty::I64) {
            Some(Ty::I64)
        } else {
            None
        },
        ExprV::Bin { left, right, .. } => if expr_type(scope, *left) == Some(Ty::I64) && expr_type(
            scope,
            *right,
        ) == Some(Ty::I64) {
            Some(Ty::I64)
        } else {
            None
        },
        ExprV::Cmp { left, right, .. } => if expr_type(scope, *left) == Some(Ty::I64) && expr_type(
            scope,
            *right,
        ) == Some(Ty::I64) {
            Some(Ty::I1)
        } else {
            None
        },
        ExprV::If { cond, then_branch, else_branch } => if expr_type(scope, *cond) == Some(Ty::I1) {
            match block_type(scope, *then_branch) {
                Some(t) => match block_type(scope, *else_branch) {
                    Some(f) => if t == f {
                        Some(t)
                    } else {
                        None
                    },
                    None => None,
                },
                None => None,
            }
        } else {
            None
        },
        ExprV::Block(b) => block_type(scope, *b),
    }
}

/// The type of a block: that of its result, with its bindings in scope.
#[verifier::opaque]
pub open spec fn block_type(scope: Seq<(Seq<char>, Ty)>, b: BlockV) -> Option<Ty>
    decreases b,
{
    match typed_scope_after_stmts(scope, b.stmts) {
        Some(s1) => expr_type(s1, b.result),
        None => None,
    }
}

/// The typed names in scope after the statements.
#[verifier::opaque]
pub open spec fn typed_scope_after_stmts(scope: Seq<(Seq<char>, Ty)>, ss: Seq<StmtV>) -> Option<
    Seq<(Seq<char>, Ty)>,
>
    decreases ss,
{
    if ss.len() == 0 {
        Some(scope)
    } else {
        proof {
            broadcast use vstd::seq::axiom_seq_index_decreases;
            broadcast use vstd::seq::axiom_seq_subrange_decreases;

            assert(decreases_to!(ss => ss[0]));
            assert(decreases_to!(ss => ss.subrange(1, ss.len() as int)));
        }
        match typed_scope_after_stmt(scope, ss[0]) {
            Some(s1) => typed_scope_after_stmts(s1, ss.subrange(1, ss.len() as int)),
            None => None,
        }
    }
}

/// `let name = value;` binds `name` with the type of the value.
#[verifier::opaque]
pub open spec fn typed_scope_after_stmt(scope: Seq<(Seq<char>, Ty)>, s: StmtV) -> Option<
    Seq<(Seq<char>, Ty)>,
>
    decreases s,
{
    match s {
        StmtV::Let { name, value } => match expr_type(scope, value) {
            Some(t) => Some(scope.push((name, t))),
            None => None,
        },
    }
}

/// The type of a whole program.
pub open spec fn program_type(p: BlockV) -> Option<Ty> {
    block_type(Seq::empty(), p)
}

proof fn lemma_type_lookup(syms: Seq<BindingV>, name: Seq<char>)
    ensures
        type_lookup(scope_types(syms), name) == match lookup(syms, name) {
            Some(b) => Some(b.ty),
            None => None::<Ty>,
        },
    decreases syms.len(),
{
    if syms.len() > 0 {
        assert(scope_types(syms).drop_last() =~= scope_types(syms.drop_last()));
        assert(scope_types(syms).last() == (syms.last().name, syms.last().ty));
        lemma_type_lookup(syms.drop_last(), name);
    }
}

proof fn lemma_scope_types_push(syms: Seq<BindingV>, b: BindingV)
    ensures
        scope_types(syms.push(b)) == scope_types(syms).push((b.name, b.ty)),
{
    assert(scope_types(syms.push(b)) =~= scope_types(syms).push((b.name, b.ty)));
}

/// Code generation of an expression succeeds with the expression's type,
/// fails on an expression without one, and otherwise can only run out of
/// fresh names.
pub proof fn lemma_expr_type_checked(st: CgState, e: ExprV)
    ensures
        match translate_expr(st, e) {
            Ok(em) => expr_type(scope_types(st.symbols), e) == Some(em.ty),
            Err(CgError::TooManyNames) => true,
            Err(_) => expr_type(scope_types(st.symbols), e) is None,
        },
    decreases e, 0int,
{
    reveal(translate_expr);
    reveal(translate_block);
    reveal(translate_stmts);
    reveal(translate_stmt);
    reveal(expr_type);
    reveal(block_type);
    reveal(typed_scope_after_stmts);
    reveal(typed_scope_after_stmt);
    match e {
        ExprV::Ident(name) => {
            lemma_type_lookup(st.symbols, name);
        },
        ExprV::Neg(inner) => {
            lemma_expr_type_checked(st, *inner);
        },
        ExprV::Bin { left, right, .. } => {
            lemma_expr_type_checked(st, *left);
            lemma_expr_keeps_scope(st, *left);
            if let Ok(a) = translate_expr(st, *left) {
                lemma_expr_type_checked(a.st, *right);
            }
        },
        ExprV::Cmp { left, right, .. } => {
            lemma_expr_type_checked(st, *left);
            lemma_expr_keeps_scope(st, *left);
            if let Ok(a) = translate_expr(st, *left) {
                lemma_expr_type_checked(a.st, *right);
            }
        },
        ExprV::If { cond, then_branch, else_branch } => {
            lemma_expr_type_checked(st, *cond);
            lemma_expr_keeps_scope(st, *cond);
            if let Ok(c) = translate_expr(st, *cond) {
                if let Ok((tl, s1)) = fresh_label(c.st, "if.then."@) {
                    if let Ok((el, s2)) = fresh_label(s1, "if.else."@) {
                        if let Ok((ml, s3)) = fresh_label(s2, "if.merge."@) {
                            lemma_block_type_checked(with_block(s3, tl), *then_branch);
                            if let Ok(t) = translate_block(with_block(s3, tl), *then_branch) {
                                lemma_block_type_checked(with_block(t.st, el), *else_branch);
                            }
                        }
                    }
                }
            }
        },
        ExprV::Block(b) => {
            lemma_block_type_checked(st, *b);
            assert(translate_expr(st, e) == translate_block(st, *b));
        },
        _ => {},
    }
}

/// Code generation of a block succeeds with the block's type, fails on a
/// block without one, and otherwise can only run out of fresh names.
pub proof fn lemma_block_type_checked(st: CgState, b: BlockV)
    ensures
        match translate_block(st, b) {
            Ok(em) => block_type(scope_types(st.symbols), b) == Some(em.ty),
            Err(CgError::TooManyNames) => true,
            Err(_) => block_type(scope_types(st.symbols), b) is None,
        },
    decreases b, 0int,
{
    reveal(translate_expr);
    reveal(translate_block);
    reveal(translate_stmts);
    reveal(translate_stmt);
    reveal(expr_type);
    reveal(block_type);
    reveal(typed_scope_after_stmts);
    reveal(typed_scope_after_stmt);
    lemma_stmts_type_checked(st, b.stmts);
    if let Ok((is1, s1)) = translate_stmts(st, b.stmts) {
        lemma_expr_type_checked(s1, b.result);
    }
}

/// Code generation of statements succeeds with the typed scope they leave,
/// fails on statements that use an unbound name or an ill-typed `if`, and
/// otherwise can only run out of fresh names.
pub proof fn lemma_stmts_type_checked(st: CgState, ss: Seq<StmtV>)
    ensures
        match translate_stmts(st, ss) {
            Ok((_, st2)) => typed_scope_after_stmts(scope_types(st.symbols), ss) == Some(
                scope_types(st2.symbols),
            ),
            Err(CgError::TooManyNames) => true,
            Err(_) => typed_scope_after_stmts(scope_types(st.symbols), ss) is None,
        },
    decreases ss, 0int,
{
    reveal(translate_expr);
    reveal(translate_block);
    reveal(translate_stmts);
    reveal(translate_stmt);
    reveal(expr_type);
    reveal(block_type);
    reveal(typed_scope_after_stmts);
    reveal(typed_scope_after_stmt);
    if ss.len() > 0 {
        broadcast use vstd::seq::axiom_seq_index_decreases;
        broadcast use vstd::seq::axiom_seq_subrange_decreases;

        assert(decreases_to!(ss => ss[0]));
        assert(decreases_to!(ss => ss.subrange(1, ss.len() as int)));
        lemma_stmt_type_checked(st, ss[0]);
        if let Ok((is1, s1)) = translate_stmt(st, ss[0]) {
            lemma_stmts_type_checked(s1, ss.subrange(1, ss.len() as int));
        }
    }
}

/// Code generation of a `let` succeeds with the name bound at its value's
/// type, fails where the value has no type, and otherwise can only run out
/// of fresh names.
#[verifier::spinoff_prover]
pub proof fn lemma_stmt_type_checked(st: CgState, s: StmtV)
    ensures
        match translate_stmt(st, s) {
            Ok((_, st2)) => typed_scope_after_stmt(scope_types(st.symbols), s) == Some(
                scope_types(st2.symbols),
            ),
            Err(CgError::TooManyNames) => true,
            Err(_) => typed_scope_after_stmt(scope_types(st.symbols), s) is None,
        },
    decreases s, 0int,
{
    reveal(translate_stmt);
    reveal(typed_scope_after_stmt);
    match s {
        StmtV::Let { name, value } => {
            lemma_expr_type_checked(st, value);
            lemma_expr_keeps_scope(st, value);
            if let Ok(a) = translate_expr(st, value) {
                if let Ok((slot, s1)) = fresh_value(a.st, name + "_slot_"@) {
                    let b = BindingV { name, slot, ty: a.ty };
                    assert(translate_stmt(st, s) matches Ok((_, st2)) && st2.symbols
                        == s1.symbols.push(b));
                    lemma_scope_types_push(s1.symbols, b);
                }
            }
        },
    }
}

/// Code generation type-checks a program and checks nothing else: every
/// name is bound where it is used, arithmetic and comparisons take
/// integers, every `if` condition is a boolean, and the two branches of
/// every `if` have the same type. A program that breaks any of these does
/// not compile; every other program compiles unless it needs more fresh
/// names than the counter provides.
pub proof fn lemma_codegen_type_checks(p: BlockV)
    ensures
        program_type(p) is None ==> spec_codegen(p) is Err,
        program_type(p) is Some ==> spec_codegen(p) is Ok || spec_codegen(p) == Err::<
            Seq<char>,
            CgError,
        >(CgError::TooManyNames),
{
    reveal(expr_type);
    reveal(block_type);
    reveal(typed_scope_after_stmts);
    reveal(typed_scope_after_stmt);
    lemma_stmts_type_checked(initial_state(), p.stmts);
    assert(scope_types(initial_state().symbols) =~= Seq::<(Seq<char>, Ty)>::empty());
    if let Ok((is1, s1)) = translate_stmts(initial_state(), p.stmts) {
        lemma_expr_type_checked(s1, p.result);
    }
}

/// The label of the last block label among `is`; `entry` when there is none.
pub open spec fn last_label(is: Seq<Inst>, entry: Seq<char>) -> Seq<char>
    decreases is.len(),
{
    if is.len() == 0 {
        entry
    } else {
        match is.last() {
            Inst::Label { label } => label,
            _ => last_label(is.drop_last(), entry),
        }
    }
}

proof fn lemma_last_label_concat(a: Seq<Inst>, b: Seq<Inst>, entry: Seq<char>)
    ensures
        last_label(a + b, entry) == last_label(b, last_label(a, entry)),
    decreases b.len(),
{
    if b.len() == 0 {
        assert(a + b =~= a);
    } else {
        assert((a + b).drop_last() =~= a + b.drop_last());
        assert((a + b).last() == b.last());
        lemma_last_label_concat(a, b.drop_last(), entry);
    }
}

proof fn lemma_last_label_plain(a: Seq<Inst>, i: Inst, entry: Seq<char>)
    requires
        !(i is Label),
    ensures
        last_label(a.push(i), entry) == last_label(a, entry),
{
    assert(a.push(i).drop_last() =~= a);
}

/// After the code of an expression, the block being filled is the one its
/// last label opened, or the block it started in when it has no label: the
/// block an enclosing `phi` names as the way its value arrives.
pub proof fn lemma_expr_ends_in_last_label(st: CgState, e: ExprV)
    ensures
        translate_expr(st, e) matches Ok(em) ==> em.st.block == last_label(em.insts, st.block),
    decreases e, 0int,
{
    reveal(translate_expr);
    reveal(translate_block);
    reveal(translate_stmts);
    reveal(translate_stmt);
    match e {
        ExprV::Ident(name) => {
            if let Ok(em) = translate_expr(st, e) {
                lemma_last_label_plain(Seq::empty(), em.insts[0], st.block);
                assert(em.insts == Seq::<Inst>::empty().push(em.insts[0]));
            }
        },
        ExprV::Neg(inner) => {
            lemma_expr_ends_in_last_label(st, *inner);
            if let Ok(a) = translate_expr(st, *inner) {
                if let Ok((dest, st1)) = fresh_value(a.st, "v"@) {
                    lemma_last_label_plain(a.insts, Inst::Neg { dest, val: a.value }, st.block);
                }
            }
        },
        ExprV::Bin { op, left, right } => {
            lemma_expr_ends_in_last_label(st, *left);
            if let Ok(a) = translate_expr(st, *left) {
                lemma_expr_ends_in_last_label(a.st, *right);
                if let Ok(b) = translate_expr(a.st, *right) {
                    lemma_last_label_concat(a.insts, b.insts, st.block);
                    if let Ok((dest, st1)) = fresh_value(b.st, "v"@) {
                        lemma_last_label_plain(
                            a.insts + b.insts,
                            Inst::Arith { dest, op, l: a.value, r: b.value },
                            st.block,
                        );
                    }
                }
            }
        },
        ExprV::Cmp { op, left, right } => {
            lemma_expr_ends_in_last_label(st, *left);
            if let Ok(a) = translate_expr(st, *left) {
                lemma_expr_ends_in_last_label(a.st, *right);
                if let Ok(b) = translate_expr(a.st, *right) {
                    lemma_last_label_concat(a.insts, b.insts, st.block);
                    if let Ok((dest, st1)) = fresh_value(b.st, "v"@) {
                        lemma_last_label_plain(
                            a.insts + b.insts,
                            Inst::Icmp { dest, op, l: a.value, r: b.value },
                            st.block,
                        );
                    }
                }
            }
        },
        ExprV::If { cond, then_branch, else_branch } => {
            if let Ok(em) = translate_expr(st, e) {
                let c = translate_expr(st, *cond)->Ok_0;
                let (tl, s1) = fresh_label(c.st, "if.then."@)->Ok_0;
                let (el, s2) = fresh_label(s1, "if.else."@)->Ok_0;
                let (ml, s3) = fresh_label(s2, "if.merge."@)->Ok_0;
                let t = translate_block(with_block(s3, tl), *then_branch)->Ok_0;
                let f = translate_block(with_block(t.st, el), *else_branch)->Ok_0;
                let (dest, s4) = fresh_value(with_block(f.st, ml), "v"@)->Ok_0;
                let p3 = seq![
                    Inst::Br { label: ml },
                    Inst::Label { label: ml },
                    Inst::Phi {
                        dest,
                        ty: t.ty,
                        then_val: t.value,
                        then_block: t.st.block,
                        else_val: f.value,
                        else_block: f.st.block,
                    },
                ];
                let front = c.insts + seq![
                    Inst::BrCond { cond: c.value, then_label: tl, else_label: el },
                    Inst::Label { label: tl },
                ] + t.insts + seq![Inst::Br { label: ml }, Inst::Label { label: el }] + f.insts;
                assert(em.insts == front + p3);
                lemma_last_label_concat(front, p3, st.block);
                let d = last_label(front, st.block);
                let p2 = seq![Inst::Br { label: ml }, Inst::Label { label: ml }];
                assert(p3 == p2.push(p3[2]));
                lemma_last_label_plain(p2, p3[2], d);
                assert(p2.last() == Inst::Label { label: ml });
                assert(last_label(p2, d) == ml);
            }
        },
        ExprV::Block(b) => {
            lemma_block_ends_in_last_label(st, *b);
            assert(translate_expr(st, e) == translate_block(st, *b));
        },
        _ => {},
    }
}

/// After the code of a block, the block being filled is the one its last
/// label opened, or the block it started in.
pub proof fn lemma_block_ends_in_last_label(st: CgState, b: BlockV)
    ensures
        translate_block(st, b) matches Ok(em) ==> em.st.block == last_label(em.insts, st.block),
    decreases b, 0int,
{
    reveal(translate_expr);
    reveal(translate_block);
    reveal(translate_stmts);
    reveal(translate_stmt);
    lemma_stmts_end_in_last_label(st, b.stmts);
    if let Ok((is1, s1)) = translate_stmts(st, b.stmts) {
        lemma_expr_ends_in_last_label(s1, b.result);
        if let Ok(r) = translate_expr(s1, b.result) {
            lemma_last_label_concat(is1, r.insts, st.block);
        }
    }
}

/// After the code of statements, the block being filled is the one their
/// last label opened, or the block they started in.
pub proof fn lemma_stmts_end_in_last_label(st: CgState, ss: Seq<StmtV>)
    ensures
        translate_stmts(st, ss) matches Ok((is, st2)) ==> st2.block == last_label(is, st.block),
    decreases ss, 0int,
{
    reveal(translate_expr);
    reveal(translate_block);
    reveal(translate_stmts);
    reveal(translate_stmt);
    if ss.len() > 0 {
        broadcast use vstd::seq::axiom_seq_index_decreases;
        broadcast use vstd::seq::axiom_seq_subrange_decreases;

        assert(decreases_to!(ss => ss[0]));
        assert(decreases_to!(ss => ss.subrange(1, ss.len() as int)));
        lemma_stmt_ends_in_last_label(st, ss[0]);
        if let Ok((is1, s1)) = translate_stmt(st, ss[0]) {
            lemma_stmts_end_in_last_label(s1, ss.subrange(1, ss.len() as int));
            if let Ok((is2, s2)) = translate_stmts(s1, ss.subrange(1, ss.len() as int)) {
                lemma_last_label_concat(is1, is2, st.block);
            }
        }
    }
}

/// After the code of a `let`, the block being filled is the one its last
/// label opened, or the block it started in.
#[verifier::spinoff_prover]
pub proof fn lemma_stmt_ends_in_last_label(st: CgState, s: StmtV)
    ensures
        translate_stmt(st, s) matches Ok((is, st2)) ==> st2.block == last_label(is, st.block),
    decreases s, 0int,
{
    reveal(translate_stmt);
    match s {
        StmtV::Let { name, value } => {
            lemma_expr_ends_in_last_label(st, value);
            if let Ok(a) = translate_expr(st, value) {
                if let Ok((slot, s1)) = fresh_value(a.st, name + "_slot_"@) {
                    let al = Inst::Alloca { slot, ty: a.ty };
                    let sto = Inst::Store { ty: a.ty, val: a.value, slot };
                    lemma_last_label_plain(a.insts, al, st.block);
                    lemma_last_label_plain(a.insts.push(al), sto, st.block);
                    assert(a.insts + seq![al, sto] == a.insts.push(al).push(sto));
                    let st2 = with_symbols(s1, s1.symbols.push(BindingV { name, slot, ty: a.ty }));
                    assert(translate_stmt(st, s) == Ok::<(Seq<Inst>, CgState), CgError>(
                        (a.insts + seq![al, sto], st2),
                    ));
                }
            }
        },
    }
}

/// Registers and labels are drawn from one counter: a register drawn with
/// `n` and then a label are numbered `n` and `n + 1`, and a label drawn
/// with `n` and then a register likewise, so no number is handed out twice.
pub proof fn lemma_names_share_counter(st: CgState, hint: Seq<char>, base: Seq<char>)
    ensures
        fresh_value(st, hint) matches Ok((v, st1)) ==> {
            &&& v == seq!['%'] + hint + nat_text(st.next_id)
            &&& st1.next_id == st.next_id + 1
            &&& fresh_label(st1, base) matches Ok((l, st2)) ==> l == base + nat_text(
                st.next_id + 1,
            ) && st2.next_id == st.next_id + 2
        },
        fresh_label(st, base) matches Ok((l, st1)) ==> {
            &&& l == base + nat_text(st.next_id)
            &&& st1.next_id == st.next_id + 1
            &&& fresh_value(st1, hint) matches Ok((v, st2)) ==> v == seq!['%'] + hint + nat_text(
                st.next_id + 1,
            ) && st2.next_id == st.next_id + 2
        },
{
}

} // verus!
