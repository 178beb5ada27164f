//! LLVM IR backend: integers are `i64`, booleans `i1`; `let` bindings live in
//! stack slots; `if` becomes a diamond of basic blocks joined by a `phi`.
use vstd::prelude::*;

use crate::ast::{BinOp, Block, CmpOp, Expr, Program, Stmt, StmtV};
use crate::ir::{
    BindingV, CgError, CgState, Emitted, Inst, Ty, fresh_label, fresh_value, initial_state,
    lemma_render_concat, lemma_render_empty, lemma_render_if, lemma_render_pair,
    lemma_render_push, lemma_render_single, line_alloca, line_bin, line_br, line_br_cond,
    line_compare, line_label, line_load, line_neg, line_phi, line_ret, line_store, line_zext,
    lookup, mnemonic, predicate, render, spec_codegen, translate_block, translate_expr,
    translate_stmt, translate_stmts, ty_name,
};
use crate::text::{i64_text, u64_text};

verus! {

/// Why a program cannot be translated.
#[derive(Debug, Clone, PartialEq, Eq)]
pub enum CodegenError {
    /// An identifier is read where no binding of that name is in scope.
    UndefinedIdentifier(String),
    /// The two branches of an `if` produce values of different types.
    BranchTypeMismatch,
    /// An operand of `-`, `+ - * /` or a comparison is not an integer, or the
    /// condition of an `if` is not a boolean.
    IllTyped,
    /// The program needs more fresh names than a `u32` counter provides.
    TooManyNames,
}

impl View for CodegenError {
    type V = CgError;

    open spec fn view(&self) -> CgError {
        match self {
            CodegenError::UndefinedIdentifier(s) => CgError::Undefined(s@),
            CodegenError::BranchTypeMismatch => CgError::BranchTypes,
            CodegenError::IllTyped => CgError::IllTyped,
            CodegenError::TooManyNames => CgError::TooManyNames,
        }
    }
}

pub open spec fn with_prefix(
    pre: Seq<Inst>,
    r: Result<(Seq<Inst>, CgState), CgError>,
) -> Result<(Seq<Inst>, CgState), CgError> {
    match r {
        Ok((t, st)) => Ok((pre + t, st)),
        Err(x) => Err(x),
    }
}

proof fn lemma_with_prefix_assoc(a: Seq<Inst>, b: Seq<Inst>, r: Result<(Seq<Inst>, CgState), CgError>)
    ensures
        with_prefix(a, with_prefix(b, r)) == with_prefix(a + b, r),
{
    if let Ok((t, st)) = r {
        assert(a + (b + t) =~= (a + b) + t);
    }
}

/// A binding in the symbol table: a source name, its stack slot, its type.
struct Binding {
    name: String,
    slot: String,
    ty: Ty,
}

impl View for Binding {
    type V = BindingV;

    closed spec fn view(&self) -> BindingV {
        BindingV { name: self.name@, slot: self.slot@, ty: self.ty }
    }
}

spec fn syms_view(s: Seq<Binding>) -> Seq<BindingV> {
    s.map_values(|b: Binding| b@)
}

proof fn lemma_syms_view_push(s: Seq<Binding>, b: Binding)
    ensures
        syms_view(s.push(b)) == syms_view(s).push(b@),
{
    assert(syms_view(s.push(b)) =~= syms_view(s).push(b@));
}

struct Codegen {
    out: String,
    next_id: u32,
    current_block: String,
    symbols: Vec<Binding>,
}

/// The state after a translation step matches the model's outcome.
spec fn emitted(
    old_cg: Codegen,
    new_cg: Codegen,
    spec: Result<Emitted, CgError>,
    r: Result<(String, Ty), CodegenError>,
) -> bool {
    match spec {
        Ok(em) => r matches Ok((v, ty)) && v@ == em.value && ty == em.ty && new_cg.model() == em.st
            && new_cg.out@ == old_cg.out@ + render(em.insts),
        Err(e) => r matches Err(x) && x@ == e,
    }
}

fn ty_str(t: Ty) -> (s: &'static str)
    ensures
        s@ == ty_name(t),
{
    match t {
        Ty::I64 => "i64",
        Ty::I1 => "i1",
    }
}

fn mnemonic_str(op: BinOp) -> (s: &'static str)
    ensures
        s@ == mnemonic(op),
{
    match op {
        BinOp::Add => "add",
        BinOp::Sub => "sub",
        BinOp::Mul => "mul",
        BinOp::Div => "sdiv",
    }
}

fn predicate_str(op: CmpOp) -> (s: &'static str)
    ensures
        s@ == predicate(op),
{
    match op {
        CmpOp::Lt => "slt",
        CmpOp::Gt => "sgt",
        CmpOp::Le => "sle",
        CmpOp::Ge => "sge",
        CmpOp::Eq => "eq",
        CmpOp::Ne => "ne",
    }
}

impl Codegen {
    spec fn model(&self) -> CgState {
        CgState {
            next_id: self.next_id as nat,
            block: self.current_block@,
            symbols: syms_view(self.symbols@),
        }
    }

    /// Everything but the output is as in `other`.
    spec fn same_state(&self, other: Codegen) -> bool {
        &&& self.next_id == other.next_id
        &&& self.current_block == other.current_block
        &&& self.symbols@ == other.symbols@
    }

    fn new() -> (cg: Self)
        ensures
            cg.model() == initial_state(),
            cg.out@ == Seq::<char>::empty(),
            cg.symbols@.len() == 0,
    {
        let cg = Self {
            out: String::new(),
            next_id: 0,
            current_block: String::from_str("entry"),
            symbols: Vec::new(),
        };
        assert(cg.model().symbols =~= Seq::<BindingV>::empty());
        cg
    }

    fn put(&mut self, s: &str)
        ensures
            final(self).out@ == old(self).out@ + s@,
            final(self).same_state(*old(self)),
    {
        self.out.append(s);
    }

    fn fresh(&mut self, hint: &str) -> (r: Result<String, CodegenError>)
        ensures
            final(self).out@ == old(self).out@,
            final(self).current_block == old(self).current_block,
            final(self).symbols@ == old(self).symbols@,
            match fresh_value(old(self).model(), hint@) {
                Ok((d, st)) => r matches Ok(x) && x@ == d && final(self).model() == st,
                Err(e) => r matches Err(x) && x@ == e,
            },
    {
        if self.next_id == u32::MAX {
            return Err(CodegenError::TooManyNames);
        }
        let id = self.next_id;
        self.next_id = self.next_id + 1;
        let mut s = String::from_str("%");
        proof {
            reveal_strlit("%");
        }
        s.append(hint);
        s.append(u64_text(id as u64).as_str());
        Ok(s)
    }

    fn fresh_label(&mut self, base: &str) -> (r: Result<String, CodegenError>)
        ensures
            final(self).out@ == old(self).out@,
            final(self).current_block == old(self).current_block,
            final(self).symbols@ == old(self).symbols@,
            match fresh_label(old(self).model(), base@) {
                Ok((d, st)) => r matches Ok(x) && x@ == d && final(self).model() == st,
                Err(e) => r matches Err(x) && x@ == e,
            },
    {
        if self.next_id == u32::MAX {
            return Err(CodegenError::TooManyNames);
        }
        let id = self.next_id;
        self.next_id = self.next_id + 1;
        let mut s = String::from_str(base);
        s.append(u64_text(id as u64).as_str());
        Ok(s)
    }

    /// The slot and type of the latest binding of `name`.
    fn lookup(&self, name: &String) -> (r: Option<(String, Ty)>)
        ensures
            match lookup(self.model().symbols, name@) {
                Some(b) => r matches Some((slot, ty)) && slot@ == b.slot && ty == b.ty,
                None => r is None,
            },
    {
        let ghost syms = self.model().symbols;
        let mut i = self.symbols.len();
        assert(syms.subrange(0, i as int) =~= syms);
        while i > 0
            invariant
                i <= self.symbols.len(),
                syms == self.model().symbols,
                lookup(syms, name@) == lookup(syms.subrange(0, i as int), name@),
            decreases i,
        {
            i = i - 1;
            assert(syms.subrange(0, i + 1).drop_last() =~= syms.subrange(0, i as int));
            if self.symbols[i].name == *name {
                return Some((self.symbols[i].slot.clone(), self.symbols[i].ty));
            }
        }
        None
    }

    fn line_load(&mut self, dest: &str, ty: Ty, slot: &str)
        ensures
            final(self).out@ == old(self).out@ + line_load(dest@, ty, slot@),
            final(self).same_state(*old(self)),
    {
        reveal(line_load);
        self.put("  ");
        self.put(dest);
        self.put(" = load ");
        self.put(ty_str(ty));
        self.put(", ptr ");
        self.put(slot);
        self.put("\n");
        assert(self.out@ =~= old(self).out@ + line_load(dest@, ty, slot@));
    }

    fn line_neg(&mut self, dest: &str, v: &str)
        ensures
            final(self).out@ == old(self).out@ + line_neg(dest@, v@),
            final(self).same_state(*old(self)),
    {
        reveal(line_neg);
        self.put("  ");
        self.put(dest);
        self.put(" = sub i64 0, ");
        self.put(v);
        self.put("\n");
        assert(self.out@ =~= old(self).out@ + line_neg(dest@, v@));
    }

    fn line_bin(&mut self, dest: &str, op: BinOp, l: &str, r: &str)
        ensures
            final(self).out@ == old(self).out@ + line_bin(dest@, op, l@, r@),
            final(self).same_state(*old(self)),
    {
        reveal(line_bin);
        self.put("  ");
        self.put(dest);
        self.put(" = ");
        self.put(mnemonic_str(op));
        self.put(" i64 ");
        self.put(l);
        self.put(", ");
        self.put(r);
        self.put("\n");
        assert(self.out@ =~= old(self).out@ + line_bin(dest@, op, l@, r@));
    }

    fn line_compare(&mut self, dest: &str, op: CmpOp, l: &str, r: &str)
        ensures
            final(self).out@ == old(self).out@ + line_compare(dest@, op, l@, r@),
            final(self).same_state(*old(self)),
    {
        reveal(line_compare);
        self.put("  ");
        self.put(dest);
        self.put(" = icmp ");
        self.put(predicate_str(op));
        self.put(" i64 ");
        self.put(l);
        self.put(", ");
        self.put(r);
        self.put("\n");
        assert(self.out@ =~= old(self).out@ + line_compare(dest@, op, l@, r@));
    }

    fn line_br_cond(&mut self, c: &str, t: &str, e: &str)
        ensures
            final(self).out@ == old(self).out@ + line_br_cond(c@, t@, e@),
            final(self).same_state(*old(self)),
    {
        reveal(line_br_cond);
        self.put("  br i1 ");
        self.put(c);
        self.put(", label %");
        self.put(t);
        self.put(", label %");
        self.put(e);
        self.put("\n");
        assert(self.out@ =~= old(self).out@ + line_br_cond(c@, t@, e@));
    }

    fn line_label(&mut self, l: &str)
        ensures
            final(self).out@ == old(self).out@ + line_label(l@),
            final(self).same_state(*old(self)),
    {
        reveal(line_label);
        self.put(l);
        self.put(":\n");
        assert(self.out@ =~= old(self).out@ + line_label(l@));
    }

    fn line_br(&mut self, l: &str)
        ensures
            final(self).out@ == old(self).out@ + line_br(l@),
            final(self).same_state(*old(self)),
    {
        reveal(line_br);
        self.put("  br label %");
        self.put(l);
        self.put("\n");
        assert(self.out@ =~= old(self).out@ + line_br(l@));
    }

    fn line_phi(&mut self, dest: &str, ty: Ty, tv: &str, tb: &str, ev: &str, eb: &str)
        ensures
            final(self).out@ == old(self).out@ + line_phi(dest@, ty, tv@, tb@, ev@, eb@),
            final(self).same_state(*old(self)),
    {
        reveal(line_phi);
        self.put("  ");
        self.put(dest);
        self.put(" = phi ");
        self.put(ty_str(ty));
        self.put(" [");
        self.put(tv);
        self.put(", %");
        self.put(tb);
        self.put("], [");
        self.put(ev);
        self.put(", %");
        self.put(eb);
        self.put("]\n");
        assert(self.out@ =~= old(self).out@ + line_phi(dest@, ty, tv@, tb@, ev@, eb@));
    }

    fn line_alloca(&mut self, slot: &str, ty: Ty)
        ensures
            final(self).out@ == old(self).out@ + line_alloca(slot@, ty),
            final(self).same_state(*old(self)),
    {
        reveal(line_alloca);
        self.put("  ");
        self.put(slot);
        self.put(" = alloca ");
        self.put(ty_str(ty));
        self.put("\n");
        assert(self.out@ =~= old(self).out@ + line_alloca(slot@, ty));
    }

    fn line_store(&mut self, ty: Ty, v: &str, slot: &str)
        ensures
            final(self).out@ == old(self).out@ + line_store(ty, v@, slot@),
            final(self).same_state(*old(self)),
    {
        reveal(line_store);
        self.put("  store ");
        self.put(ty_str(ty));
        self.put(" ");
        self.put(v);
        self.put(", ptr ");
        self.put(slot);
        self.put("\n");
        assert(self.out@ =~= old(self).out@ + line_store(ty, v@, slot@));
    }

    fn line_zext(&mut self, dest: &str, ty: Ty, v: &str)
        ensures
            final(self).out@ == old(self).out@ + line_zext(dest@, ty, v@),
            final(self).same_state(*old(self)),
    {
        reveal(line_zext);
        self.put("  ");
        self.put(dest);
        self.put(" = zext ");
        self.put(ty_str(ty));
        self.put(" ");
        self.put(v);
        self.put(" to i64\n");
        assert(self.out@ =~= old(self).out@ + line_zext(dest@, ty, v@));
    }

    fn line_ret(&mut self, v: &str)
        ensures
            final(self).out@ == old(self).out@ + line_ret(v@),
            final(self).same_state(*old(self)),
    {
        reveal(line_ret);
        self.put("  ret i64 ");
        self.put(v);
        self.put("\n");
        assert(self.out@ =~= old(self).out@ + line_ret(v@));
    }

    #[verifier::spinoff_prover]
    fn emit_stmt(&mut self, stmt: &Stmt) -> (r: Result<(), CodegenError>)
        ensures
            match translate_stmt(old(self).model(), stmt@) {
                Ok((insts, st)) => r is Ok && final(self).model() == st && final(self).out@
                    == old(self).out@ + render(insts),
                Err(e) => r matches Err(x) && x@ == e,
            },
            r is Ok ==> final(self).symbols@.len() == old(self).symbols@.len() + 1,
            r is Ok ==> final(self).symbols@.subrange(0, old(self).symbols@.len() as int)
                == old(self).symbols@,
        decreases stmt, 2int,
    {
        reveal(translate_stmt);
        match stmt {
            Stmt::Let { name, value } => {
                let ghost out0 = self.out@;
                let ghost st0 = self.model();
                assert(stmt@ == StmtV::Let { name: name@, value: value@ });
                let (v, ty) = match self.emit_expr(value) {
                    Ok(x) => x,
                    Err(e) => return Err(e),
                };
                let ghost out1 = self.out@;
                let mut hint = name.clone();
                hint.append("_slot_");
                let slot = match self.fresh(hint.as_str()) {
                    Ok(s) => s,
                    Err(e) => return Err(e),
                };
                self.line_alloca(slot.as_str(), ty);
                self.line_store(ty, v.as_str(), slot.as_str());
                let ghost old_syms = self.symbols@;
                let ghost out2 = self.out@;
                let b = Binding { name: name.clone(), slot, ty };
                self.symbols.push(b);
                proof {
                    lemma_syms_view_push(old_syms, b);
                    assert(self.symbols@.subrange(0, old_syms.len() as int) =~= old_syms);
                    if let Ok(a) = translate_expr(st0, value@) {
                        let al = Inst::Alloca { slot: b.slot@, ty };
                        let sto = Inst::Store { ty, val: v@, slot: b.slot@ };
                        lemma_render_pair(al, sto);
                        lemma_render_concat(a.insts, seq![al, sto]);
                        assert(self.out@ =~= out0 + (render(a.insts) + (line_alloca(b.slot@, ty)
                            + line_store(ty, v@, b.slot@))));
                    }
                }
                Ok(())
            },
        }
    }

    /// Translates statements in order; their bindings stay in scope.
    #[verifier::spinoff_prover]
    fn emit_stmts(&mut self, stmts: &Vec<Stmt>) -> (r: Result<(), CodegenError>)
        ensures
            match translate_stmts(old(self).model(), crate::ast::stmts_view(stmts@)) {
                Ok((insts, st)) => r is Ok && final(self).model() == st && final(self).out@
                    == old(self).out@ + render(insts),
                Err(e) => r matches Err(x) && x@ == e,
            },
            r is Ok ==> old(self).symbols@.len() <= final(self).symbols@.len(),
            r is Ok ==> final(self).symbols@.subrange(0, old(self).symbols@.len() as int)
                == old(self).symbols@,
        decreases stmts, 2int,
    {
        reveal(translate_stmts);
        let ghost st0 = self.model();
        let ghost out0 = self.out@;
        let ghost syms0 = self.symbols@;
        let ghost ss = crate::ast::stmts_view(stmts@);
        let ghost mut acc: Seq<Inst> = seq![];
        proof {
            crate::ast::lemma_stmts_view_index(stmts@);
            assert(ss.subrange(0, ss.len() as int) =~= ss);
            if let Ok((t, st)) = translate_stmts(st0, ss) {
                assert(acc + t =~= t);
            }
            lemma_render_empty();
            assert(self.out@ =~= out0 + render(acc));
        }
        let saved = self.symbols.len();
        let n = stmts.len();
        let mut i: usize = 0;
        while i < n
            invariant
                n == stmts.len(),
                st0 == old(self).model(),
                ss == crate::ast::stmts_view(stmts@),
                ss.len() == n,
                forall|k: int| 0 <= k < n ==> #[trigger] ss[k] == stmts@[k]@,
                i <= n,
                saved == syms0.len(),
                saved <= self.symbols@.len(),
                self.symbols@.subrange(0, saved as int) == syms0,
                self.out@ == out0 + render(acc),
                translate_stmts(st0, ss) == with_prefix(
                    acc,
                    translate_stmts(self.model(), ss.subrange(i as int, n as int)),
                ),
            decreases n - i,
        {
            let ghost cur = self.model();
            let ghost out_i = self.out@;
            let ghost syms_i = self.symbols@;
            let ghost sub = ss.subrange(i as int, n as int);
            let ghost sub2 = ss.subrange(i + 1, n as int);
            proof {
                broadcast use vstd::std_specs::vec::axiom_vec_index_decreases;

                reveal(translate_stmts);
                assert(decreases_to!(stmts => stmts[i as int]));
                assert(sub[0] == ss[i as int]);
                assert(sub.subrange(1, sub.len() as int) =~= sub2);
                assert(translate_stmts(cur, sub) == match translate_stmt(cur, ss[i as int]) {
                    Ok((t1, s1)) => with_prefix(t1, translate_stmts(s1, sub2)),
                    Err(x) => Err(x),
                }) by {
                    if let Ok((t1, s1)) = translate_stmt(cur, ss[i as int]) {
                        if let Ok((t2, s2)) = translate_stmts(s1, sub2) {
                        }
                    }
                }
            }
            match self.emit_stmt(&stmts[i]) {
                Ok(()) => {},
                Err(e) => {
                    proof {
                        assert(translate_stmts(st0, ss) == Err::<(Seq<Inst>, CgState), _>(e@));
                    }
                    return Err(e);
                },
            }
            proof {
                assert(self.symbols@.subrange(0, saved as int) =~= syms0) by {
                    assert(self.symbols@.subrange(0, saved as int) =~= self.symbols@.subrange(
                        0,
                        syms_i.len() as int,
                    ).subrange(0, saved as int));
                }
                if let Ok((t1, s1)) = translate_stmt(cur, ss[i as int]) {
                    lemma_with_prefix_assoc(acc, t1, translate_stmts(s1, sub2));
                    lemma_render_concat(acc, t1);
                    assert(self.out@ =~= out0 + render(acc + t1));
                    acc = acc + t1;
                }
            }
            i = i + 1;
        }
        proof {
            assert(ss.subrange(n as int, n as int) =~= Seq::<StmtV>::empty());
            assert(acc + Seq::<Inst>::empty() =~= acc);
            assert(translate_stmts(st0, ss) == Ok::<_, CgError>((acc, self.model())));
        }
        Ok(())
    }

    #[verifier::spinoff_prover]
    fn emit_block(&mut self, block: &Block) -> (r: Result<(String, Ty), CodegenError>)
        ensures
            emitted(*old(self), *final(self), translate_block(old(self).model(), block@), r),
            r is Ok ==> final(self).symbols@ == old(self).symbols@,
        decreases block, 2int,
    {
        reveal(translate_block);
        let ghost st0 = self.model();
        let ghost out0 = self.out@;
        let ghost syms0 = self.symbols@;
        assert(block@.stmts == crate::ast::stmts_view(block.stmts@));
        assert(block@.result == block.result@);
        let saved = self.symbols.len();
        match self.emit_stmts(&block.stmts) {
            Ok(()) => {},
            Err(e) => return Err(e),
        }
        let ghost out_s = self.out@;
        let ghost st_s = self.model();
        let (v, ty) = match self.emit_expr(&block.result) {
            Ok(x) => x,
            Err(e) => return Err(e),
        };
        self.symbols.truncate(saved);
        proof {
            assert(self.symbols@ =~= syms0);
            if let Ok((acc, s1)) = translate_stmts(st0, block@.stmts) {
                if let Ok(r) = translate_expr(st_s, block.result@) {
                    lemma_render_concat(acc, r.insts);
                    assert(self.out@ =~= out0 + render(acc + r.insts));
                }
            }
        }
        Ok((v, ty))
    }

    #[verifier::spinoff_prover]
    fn emit_expr(&mut self, expr: &Expr) -> (r: Result<(String, Ty), CodegenError>)
        ensures
            emitted(*old(self), *final(self), translate_expr(old(self).model(), expr@), r),
            r is Ok ==> final(self).symbols@ == old(self).symbols@,
        decreases expr, 2int,
    {
        reveal(translate_expr);
        let ghost st0 = self.model();
        let ghost out0 = self.out@;
        match expr {
            Expr::Num(n) => {
                proof {
                    lemma_render_empty();
                    assert(self.out@ =~= out0 + Seq::<char>::empty());
                }
                Ok((i64_text(*n), Ty::I64))
            },
            Expr::Bool(b) => {
                proof {
                    reveal_strlit("true");
                    reveal_strlit("false");
                }
                let s = if *b {
                    String::from_str("true")
                } else {
                    String::from_str("false")
                };
                proof {
                    lemma_render_empty();
                    assert(self.out@ =~= out0 + Seq::<char>::empty());
                }
                Ok((s, Ty::I1))
            },
            Expr::Ident(name) => {
                let (slot, ty) = match self.lookup(name) {
                    Some(x) => x,
                    None => return Err(CodegenError::UndefinedIdentifier(name.clone())),
                };
                let dest = match self.fresh("v") {
                    Ok(d) => d,
                    Err(e) => return Err(e),
                };
                self.line_load(dest.as_str(), ty, slot.as_str());
                proof {
                    lemma_render_single(Inst::Load { dest: dest@, ty, slot: slot@ });
                }
                Ok((dest, ty))
            },
            Expr::Neg(inner) => {
                let (v, vt) = match self.emit_expr(inner) {
                    Ok(x) => x,
                    Err(e) => return Err(e),
                };
                if vt != Ty::I64 {
                    return Err(CodegenError::IllTyped);
                }
                let ghost out1 = self.out@;
                let dest = match self.fresh("v") {
                    Ok(d) => d,
                    Err(e) => return Err(e),
                };
                self.line_neg(dest.as_str(), v.as_str());
                proof {
                    if let Ok(a) = translate_expr(st0, inner@) {
                        lemma_render_push(a.insts, Inst::Neg { dest: dest@, val: v@ });
                        assert(self.out@ =~= out0 + (render(a.insts) + line_neg(dest@, v@)));
                    }
                }
                Ok((dest, Ty::I64))
            },
            Expr::Bin { op, left, right } => {
                let (l, lt) = match self.emit_expr(left) {
                    Ok(x) => x,
                    Err(e) => return Err(e),
                };
                let ghost out1 = self.out@;
                let (r, rt) = match self.emit_expr(right) {
                    Ok(x) => x,
                    Err(e) => return Err(e),
                };
                if lt != Ty::I64 || rt != Ty::I64 {
                    return Err(CodegenError::IllTyped);
                }
                let ghost out2 = self.out@;
                let dest = match self.fresh("v") {
                    Ok(d) => d,
                    Err(e) => return Err(e),
                };
                self.line_bin(dest.as_str(), *op, l.as_str(), r.as_str());
                proof {
                    if let Ok(a) = translate_expr(st0, left@) {
                        if let Ok(b) = translate_expr(a.st, right@) {
                            lemma_render_concat(a.insts, b.insts);
                            lemma_render_push(a.insts + b.insts, Inst::Arith { dest: dest@, op: *op, l: l@, r: r@ });
                            assert(self.out@ =~= out0 + (render(a.insts) + render(b.insts) + line_bin(dest@, *op, l@, r@)));
                        }
                    }
                }
                Ok((dest, Ty::I64))
            },
            Expr::Cmp { op, left, right } => {
                let (l, lt) = match self.emit_expr(left) {
                    Ok(x) => x,
                    Err(e) => return Err(e),
                };
                let ghost out1 = self.out@;
                let (r, rt) = match self.emit_expr(right) {
                    Ok(x) => x,
                    Err(e) => return Err(e),
                };
                if lt != Ty::I64 || rt != Ty::I64 {
                    return Err(CodegenError::IllTyped);
                }
                let ghost out2 = self.out@;
                let dest = match self.fresh("v") {
                    Ok(d) => d,
                    Err(e) => return Err(e),
                };
                self.line_compare(dest.as_str(), *op, l.as_str(), r.as_str());
                proof {
                    if let Ok(a) = translate_expr(st0, left@) {
                        if let Ok(b) = translate_expr(a.st, right@) {
                            lemma_render_concat(a.insts, b.insts);
                            lemma_render_push(a.insts + b.insts, Inst::Icmp { dest: dest@, op: *op, l: l@, r: r@ });
                            assert(self.out@ =~= out0 + (render(a.insts) + render(b.insts) + line_compare(dest@, *op, l@, r@)));
                        }
                    }
                }
                Ok((dest, Ty::I1))
            },
            Expr::If { .. } => self.emit_if(expr),
            Expr::Block(b) => self.emit_block(b),
        }
    }

    #[verifier::spinoff_prover]
    fn emit_if(&mut self, expr: &Expr) -> (r: Result<(String, Ty), CodegenError>)
        requires
            expr is If,
        ensures
            emitted(*old(self), *final(self), translate_expr(old(self).model(), expr@), r),
            r is Ok ==> final(self).symbols@ == old(self).symbols@,
        decreases expr, 1int,
    {
        reveal(translate_expr);
        let ghost st0 = self.model();
        let ghost out0 = self.out@;
        match expr {
            Expr::If { cond, then_branch, else_branch } => {
                let (cv, ct) = match self.emit_expr(cond) {
                    Ok(x) => x,
                    Err(e) => return Err(e),
                };
                if ct != Ty::I1 {
                    return Err(CodegenError::IllTyped);
                }
                let ghost out1 = self.out@;
                let then_label = match self.fresh_label("if.then.") {
                    Ok(l) => l,
                    Err(e) => return Err(e),
                };
                let else_label = match self.fresh_label("if.else.") {
                    Ok(l) => l,
                    Err(e) => return Err(e),
                };
                let merge_label = match self.fresh_label("if.merge.") {
                    Ok(l) => l,
                    Err(e) => return Err(e),
                };
                self.line_br_cond(cv.as_str(), then_label.as_str(), else_label.as_str());
                self.line_label(then_label.as_str());
                self.current_block = then_label.clone();
                let ghost st_then = self.model();
                let (tv, t_ty) = match self.emit_block(then_branch) {
                    Ok(x) => x,
                    Err(e) => return Err(e),
                };
                let ghost out3 = self.out@;
                let then_exit = self.current_block.clone();
                self.line_br(merge_label.as_str());
                self.line_label(else_label.as_str());
                self.current_block = else_label.clone();
                let ghost st_else = self.model();
                let (ev, e_ty) = match self.emit_block(else_branch) {
                    Ok(x) => x,
                    Err(e) => return Err(e),
                };
                let ghost out5 = self.out@;
                let else_exit = self.current_block.clone();
                self.line_br(merge_label.as_str());
                if t_ty != e_ty {
                    return Err(CodegenError::BranchTypeMismatch);
                }
                self.line_label(merge_label.as_str());
                self.current_block = merge_label;
                let dest = match self.fresh("v") {
                    Ok(d) => d,
                    Err(e) => return Err(e),
                };
                self.line_phi(
                    dest.as_str(),
                    t_ty,
                    tv.as_str(),
                    then_exit.as_str(),
                    ev.as_str(),
                    else_exit.as_str(),
                );
                proof {
                    if let Ok(c) = translate_expr(st0, cond@) {
                        if let Ok(t) = translate_block(st_then, then_branch@) {
                            if let Ok(f) = translate_block(st_else, else_branch@) {
                                lemma_render_if(
                                    c.insts,
                                    cv@,
                                    then_label@,
                                    else_label@,
                                    merge_label@,
                                    t,
                                    f,
                                    dest@,
                                );
                                assert(self.out@ =~= out0 + (render(c.insts) + line_br_cond(
                                    cv@,
                                    then_label@,
                                    else_label@,
                                ) + line_label(then_label@) + render(t.insts) + line_br(merge_label@)
                                    + line_label(else_label@) + render(f.insts) + line_br(merge_label@)
                                    + line_label(merge_label@) + line_phi(
                                    dest@,
                                    t_ty,
                                    tv@,
                                    then_exit@,
                                    ev@,
                                    else_exit@,
                                )));
                            }
                        }
                    }
                }
                Ok((dest, t_ty))
            },
            _ => {
                assert(false);
                Err(CodegenError::BranchTypeMismatch)
            },
        }
    }
}


/// Translates a program into an LLVM module whose `main` returns the
/// program's value, or reports why it cannot.
pub fn try_codegen(program: &Program) -> (r: Result<String, CodegenError>)
    ensures
        r is Ok <==> spec_codegen(program@) is Ok,
        r matches Ok(text) ==> spec_codegen(program@) == Ok::<_, CgError>(text@),
        r matches Err(e) ==> spec_codegen(program@) == Err::<Seq<char>, _>(e@),
{
    let mut cg = Codegen::new();
    cg.put("define i64 @main() {\n");
    cg.put("entry:\n");
    let ghost header = cg.out@;
    assert(header =~= "define i64 @main() {\n"@ + "entry:\n"@);
    match cg.emit_stmts(&program.stmts) {
        Ok(()) => {},
        Err(e) => return Err(e),
    }
    let ghost out1 = cg.out@;
    let ghost st1 = cg.model();
    let (result, ty) = match cg.emit_expr(&program.result) {
        Ok(x) => x,
        Err(e) => return Err(e),
    };
    let ghost out2 = cg.out@;
    // `main` returns i64: a boolean result is zero-extended first.
    let final_result = if ty == Ty::I64 {
        result
    } else {
        let z = match cg.fresh("v") {
            Ok(z) => z,
            Err(e) => return Err(e),
        };
        cg.line_zext(z.as_str(), ty, result.as_str());
        z
    };
    let ghost out3 = cg.out@;
    cg.line_ret(final_result.as_str());
    cg.put("}\n");
    proof {
        if let Ok((is1, s1)) = translate_stmts(initial_state(), crate::ast::stmts_view(program.stmts@)) {
            if let Ok(r) = translate_expr(s1, program.result@) {
                lemma_render_concat(is1, r.insts);
                if ty == Ty::I64 {
                    let tail = seq![Inst::Ret { val: r.value }];
                    lemma_render_single(tail[0]);
                    lemma_render_concat(is1 + r.insts, tail);
                    assert(cg.out@ =~= header + render(is1 + r.insts + tail) + "}\n"@);
                } else {
                    let tail = seq![
                        Inst::Zext { dest: final_result@, ty: r.ty, val: r.value },
                        Inst::Ret { val: final_result@ },
                    ];
                    lemma_render_pair(tail[0], tail[1]);
                    lemma_render_concat(is1 + r.insts, tail);
                    assert(cg.out@ =~= header + render(is1 + r.insts + tail) + "}\n"@);
                }
            }
        }
    }
    Ok(cg.out)
}

/// Translates a program that can be translated: see `try_codegen` for the
/// total version that reports why it cannot.
pub fn codegen(program: &Program) -> (text: String)
    requires
        spec_codegen(program@) is Ok,
    ensures
        spec_codegen(program@) == Ok::<_, CgError>(text@),
{
    match try_codegen(program) {
        Ok(text) => text,
        Err(_) => {
            assert(false);
            String::new()
        },
    }
}

} // verus!
