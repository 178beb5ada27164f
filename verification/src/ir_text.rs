//! Reading the emitted LLVM text back: a decoder that splits a line into
//! words and recognises the LLVM instruction they spell, and the laws that
//! every line the emitter prints decodes to the instruction the machine of
//! `ir_sem` runs for it.
use vstd::prelude::*;

use crate::ast::{BinOp, CmpOp};
use crate::ir_correct::{label_id, labels_distinct};
use crate::ir_sem::{Machine, jump, label_at, lemma_opcode_meanings, literal_value, operand, step, steps};
use crate::lexer::{digit_value, digits_value};
use crate::ir::{
    Inst, lemma_render_concat, lemma_render_empty, lemma_render_single, render, Ty, line_alloca, line_bin, line_br, line_br_cond, line_compare, line_label, line_load,
    line_neg, line_phi, line_ret, line_store, line_zext, mnemonic, predicate, render_inst, ty_name,
};

verus! {

/// A piece of text with no space or line break in it, and not empty.
pub open spec fn plain(x: Seq<char>) -> bool {
    x.len() > 0 && forall|i: int| 0 <= i < x.len() ==> x[i] != ' ' && x[i] != '\n'
}

pub open spec fn emit_word(cur: Seq<char>) -> Seq<Seq<char>> {
    if cur.len() == 0 {
        seq![]
    } else {
        seq![cur]
    }
}

/// The words of `s`, after the partial word `cur`: maximal runs of
/// characters other than spaces.
pub open spec fn words_acc(s: Seq<char>, cur: Seq<char>) -> Seq<Seq<char>>
    decreases s.len(),
{
    if s.len() == 0 {
        emit_word(cur)
    } else if s[0] == ' ' {
        emit_word(cur) + words_acc(s.drop_first(), seq![])
    } else {
        words_acc(s.drop_first(), cur.push(s[0]))
    }
}

/// The words of a line.
pub open spec fn words(s: Seq<char>) -> Seq<Seq<char>> {
    words_acc(s, seq![])
}

/// The type a type name denotes.
pub open spec fn type_of_word(w: Seq<char>) -> Option<Ty> {
    if w == seq!['i', '6', '4'] {
        Some(Ty::I64)
    } else if w == seq!['i', '1'] {
        Some(Ty::I1)
    } else {
        None
    }
}

/// The operator an LLVM integer opcode denotes.
pub open spec fn opcode_of_word(w: Seq<char>) -> Option<BinOp> {
    if w == seq!['a', 'd', 'd'] {
        Some(BinOp::Add)
    } else if w == seq!['s', 'u', 'b'] {
        Some(BinOp::Sub)
    } else if w == seq!['m', 'u', 'l'] {
        Some(BinOp::Mul)
    } else if w == seq!['s', 'd', 'i', 'v'] {
        Some(BinOp::Div)
    } else {
        None
    }
}

/// The comparison an `icmp` predicate denotes.
pub open spec fn predicate_of_word(w: Seq<char>) -> Option<CmpOp> {
    if w == seq!['s', 'l', 't'] {
        Some(CmpOp::Lt)
    } else if w == seq!['s', 'g', 't'] {
        Some(CmpOp::Gt)
    } else if w == seq!['s', 'l', 'e'] {
        Some(CmpOp::Le)
    } else if w == seq!['s', 'g', 'e'] {
        Some(CmpOp::Ge)
    } else if w == seq!['e', 'q'] {
        Some(CmpOp::Eq)
    } else if w == seq!['n', 'e'] {
        Some(CmpOp::Ne)
    } else {
        None
    }
}

pub open spec fn ends_with(w: Seq<char>, c: char) -> bool {
    w.len() > 0 && w.last() == c
}

pub open spec fn starts_with(w: Seq<char>, c: char) -> bool {
    w.len() > 0 && w[0] == c
}

/// A `phi` incoming value written `[v,`.
pub open spec fn phi_value(w: Seq<char>) -> Option<Seq<char>> {
    if w.len() >= 2 && w[0] == '[' && w.last() == ',' {
        Some(w.subrange(1, w.len() - 1))
    } else {
        None
    }
}

/// A `phi` incoming block written `%b],` or `%b]`.
pub open spec fn phi_block(w: Seq<char>, comma: bool) -> Option<Seq<char>> {
    let k: int = if comma {
        2
    } else {
        1
    };
    if w.len() >= 1 + k && w[0] == '%' && w[w.len() - k] == ']' && (comma ==> w.last() == ',') {
        Some(w.subrange(1, w.len() - k))
    } else {
        None
    }
}

/// The instruction an assignment `dest = ...` spells, from its words.
pub open spec fn decode_assign(ws: Seq<Seq<char>>) -> Option<Inst> {
    let n = ws.len();
    let d = ws[0];
    let opw = ws[2];
    if n == 4 && opw == seq!['a', 'l', 'l', 'o', 'c', 'a'] {
        match type_of_word(ws[3]) {
            Some(ty) => Some(Inst::Alloca { slot: d, ty }),
            None => None,
        }
    } else if n == 6 && opw == seq!['l', 'o', 'a', 'd'] {
        if ends_with(ws[3], ',') && ws[4] == seq!['p', 't', 'r'] {
            match type_of_word(ws[3].drop_last()) {
                Some(ty) => Some(Inst::Load { dest: d, ty, slot: ws[5] }),
                None => None,
            }
        } else {
            None
        }
    } else if n == 7 && opw == seq!['i', 'c', 'm', 'p'] {
        if ws[4] == seq!['i', '6', '4'] && ends_with(ws[5], ',') {
            match predicate_of_word(ws[3]) {
                Some(op) => Some(Inst::Icmp { dest: d, op, l: ws[5].drop_last(), r: ws[6] }),
                None => None,
            }
        } else {
            None
        }
    } else if n == 7 && opw == seq!['z', 'e', 'x', 't'] {
        if ws[5] == seq!['t', 'o'] && ws[6] == seq!['i', '6', '4'] {
            match type_of_word(ws[3]) {
                Some(ty) => Some(Inst::Zext { dest: d, ty, val: ws[4] }),
                None => None,
            }
        } else {
            None
        }
    } else if n == 8 && opw == seq!['p', 'h', 'i'] {
        match (type_of_word(ws[3]), phi_value(ws[4]), phi_block(ws[5], true), phi_value(ws[6]), phi_block(ws[7], false)) {
            (Some(ty), Some(tv), Some(tb), Some(ev), Some(eb)) => Some(
                Inst::Phi {
                    dest: d,
                    ty,
                    then_val: tv,
                    then_block: tb,
                    else_val: ev,
                    else_block: eb,
                },
            ),
            _ => None,
        }
    } else if n == 6 && ws[3] == seq!['i', '6', '4'] && ends_with(ws[4], ',') {
        match opcode_of_word(opw) {
            Some(op) => Some(Inst::Arith { dest: d, op, l: ws[4].drop_last(), r: ws[5] }),
            None => None,
        }
    } else {
        None
    }
}

/// The instruction a line of LLVM text spells, read from its words alone.
pub open spec fn decode_line(line: Seq<char>) -> Option<Inst> {
    if !ends_with(line, '\n') {
        None
    } else {
        let ws = words(line.drop_last());
        let n = ws.len();
        if n == 1 && ws[0].len() >= 2 && ws[0].last() == ':' {
            Some(Inst::Label { label: ws[0].drop_last() })
        } else if n == 3 && ws[0] == seq!['r', 'e', 't'] && ws[1] == seq!['i', '6', '4'] {
            Some(Inst::Ret { val: ws[2] })
        } else if n == 3 && ws[0] == seq!['b', 'r'] && ws[1] == seq!['l', 'a', 'b', 'e', 'l']
            && starts_with(ws[2], '%') {
            Some(Inst::Br { label: ws[2].drop_first() })
        } else if n == 7 && ws[0] == seq!['b', 'r'] && ws[1] == seq!['i', '1'] && ends_with(
            ws[2],
            ',',
        ) && ws[3] == seq!['l', 'a', 'b', 'e', 'l'] && starts_with(ws[4], '%') && ends_with(
            ws[4],
            ',',
        ) && ws[5] == seq!['l', 'a', 'b', 'e', 'l'] && starts_with(ws[6], '%') {
            Some(
                Inst::BrCond {
                    cond: ws[2].drop_last(),
                    then_label: ws[4].drop_first().drop_last(),
                    else_label: ws[6].drop_first(),
                },
            )
        } else if n == 5 && ws[0] == seq!['s', 't', 'o', 'r', 'e'] && ends_with(ws[2], ',')
            && ws[3] == seq!['p', 't', 'r'] {
            match type_of_word(ws[1]) {
                Some(ty) => Some(Inst::Store { ty, val: ws[2].drop_last(), slot: ws[4] }),
                None => None,
            }
        } else if n >= 3 && ws[1] == seq!['='] {
            decode_assign(ws)
        } else {
            None
        }
    }
}

/// The instruction the machine runs for a line: a negation is printed,
/// and read back, as a subtraction from 0.
pub open spec fn as_printed(i: Inst) -> Inst {
    match i {
        Inst::Neg { dest, val } => Inst::Arith { dest, op: BinOp::Sub, l: seq!['0'], r: val },
        _ => i,
    }
}

proof fn lemma_words_acc_plain(w: Seq<char>, rest: Seq<char>, cur: Seq<char>)
    requires
        forall|i: int| 0 <= i < w.len() ==> w[i] != ' ',
    ensures
        words_acc(w + rest, cur) == words_acc(rest, cur + w),
    decreases w.len(),
{
    if w.len() == 0 {
        assert(w + rest =~= rest);
        assert(cur + w =~= cur);
    } else {
        assert((w + rest)[0] == w[0]);
        assert((w + rest).drop_first() =~= w.drop_first() + rest);
        assert(w[0] != ' ');
        lemma_words_acc_plain(w.drop_first(), rest, cur.push(w[0]));
        assert(cur.push(w[0]) + w.drop_first() =~= cur + w);
    }
}

/// A plain word followed by a space is the first word.
pub proof fn lemma_words_cons(w: Seq<char>, rest: Seq<char>)
    requires
        plain(w),
    ensures
        words(w + seq![' '] + rest) == seq![w] + words(rest),
{
    assert(w + seq![' '] + rest =~= w + (seq![' '] + rest));
    lemma_words_acc_plain(w, seq![' '] + rest, seq![]);
    assert(Seq::<char>::empty() + w =~= w);
    let s = seq![' '] + rest;
    assert(s[0] == ' ');
    assert(s.drop_first() =~= rest);
}

/// A plain word alone is the only word.
pub proof fn lemma_words_single(w: Seq<char>)
    requires
        plain(w),
    ensures
        words(w) == seq![w],
{
    lemma_words_acc_plain(w, seq![], seq![]);
    assert(w + Seq::<char>::empty() =~= w);
    assert(Seq::<char>::empty() + w =~= w);
}

/// Leading spaces are not words.
pub proof fn lemma_words_space(rest: Seq<char>)
    ensures
        words(seq![' '] + rest) == words(rest),
{
    let s = seq![' '] + rest;
    assert(s[0] == ' ');
    assert(s.drop_first() =~= rest);
    assert(Seq::<Seq<char>>::empty() + words(rest) =~= words(rest));
}

/// `a b` with a single space between two plain words.
pub open spec fn sp(a: Seq<char>, b: Seq<char>) -> Seq<char> {
    a + seq![' '] + b
}

/// Words written one after another with single spaces.
pub open spec fn sentence(ws: Seq<Seq<char>>) -> Seq<char>
    decreases ws.len(),
{
    if ws.len() == 0 {
        seq![]
    } else if ws.len() == 1 {
        ws[0]
    } else {
        ws[0] + seq![' '] + sentence(ws.drop_first())
    }
}

/// Plain words written with single spaces read back as those words.
pub proof fn lemma_words_sentence(ws: Seq<Seq<char>>)
    requires
        ws.len() > 0,
        forall|i: int| 0 <= i < ws.len() ==> plain(#[trigger] ws[i]),
    ensures
        words(sentence(ws)) == ws,
    decreases ws.len(),
{
    assert(plain(ws[0]));
    if ws.len() == 1 {
        lemma_words_single(ws[0]);
        assert(seq![ws[0]] =~= ws);
    } else {
        let rest = ws.drop_first();
        assert forall|i: int| 0 <= i < rest.len() implies plain(#[trigger] rest[i]) by {
            assert(rest[i] == ws[i + 1]);
        }
        lemma_words_sentence(rest);
        lemma_words_cons(ws[0], sentence(rest));
        assert(seq![ws[0]] + rest =~= ws);
    }
}

/// A single line: it ends in a line break and has no other.
pub open spec fn line_shape(line: Seq<char>) -> bool {
    &&& ends_with(line, '\n')
    &&& forall|k: int| 0 <= k < line.len() - 1 ==> line[k] != '\n'
}

/// Plain words written with spaces contain no line break.
proof fn lemma_sentence_no_break(ws: Seq<Seq<char>>)
    requires
        forall|i: int| 0 <= i < ws.len() ==> plain(#[trigger] ws[i]),
    ensures
        forall|k: int| 0 <= k < sentence(ws).len() ==> sentence(ws)[k] != '\n',
    decreases ws.len(),
{
    if ws.len() >= 1 {
        assert(plain(ws[0]));
    }
    if ws.len() >= 2 {
        let rest = ws.drop_first();
        assert forall|i: int| 0 <= i < rest.len() implies plain(#[trigger] rest[i]) by {
            assert(rest[i] == ws[i + 1]);
        }
        lemma_sentence_no_break(rest);
        let s = sentence(ws);
        assert forall|k: int| 0 <= k < s.len() implies s[k] != '\n' by {
            if k < ws[0].len() {
                assert(s[k] == ws[0][k]);
            } else if k > ws[0].len() {
                assert(s[k] == sentence(rest)[k - ws[0].len() - 1]);
            }
        }
    }
}

/// An indented line: two spaces, the words, a newline.
pub proof fn lemma_indented(line: Seq<char>, ws: Seq<Seq<char>>)
    requires
        ws.len() > 0,
        forall|i: int| 0 <= i < ws.len() ==> plain(#[trigger] ws[i]),
        line == seq![' ', ' '] + sentence(ws) + seq!['\n'],
    ensures
        ends_with(line, '\n'),
        words(line.drop_last()) == ws,
        line_shape(line),
{
    let body = sentence(ws);
    lemma_sentence_no_break(ws);
    assert forall|k: int| 0 <= k < line.len() - 1 implies line[k] != '\n' by {
        if k >= 2 {
            assert(line[k] == body[k - 2]);
        }
    }
    assert(line.drop_last() =~= seq![' '] + (seq![' '] + body));
    lemma_words_space(seq![' '] + body);
    lemma_words_space(body);
    lemma_words_sentence(ws);
}

proof fn lemma_type_words(t: Ty)
    ensures
        plain(ty_name(t)),
        type_of_word(ty_name(t)) == Some(t),
        !ends_with(ty_name(t), ','),
{
    reveal_strlit("i64");
    reveal_strlit("i1");
    assert("i64"@ =~= seq!['i', '6', '4']);
    assert("i1"@ =~= seq!['i', '1']);
}

/// A `load` line reads back as the load it was printed for.
pub proof fn lemma_decode_load(d: Seq<char>, t: Ty, s: Seq<char>)
    requires
        plain(d),
        plain(s),
    ensures
        line_shape(line_load(d, t, s)),
        decode_line(line_load(d, t, s)) == Some(Inst::Load { dest: d, ty: t, slot: s }),
{
    reveal(line_load);
    reveal_strlit("  ");
    reveal_strlit(" = load ");
    reveal_strlit(", ptr ");
    reveal_strlit("\n");
    reveal_with_fuel(sentence, 7);
    lemma_type_words(t);
    let tc = ty_name(t) + seq![','];
    let ws = seq![d, seq!['='], seq!['l', 'o', 'a', 'd'], tc, seq!['p', 't', 'r'], s];
    assert(plain(tc));
    assert(line_load(d, t, s) =~= seq![' ', ' '] + sentence(ws) + seq!['\n']);
    lemma_indented(line_load(d, t, s), ws);
    assert(tc.drop_last() =~= ty_name(t));
}

proof fn lemma_opcode_words(op: BinOp)
    ensures
        plain(mnemonic(op)),
        opcode_of_word(mnemonic(op)) == Some(op),
        mnemonic(op) != seq!['l', 'o', 'a', 'd'],
        mnemonic(op).len() == 3 || mnemonic(op).len() == 4,
{
    reveal_strlit("add");
    reveal_strlit("sub");
    reveal_strlit("mul");
    reveal_strlit("sdiv");
    assert("add"@ =~= seq!['a', 'd', 'd']);
    assert("sub"@ =~= seq!['s', 'u', 'b']);
    assert("mul"@ =~= seq!['m', 'u', 'l']);
    assert("sdiv"@ =~= seq!['s', 'd', 'i', 'v']);
    assert(seq!['s', 'd', 'i', 'v'][0] != seq!['l', 'o', 'a', 'd'][0]);
}

proof fn lemma_predicate_words(op: CmpOp)
    ensures
        plain(predicate(op)),
        predicate_of_word(predicate(op)) == Some(op),
{
    reveal_strlit("slt");
    reveal_strlit("sgt");
    reveal_strlit("sle");
    reveal_strlit("sge");
    reveal_strlit("eq");
    reveal_strlit("ne");
    assert("slt"@ =~= seq!['s', 'l', 't']);
    assert("sgt"@ =~= seq!['s', 'g', 't']);
    assert("sle"@ =~= seq!['s', 'l', 'e']);
    assert("sge"@ =~= seq!['s', 'g', 'e']);
    assert("eq"@ =~= seq!['e', 'q']);
    assert("ne"@ =~= seq!['n', 'e']);
}

/// A negation line reads back as a subtraction from 0.
pub proof fn lemma_decode_neg(d: Seq<char>, v: Seq<char>)
    requires
        plain(d),
        plain(v),
    ensures
        line_shape(line_neg(d, v)),
        decode_line(line_neg(d, v)) == Some(as_printed(Inst::Neg { dest: d, val: v })),
{
    reveal(line_neg);
    reveal_strlit("  ");
    reveal_strlit(" = sub i64 0, ");
    reveal_strlit("\n");
    reveal_with_fuel(sentence, 7);
    let ws = seq![
        d,
        seq!['='],
        seq!['s', 'u', 'b'],
        seq!['i', '6', '4'],
        seq!['0', ','],
        v,
    ];
    assert(line_neg(d, v) =~= seq![' ', ' '] + sentence(ws) + seq!['\n']);
    lemma_indented(line_neg(d, v), ws);
    assert(seq!['0', ','].drop_last() =~= seq!['0']);
}

/// An arithmetic line reads back as the operation it was printed for.
pub proof fn lemma_decode_bin(d: Seq<char>, op: BinOp, l: Seq<char>, r: Seq<char>)
    requires
        plain(d),
        plain(l),
        plain(r),
    ensures
        line_shape(line_bin(d, op, l, r)),
        decode_line(line_bin(d, op, l, r)) == Some(Inst::Arith { dest: d, op, l, r }),
{
    reveal(line_bin);
    reveal_strlit("  ");
    reveal_strlit(" = ");
    reveal_strlit(" i64 ");
    reveal_strlit(", ");
    reveal_strlit("\n");
    reveal_with_fuel(sentence, 7);
    lemma_opcode_words(op);
    let lc = l + seq![','];
    let ws = seq![d, seq!['='], mnemonic(op), seq!['i', '6', '4'], lc, r];
    assert(plain(lc));
    assert(line_bin(d, op, l, r) =~= seq![' ', ' '] + sentence(ws) + seq!['\n']);
    lemma_indented(line_bin(d, op, l, r), ws);
    assert(lc.drop_last() =~= l);
}

/// A comparison line reads back as the comparison it was printed for.
pub proof fn lemma_decode_compare(d: Seq<char>, op: CmpOp, l: Seq<char>, r: Seq<char>)
    requires
        plain(d),
        plain(l),
        plain(r),
    ensures
        line_shape(line_compare(d, op, l, r)),
        decode_line(line_compare(d, op, l, r)) == Some(Inst::Icmp { dest: d, op, l, r }),
{
    reveal(line_compare);
    reveal_strlit("  ");
    reveal_strlit(" = icmp ");
    reveal_strlit(" i64 ");
    reveal_strlit(", ");
    reveal_strlit("\n");
    reveal_with_fuel(sentence, 8);
    lemma_predicate_words(op);
    let lc = l + seq![','];
    let ws = seq![d, seq!['='], seq!['i', 'c', 'm', 'p'], predicate(op), seq!['i', '6', '4'], lc, r];
    assert(plain(lc));
    assert(line_compare(d, op, l, r) =~= seq![' ', ' '] + sentence(ws) + seq!['\n']);
    lemma_indented(line_compare(d, op, l, r), ws);
    assert(lc.drop_last() =~= l);
}

/// An allocation line reads back as the allocation it was printed for.
pub proof fn lemma_decode_alloca(slot: Seq<char>, t: Ty)
    requires
        plain(slot),
    ensures
        line_shape(line_alloca(slot, t)),
        decode_line(line_alloca(slot, t)) == Some(Inst::Alloca { slot, ty: t }),
{
    reveal(line_alloca);
    reveal_strlit("  ");
    reveal_strlit(" = alloca ");
    reveal_strlit("\n");
    reveal_with_fuel(sentence, 5);
    lemma_type_words(t);
    let ws = seq![slot, seq!['='], seq!['a', 'l', 'l', 'o', 'c', 'a'], ty_name(t)];
    assert(line_alloca(slot, t) =~= seq![' ', ' '] + sentence(ws) + seq!['\n']);
    lemma_indented(line_alloca(slot, t), ws);
}

/// A store line reads back as the store it was printed for.
pub proof fn lemma_decode_store(t: Ty, v: Seq<char>, slot: Seq<char>)
    requires
        plain(v),
        plain(slot),
    ensures
        line_shape(line_store(t, v, slot)),
        decode_line(line_store(t, v, slot)) == Some(Inst::Store { ty: t, val: v, slot }),
{
    reveal(line_store);
    reveal_strlit("  store ");
    reveal_strlit(" ");
    reveal_strlit(", ptr ");
    reveal_strlit("\n");
    reveal_with_fuel(sentence, 6);
    lemma_type_words(t);
    let vc = v + seq![','];
    let ws = seq![seq!['s', 't', 'o', 'r', 'e'], ty_name(t), vc, seq!['p', 't', 'r'], slot];
    assert(plain(vc));
    assert(line_store(t, v, slot) =~= seq![' ', ' '] + sentence(ws) + seq!['\n']);
    lemma_indented(line_store(t, v, slot), ws);
    assert(vc.drop_last() =~= v);
}

/// A zero-extension line reads back as the extension it was printed for.
pub proof fn lemma_decode_zext(d: Seq<char>, t: Ty, v: Seq<char>)
    requires
        plain(d),
        plain(v),
    ensures
        line_shape(line_zext(d, t, v)),
        decode_line(line_zext(d, t, v)) == Some(Inst::Zext { dest: d, ty: t, val: v }),
{
    reveal(line_zext);
    reveal_strlit("  ");
    reveal_strlit(" = zext ");
    reveal_strlit(" ");
    reveal_strlit(" to i64\n");
    reveal_with_fuel(sentence, 8);
    lemma_type_words(t);
    let ws = seq![d, seq!['='], seq!['z', 'e', 'x', 't'], ty_name(t), v, seq!['t', 'o'], seq!['i', '6', '4']];
    assert(line_zext(d, t, v) =~= seq![' ', ' '] + sentence(ws) + seq!['\n']);
    lemma_indented(line_zext(d, t, v), ws);
}

/// A return line reads back as the return it was printed for.
pub proof fn lemma_decode_ret(v: Seq<char>)
    requires
        plain(v),
    ensures
        line_shape(line_ret(v)),
        decode_line(line_ret(v)) == Some(Inst::Ret { val: v }),
{
    reveal(line_ret);
    reveal_strlit("  ret i64 ");
    reveal_strlit("\n");
    reveal_with_fuel(sentence, 4);
    let ws = seq![seq!['r', 'e', 't'], seq!['i', '6', '4'], v];
    assert(line_ret(v) =~= seq![' ', ' '] + sentence(ws) + seq!['\n']);
    lemma_indented(line_ret(v), ws);
}

/// A jump line reads back as the jump it was printed for.
pub proof fn lemma_decode_br(l: Seq<char>)
    requires
        plain(l),
    ensures
        line_shape(line_br(l)),
        decode_line(line_br(l)) == Some(Inst::Br { label: l }),
{
    reveal(line_br);
    reveal_strlit("  br label %");
    reveal_strlit("\n");
    reveal_with_fuel(sentence, 4);
    let pl = seq!['%'] + l;
    let ws = seq![seq!['b', 'r'], seq!['l', 'a', 'b', 'e', 'l'], pl];
    assert(plain(pl));
    assert(line_br(l) =~= seq![' ', ' '] + sentence(ws) + seq!['\n']);
    lemma_indented(line_br(l), ws);
    assert(pl.drop_first() =~= l);
}

/// A conditional jump line reads back as the jump it was printed for.
pub proof fn lemma_decode_br_cond(c: Seq<char>, t: Seq<char>, e: Seq<char>)
    requires
        plain(c),
        plain(t),
        plain(e),
    ensures
        line_shape(line_br_cond(c, t, e)),
        decode_line(line_br_cond(c, t, e)) == Some(
            Inst::BrCond { cond: c, then_label: t, else_label: e },
        ),
{
    reveal(line_br_cond);
    reveal_strlit("  br i1 ");
    reveal_strlit(", label %");
    reveal_strlit("\n");
    reveal_with_fuel(sentence, 8);
    let cc = c + seq![','];
    let tw = seq!['%'] + t + seq![','];
    let ew = seq!['%'] + e;
    let lab = seq!['l', 'a', 'b', 'e', 'l'];
    let ws = seq![seq!['b', 'r'], seq!['i', '1'], cc, lab, tw, lab, ew];
    assert(plain(cc) && plain(tw) && plain(ew));
    assert(line_br_cond(c, t, e) =~= seq![' ', ' '] + sentence(ws) + seq!['\n']);
    lemma_indented(line_br_cond(c, t, e), ws);
    assert(cc.drop_last() =~= c);
    assert(tw.drop_first().drop_last() =~= t);
    assert(ew.drop_first() =~= e);
}

/// A label line reads back as the label it was printed for.
pub proof fn lemma_decode_label(l: Seq<char>)
    requires
        plain(l),
    ensures
        line_shape(line_label(l)),
        decode_line(line_label(l)) == Some(Inst::Label { label: l }),
{
    reveal(line_label);
    reveal_strlit(":\n");
    let w = l + seq![':'];
    assert(plain(w));
    assert(line_label(l).drop_last() =~= w);
    lemma_words_single(w);
    assert(w.drop_last() =~= l);
    assert forall|k: int| 0 <= k < line_label(l).len() - 1 implies line_label(l)[k] != '\n' by {
        assert(line_label(l)[k] == w[k]);
    }
}

proof fn lemma_phi_words(tv: Seq<char>, tb: Seq<char>, ev: Seq<char>, eb: Seq<char>)
    requires
        plain(tv),
        plain(tb),
        plain(ev),
        plain(eb),
    ensures
        plain(seq!['['] + tv + seq![',']),
        plain(seq!['%'] + tb + seq![']', ',']),
        plain(seq!['['] + ev + seq![',']),
        plain(seq!['%'] + eb + seq![']']),
        phi_value(seq!['['] + tv + seq![',']) == Some(tv),
        phi_block(seq!['%'] + tb + seq![']', ','], true) == Some(tb),
        phi_value(seq!['['] + ev + seq![',']) == Some(ev),
        phi_block(seq!['%'] + eb + seq![']'], false) == Some(eb),
{
    let w4 = seq!['['] + tv + seq![','];
    let w5 = seq!['%'] + tb + seq![']', ','];
    let w6 = seq!['['] + ev + seq![','];
    let w7 = seq!['%'] + eb + seq![']'];
    assert(w4.subrange(1, w4.len() - 1) =~= tv);
    assert(w5.subrange(1, w5.len() - 2) =~= tb);
    assert(w6.subrange(1, w6.len() - 1) =~= ev);
    assert(w7.subrange(1, w7.len() - 1) =~= eb);
}

/// A `phi` line reads back as the `phi` it was printed for.
#[verifier::spinoff_prover]
#[verifier::rlimit(80)]
pub proof fn lemma_decode_phi(
    d: Seq<char>,
    t: Ty,
    tv: Seq<char>,
    tb: Seq<char>,
    ev: Seq<char>,
    eb: Seq<char>,
)
    requires
        plain(d),
        plain(tv),
        plain(tb),
        plain(ev),
        plain(eb),
    ensures
        line_shape(line_phi(d, t, tv, tb, ev, eb)),
        decode_line(line_phi(d, t, tv, tb, ev, eb)) == Some(
            Inst::Phi {
                dest: d,
                ty: t,
                then_val: tv,
                then_block: tb,
                else_val: ev,
                else_block: eb,
            },
        ),
{
    reveal(line_phi);
    reveal_strlit("  ");
    reveal_strlit(" = phi ");
    reveal_strlit(" [");
    reveal_strlit(", %");
    reveal_strlit("], [");
    reveal_strlit("]\n");
    reveal_with_fuel(sentence, 9);
    lemma_type_words(t);
    let w4 = seq!['['] + tv + seq![','];
    let w5 = seq!['%'] + tb + seq![']', ','];
    let w6 = seq!['['] + ev + seq![','];
    let w7 = seq!['%'] + eb + seq![']'];
    let ws = seq![d, seq!['='], seq!['p', 'h', 'i'], ty_name(t), w4, w5, w6, w7];
    lemma_phi_words(tv, tb, ev, eb);
    assert(line_phi(d, t, tv, tb, ev, eb) =~= seq![' ', ' '] + sentence(ws) + seq!['\n']);
    lemma_indented(line_phi(d, t, tv, tb, ev, eb), ws);
}

/// Every text field of an instruction is a plain word.
pub open spec fn inst_plain(i: Inst) -> bool {
    match i {
        Inst::Alloca { slot, .. } => plain(slot),
        Inst::Store { val, slot, .. } => plain(val) && plain(slot),
        Inst::Load { dest, slot, .. } => plain(dest) && plain(slot),
        Inst::Neg { dest, val } => plain(dest) && plain(val),
        Inst::Arith { dest, l, r, .. } => plain(dest) && plain(l) && plain(r),
        Inst::Icmp { dest, l, r, .. } => plain(dest) && plain(l) && plain(r),
        Inst::BrCond { cond, then_label, else_label } => plain(cond) && plain(then_label) && plain(
            else_label,
        ),
        Inst::Br { label } => plain(label),
        Inst::Label { label } => plain(label),
        Inst::Phi { dest, then_val, then_block, else_val, else_block, .. } => plain(dest) && plain(
            then_val,
        ) && plain(then_block) && plain(else_val) && plain(else_block),
        Inst::Zext { dest, val, .. } => plain(dest) && plain(val),
        Inst::Ret { val } => plain(val),
    }
}

/// Every line the emitter prints, read back by the decoder alone, is the
/// instruction it was printed for (a negation reads as a subtraction from
/// 0, which computes the same).
pub proof fn lemma_decode_render(i: Inst)
    requires
        inst_plain(i),
    ensures
        line_shape(render_inst(i)),
        decode_line(render_inst(i)) == Some(as_printed(i)),
{
    match i {
        Inst::Alloca { slot, ty } => lemma_decode_alloca(slot, ty),
        Inst::Store { ty, val, slot } => lemma_decode_store(ty, val, slot),
        Inst::Load { dest, ty, slot } => lemma_decode_load(dest, ty, slot),
        Inst::Neg { dest, val } => lemma_decode_neg(dest, val),
        Inst::Arith { dest, op, l, r } => lemma_decode_bin(dest, op, l, r),
        Inst::Icmp { dest, op, l, r } => lemma_decode_compare(dest, op, l, r),
        Inst::BrCond { cond, then_label, else_label } => lemma_decode_br_cond(
            cond,
            then_label,
            else_label,
        ),
        Inst::Br { label } => lemma_decode_br(label),
        Inst::Label { label } => lemma_decode_label(label),
        Inst::Phi { dest, ty, then_val, then_block, else_val, else_block } => lemma_decode_phi(
            dest,
            ty,
            then_val,
            then_block,
            else_val,
            else_block,
        ),
        Inst::Zext { dest, ty, val } => lemma_decode_zext(dest, ty, val),
        Inst::Ret { val } => lemma_decode_ret(val),
    }
}

/// Running the instruction as read back from its line does what running
/// the instruction does: the machine's meaning of each instruction is the
/// meaning of the text printed for it.
pub proof fn lemma_step_as_printed(prog: Seq<Inst>, m: Machine)
    requires
        0 <= m.pc < prog.len(),
    ensures
        step(prog.update(m.pc, as_printed(prog[m.pc])), m) == step(prog, m),
{
    let p2 = prog.update(m.pc, as_printed(prog[m.pc]));
    match prog[m.pc] {
        Inst::Neg { dest, val } => {
            lemma_opcode_meanings(BinOp::Sub, 0, 0);
            reveal_strlit("sub");
            assert(literal_value(seq!['0']) == Some(0int)) by {
                reveal_strlit("true");
                reveal_strlit("false");
                assert("true"@[0] != '0');
                assert("false"@[0] != '0');
                assert(digits_value(seq!['0']) == digits_value(seq!['0'].drop_last()) * 10
                    + digit_value('0'));
                assert(seq!['0'].drop_last() =~= Seq::<char>::empty());
            }
            assert(operand(m.regs, seq!['0']) == Some(0int));
            if let Some(x) = operand(m.regs, val) {
                lemma_opcode_meanings(BinOp::Sub, 0, x);
            }
        },
        _ => {
            assert(p2 =~= prog);
        },
    }
}

/// The lines of `s` after the partial line `cur`, each with its break.
pub open spec fn lines_acc(s: Seq<char>, cur: Seq<char>) -> Seq<Seq<char>>
    decreases s.len(),
{
    if s.len() == 0 {
        emit_word(cur)
    } else if s[0] == '\n' {
        seq![cur.push('\n')] + lines_acc(s.drop_first(), seq![])
    } else {
        lines_acc(s.drop_first(), cur.push(s[0]))
    }
}

/// The lines of a text.
pub open spec fn lines(s: Seq<char>) -> Seq<Seq<char>> {
    lines_acc(s, seq![])
}

proof fn lemma_lines_acc_line(x: Seq<char>, rest: Seq<char>, cur: Seq<char>)
    requires
        forall|k: int| 0 <= k < x.len() ==> x[k] != '\n',
    ensures
        lines_acc(x + seq!['\n'] + rest, cur) == seq![cur + x + seq!['\n']] + lines_acc(rest, seq![]),
    decreases x.len(),
{
    let s = x + seq!['\n'] + rest;
    if x.len() == 0 {
        assert(s[0] == '\n');
        assert(s.drop_first() =~= rest);
        assert(cur.push('\n') =~= cur + x + seq!['\n']);
    } else {
        assert(s[0] == x[0]);
        assert(s.drop_first() =~= x.drop_first() + seq!['\n'] + rest);
        lemma_lines_acc_line(x.drop_first(), rest, cur.push(x[0]));
        assert(cur.push(x[0]) + x.drop_first() =~= cur + x);
    }
}

/// A text made of single lines splits into those lines.
pub proof fn lemma_lines_render(is: Seq<Inst>)
    requires
        forall|k: int| 0 <= k < is.len() ==> line_shape(#[trigger] render_inst(is[k])),
    ensures
        lines(render(is)) == is.map_values(|i: Inst| render_inst(i)),
    decreases is.len(),
{
    if is.len() == 0 {
        lemma_render_empty();
        assert(is.map_values(|i: Inst| render_inst(i)) =~= Seq::<Seq<char>>::empty());
    } else {
        let rest = is.drop_first();
        assert forall|k: int| 0 <= k < rest.len() implies line_shape(
            #[trigger] render_inst(rest[k]),
        ) by {
            assert(rest[k] == is[k + 1]);
            assert(line_shape(render_inst(is[k + 1])));
        }
        lemma_lines_render(rest);
        assert(is =~= seq![is[0]] + rest);
        lemma_render_concat(seq![is[0]], rest);
        lemma_render_single(is[0]);
        let l = render_inst(is[0]);
        assert(line_shape(render_inst(is[0])));
        let x = l.drop_last();
        assert(l =~= x + seq!['\n']);
        lemma_lines_acc_line(x, render(rest), seq![]);
        assert(Seq::<char>::empty() + x + seq!['\n'] =~= l);
        assert(render(is) =~= x + seq!['\n'] + render(rest));
        assert(is.map_values(|i: Inst| render_inst(i)) =~= seq![l] + rest.map_values(
            |i: Inst| render_inst(i),
        ));
    }
}

/// The instructions a text spells, line by line.
pub open spec fn decode_text(text: Seq<char>) -> Seq<Option<Inst>> {
    lines(text).map_values(|l: Seq<char>| decode_line(l))
}

/// The text of plain instructions decodes, line by line, to those
/// instructions as printed.
pub proof fn lemma_decode_text(is: Seq<Inst>)
    requires
        forall|k: int| 0 <= k < is.len() ==> inst_plain(#[trigger] is[k]),
    ensures
        decode_text(render(is)) == is.map_values(|i: Inst| Some(as_printed(i))),
{
    assert forall|k: int| 0 <= k < is.len() implies line_shape(#[trigger] render_inst(is[k])) by {
        lemma_decode_render(is[k]);
    }
    lemma_lines_render(is);
    assert forall|k: int| 0 <= k < is.len() implies decode_text(render(is))[k] == Some(
        as_printed(is[k]),
    ) by {
        lemma_decode_render(is[k]);
    }
    assert(decode_text(render(is)) =~= is.map_values(|i: Inst| Some(as_printed(i))));
}

/// The program as the decoder reads it back.
pub open spec fn read_back(prog: Seq<Inst>) -> Seq<Inst> {
    prog.map_values(|i: Inst| as_printed(i))
}

proof fn lemma_read_back_labels(prog: Seq<Inst>, l: Seq<char>, i: int)
    ensures
        label_at(read_back(prog), i, l) == label_at(prog, i, l),
{
    if 0 <= i < prog.len() {
        assert(read_back(prog)[i] == as_printed(prog[i]));
    }
}

/// Reading a program back from its text changes no step of a run.
proof fn lemma_step_read_back(prog: Seq<Inst>, m: Machine)
    requires
        labels_distinct(prog),
    ensures
        step(read_back(prog), m) == step(prog, m),
{
    let p2 = read_back(prog);
    if !(m.ret is Some || m.pc < 0 || m.pc >= prog.len()) {
        assert(p2[m.pc] == as_printed(prog[m.pc]));
        assert forall|i: int, l: Seq<char>| #[trigger] label_at(p2, i, l) == label_at(prog, i, l) by {
            lemma_read_back_labels(prog, l, i);
        }
        assert forall|l: Seq<char>| #[trigger] jump(p2, m, l) == jump(prog, m, l) by {
            if exists|i: int| label_at(prog, i, l) {
                let a = choose|i: int| label_at(p2, i, l);
                let b = choose|i: int| label_at(prog, i, l);
                assert(label_at(p2, b, l));
                assert(label_at(prog, a, l));
                if a < b {
                    assert(label_id(prog[a]) == label_id(prog[b]));
                } else if b < a {
                    assert(label_id(prog[a]) == label_id(prog[b]));
                }
            }
        }
        match prog[m.pc] {
            Inst::Neg { dest, val } => {
                assert(literal_value(seq!['0']) == Some(0int)) by {
                    reveal_strlit("true");
                    reveal_strlit("false");
                    assert("true"@[0] != '0');
                    assert("false"@[0] != '0');
                    assert(digits_value(seq!['0']) == digits_value(seq!['0'].drop_last()) * 10
                        + digit_value('0'));
                    assert(seq!['0'].drop_last() =~= Seq::<char>::empty());
                }
                assert(operand(m.regs, seq!['0']) == Some(0int));
                if let Some(x) = operand(m.regs, val) {
                    lemma_opcode_meanings(BinOp::Sub, 0, x);
                }
            },
            _ => {},
        }
    }
}

/// Reading a program back from its text changes no run.
pub proof fn lemma_steps_read_back(prog: Seq<Inst>, m: Machine, n: nat)
    requires
        labels_distinct(prog),
    ensures
        steps(read_back(prog), m, n) == steps(prog, m, n),
    decreases n,
{
    if n > 0 {
        lemma_step_read_back(prog, m);
        if let Some(m1) = step(prog, m) {
            lemma_steps_read_back(prog, m1, (n - 1) as nat);
        }
    }
}

} // verus!
