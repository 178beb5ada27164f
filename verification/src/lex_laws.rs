//! The lexer read backwards: each token has a spelling, and lexing the
//! spellings of a token list, separated by spaces, gives the list back.
use vstd::prelude::*;

use crate::ast::{BlockV, ExprV};
use crate::ir_sem::lemma_nat_text_digits;
use crate::lexer::{
    LexError, TokenV, all_well_formed, is_digit, is_ident_char, lemma_run_end_exact,
    lemma_whitespace_separates, lex_from, spec_lex, well_formed_token,
};
use crate::parse_laws::{lemma_parse_shown, show_expr};
use crate::parser::{spec_parse, ParseError};
use crate::text::nat_text;

verus! {

/// How a token is written in source text.
pub open spec fn spelling(t: TokenV) -> Seq<char> {
    match t {
        TokenV::Num(n) => nat_text(n as nat),
        TokenV::Ident(w) => w,
        TokenV::Let => seq!['l', 'e', 't'],
        TokenV::If => seq!['i', 'f'],
        TokenV::Else => seq!['e', 'l', 's', 'e'],
        TokenV::True => seq!['t', 'r', 'u', 'e'],
        TokenV::False => seq!['f', 'a', 'l', 's', 'e'],
        TokenV::Plus => seq!['+'],
        TokenV::Minus => seq!['-'],
        TokenV::Star => seq!['*'],
        TokenV::Slash => seq!['/'],
        TokenV::LParen => seq!['('],
        TokenV::RParen => seq![')'],
        TokenV::LBrace => seq!['{'],
        TokenV::RBrace => seq!['}'],
        TokenV::Eq => seq!['='],
        TokenV::Semi => seq![';'],
        TokenV::Lt => seq!['<'],
        TokenV::Gt => seq!['>'],
        TokenV::Le => seq!['<', '='],
        TokenV::Ge => seq!['>', '='],
        TokenV::EqEq => seq!['=', '='],
        TokenV::BangEq => seq!['!', '='],
    }
}

/// Tokens written one after another, each followed by a space.
pub open spec fn spell(ts: Seq<TokenV>) -> Seq<char>
    decreases ts.len(),
{
    if ts.len() == 0 {
        seq![]
    } else {
        spelling(ts[0]) + seq![' '] + spell(ts.drop_first())
    }
}

/// A word of letters, digits and underscores lexes as one token.
proof fn lemma_word_lexes(w: Seq<char>)
    requires
        w.len() > 0,
        forall|k: int| 0 <= k < w.len() ==> is_ident_char(#[trigger] w[k]),
    ensures
        crate::lexer::run_end(w, 0, |x: char| is_ident_char(x)) == w.len(),
{
    lemma_run_end_exact(w, 0, w.len() as int, |x: char| is_ident_char(x));
}

/// Every well-formed token, written alone, lexes back to itself.
pub proof fn lemma_spelling_lexes(t: TokenV)
    requires
        well_formed_token(t),
    ensures
        spec_lex(spelling(t)) == Ok::<Seq<TokenV>, LexError>(seq![t]),
{
    let s = spelling(t);
    match t {
        TokenV::Num(n) => {
            lemma_nat_text_digits(n as nat);
            lemma_run_end_exact(s, 0, s.len() as int, |x: char| is_digit(x));
            assert(s.subrange(0, s.len() as int) =~= s);
            assert(is_digit(s[0]));
            assert(lex_from(s, s.len() as int) == Ok::<Seq<TokenV>, LexError>(seq![]));
        },
        TokenV::Ident(w) => {
            lemma_word_lexes(w);
            assert(w.subrange(0, w.len() as int) =~= w);
            assert(lex_from(s, s.len() as int) == Ok::<Seq<TokenV>, LexError>(seq![]));
        },
        TokenV::Let | TokenV::If | TokenV::Else | TokenV::True | TokenV::False => {
            lemma_word_lexes(s);
            assert(s.subrange(0, s.len() as int) =~= s);
            assert(lex_from(s, s.len() as int) == Ok::<Seq<TokenV>, LexError>(seq![]));
        },
        TokenV::Le | TokenV::Ge | TokenV::EqEq | TokenV::BangEq => {
            assert(lex_from(s, 2) == Ok::<Seq<TokenV>, LexError>(seq![]));
        },
        _ => {
            assert(lex_from(s, 1) == Ok::<Seq<TokenV>, LexError>(seq![]));
        },
    }
}

/// The lexer reads back what is written: lexing the spellings of any list
/// of well-formed tokens, separated by spaces, gives that list.
pub proof fn lemma_lex_spell(ts: Seq<TokenV>)
    requires
        all_well_formed(ts),
    ensures
        spec_lex(spell(ts)) == Ok::<Seq<TokenV>, LexError>(ts),
    decreases ts.len(),
{
    if ts.len() == 0 {
        assert(spec_lex(Seq::<char>::empty()) == Ok::<Seq<TokenV>, LexError>(seq![]));
        assert(ts =~= Seq::<TokenV>::empty());
    } else {
        let rest = ts.drop_first();
        assert(all_well_formed(rest)) by {
            assert forall|k: int| 0 <= k < rest.len() implies well_formed_token(
                #[trigger] rest[k],
            ) by {
                assert(rest[k] == ts[k + 1]);
            }
        }
        assert(well_formed_token(ts[0]));
        lemma_spelling_lexes(ts[0]);
        lemma_lex_spell(rest);
        lemma_whitespace_separates(spelling(ts[0]), ' ', spell(rest));
        assert(seq![ts[0]] + rest =~= ts);
    }
}

/// Source text written from an expression, with only the parentheses the
/// grammar needs and a space after each token, lexes and parses back to that
/// expression, wherever its numbers and names are ones the lexer produces.
pub proof fn lemma_source_reads_back(e: ExprV)
    requires
        all_well_formed(show_expr(e)),
    ensures
        match spec_lex(spell(show_expr(e))) {
            Ok(ts) => spec_parse(ts) == Ok::<BlockV, ParseError>(
                BlockV { stmts: seq![], result: e },
            ),
            Err(_) => false,
        },
{
    lemma_lex_spell(show_expr(e));
    lemma_parse_shown(e);
}

} // verus!
