//! The lexer: source text to tokens. `spec_lex` states the token rules;
//! whitespace separates tokens and is otherwise ignored.
use vstd::prelude::*;
use vstd::std_specs::iter::IteratorSpec;

verus! {

/// The tokens of the language.
#[derive(Debug, Clone, PartialEq)]
pub enum Token {
    Num(i64),
    Ident(String),
    Let,
    If,
    Else,
    True,
    False,
    Plus,
    Minus,
    Star,
    Slash,
    LParen,
    RParen,
    LBrace,
    RBrace,
    Eq,
    Semi,
    Lt,
    Gt,
    Le,
    Ge,
    EqEq,
    BangEq,
}

/// The model of a token: an identifier is its character sequence.
pub enum TokenV {
    Num(i64),
    Ident(Seq<char>),
    Let,
    If,
    Else,
    True,
    False,
    Plus,
    Minus,
    Star,
    Slash,
    LParen,
    RParen,
    LBrace,
    RBrace,
    Eq,
    Semi,
    Lt,
    Gt,
    Le,
    Ge,
    EqEq,
    BangEq,
}

impl View for Token {
    type V = TokenV;

    open spec fn view(&self) -> TokenV {
        match self {
            Token::Num(n) => TokenV::Num(*n),
            Token::Ident(s) => TokenV::Ident(s@),
            Token::Let => TokenV::Let,
            Token::If => TokenV::If,
            Token::Else => TokenV::Else,
            Token::True => TokenV::True,
            Token::False => TokenV::False,
            Token::Plus => TokenV::Plus,
            Token::Minus => TokenV::Minus,
            Token::Star => TokenV::Star,
            Token::Slash => TokenV::Slash,
            Token::LParen => TokenV::LParen,
            Token::RParen => TokenV::RParen,
            Token::LBrace => TokenV::LBrace,
            Token::RBrace => TokenV::RBrace,
            Token::Eq => TokenV::Eq,
            Token::Semi => TokenV::Semi,
            Token::Lt => TokenV::Lt,
            Token::Gt => TokenV::Gt,
            Token::Le => TokenV::Le,
            Token::Ge => TokenV::Ge,
            Token::EqEq => TokenV::EqEq,
            Token::BangEq => TokenV::BangEq,
        }
    }
}

/// The model of a token sequence.
pub open spec fn tokens_view(ts: Seq<Token>) -> Seq<TokenV> {
    ts.map_values(|t: Token| t@)
}

/// Why a text cannot be split into tokens.
#[derive(Debug, Clone, Copy, PartialEq, Eq, Structural)]
pub enum LexError {
    /// A character that starts no token.
    UnexpectedChar(char),
    /// A run of digits whose value exceeds `i64::MAX`.
    NumberTooLarge,
}

pub open spec fn is_space(c: char) -> bool {
    c == ' ' || c == '\t' || c == '\n' || c == '\r'
}

pub open spec fn is_digit(c: char) -> bool {
    '0' <= c && c <= '9'
}

pub open spec fn is_ident_start(c: char) -> bool {
    ('a' <= c && c <= 'z') || ('A' <= c && c <= 'Z') || c == '_'
}

pub open spec fn is_ident_char(c: char) -> bool {
    is_ident_start(c) || is_digit(c)
}

pub open spec fn digit_value(c: char) -> int {
    (c as int) - ('0' as int)
}

/// The decimal value of a digit string (most significant digit first).
pub open spec fn digits_value(d: Seq<char>) -> int
    decreases d.len(),
{
    if d.len() == 0 {
        0
    } else {
        digits_value(d.drop_last()) * 10 + digit_value(d.last())
    }
}

/// The end of the longest run of characters satisfying `p` that starts at `i`.
pub open spec fn run_end(s: Seq<char>, i: int, p: spec_fn(char) -> bool) -> int
    decreases s.len() - i,
{
    if 0 <= i < s.len() && p(s[i]) {
        run_end(s, i + 1, p)
    } else {
        i
    }
}

/// A word of letters, digits and underscores is a keyword or an identifier.
pub open spec fn word_token(w: Seq<char>) -> TokenV {
    if w == seq!['l', 'e', 't'] {
        TokenV::Let
    } else if w == seq!['i', 'f'] {
        TokenV::If
    } else if w == seq!['e', 'l', 's', 'e'] {
        TokenV::Else
    } else if w == seq!['t', 'r', 'u', 'e'] {
        TokenV::True
    } else if w == seq!['f', 'a', 'l', 's', 'e'] {
        TokenV::False
    } else {
        TokenV::Ident(w)
    }
}

/// The punctuation token at `i`, with the number of characters it spans.
pub open spec fn punct_token(s: Seq<char>, i: int) -> Option<(TokenV, int)> {
    let c = s[i];
    let next_is_eq = i + 1 < s.len() && s[i + 1] == '=';
    if c == '+' {
        Some((TokenV::Plus, 1))
    } else if c == '-' {
        Some((TokenV::Minus, 1))
    } else if c == '*' {
        Some((TokenV::Star, 1))
    } else if c == '/' {
        Some((TokenV::Slash, 1))
    } else if c == '(' {
        Some((TokenV::LParen, 1))
    } else if c == ')' {
        Some((TokenV::RParen, 1))
    } else if c == '{' {
        Some((TokenV::LBrace, 1))
    } else if c == '}' {
        Some((TokenV::RBrace, 1))
    } else if c == ';' {
        Some((TokenV::Semi, 1))
    } else if c == '<' {
        if next_is_eq { Some((TokenV::Le, 2)) } else { Some((TokenV::Lt, 1)) }
    } else if c == '>' {
        if next_is_eq { Some((TokenV::Ge, 2)) } else { Some((TokenV::Gt, 1)) }
    } else if c == '=' {
        if next_is_eq { Some((TokenV::EqEq, 2)) } else { Some((TokenV::Eq, 1)) }
    } else if c == '!' && next_is_eq {
        Some((TokenV::BangEq, 2))
    } else {
        None
    }
}

pub open spec fn prepend(t: TokenV, r: Result<Seq<TokenV>, LexError>) -> Result<Seq<TokenV>, LexError> {
    match r {
        Ok(ts) => Ok(seq![t] + ts),
        Err(e) => Err(e),
    }
}

pub open spec fn prepend_all(pre: Seq<TokenV>, r: Result<Seq<TokenV>, LexError>) -> Result<Seq<TokenV>, LexError> {
    match r {
        Ok(ts) => Ok(pre + ts),
        Err(e) => Err(e),
    }
}

/// The end of a run lies between its start and the end of the text, every
/// character of the run satisfies the predicate, and the next one does not.
pub proof fn lemma_run_end(s: Seq<char>, i: int, p: spec_fn(char) -> bool)
    requires
        0 <= i <= s.len(),
    ensures
        i <= run_end(s, i, p) <= s.len(),
        i < s.len() && p(s[i]) ==> i < run_end(s, i, p),
        forall|k: int| i <= k < run_end(s, i, p) ==> p(#[trigger] s[k]),
        run_end(s, i, p) < s.len() ==> !p(s[run_end(s, i, p)]),
    decreases s.len() - i,
{
    if i < s.len() && p(s[i]) {
        lemma_run_end(s, i + 1, p);
    }
}

/// The tokens of `s` from position `i` on, or the first error met there.
pub open spec fn lex_from(s: Seq<char>, i: int) -> Result<Seq<TokenV>, LexError>
    decreases s.len() - i,
{
    if i < 0 || i >= s.len() {
        Ok(seq![])
    } else {
        let c = s[i];
        if is_space(c) {
            lex_from(s, i + 1)
        } else if is_digit(c) {
            let j = run_end(s, i, |x: char| is_digit(x));
            proof {
                lemma_run_end(s, i, |x: char| is_digit(x));
            }
            let v = digits_value(s.subrange(i, j));
            if v > i64::MAX {
                Err(LexError::NumberTooLarge)
            } else {
                prepend(TokenV::Num(v as i64), lex_from(s, j))
            }
        } else if is_ident_start(c) {
            let j = run_end(s, i, |x: char| is_ident_char(x));
            proof {
                lemma_run_end(s, i, |x: char| is_ident_char(x));
            }
            prepend(word_token(s.subrange(i, j)), lex_from(s, j))
        } else {
            match punct_token(s, i) {
                Some((t, n)) => if n >= 1 {
                    prepend(t, lex_from(s, i + n))
                } else {
                    Err(LexError::UnexpectedChar(c))
                },
                None => Err(LexError::UnexpectedChar(c)),
            }
        }
    }
}

/// The tokens of a source text: whitespace separates tokens and is otherwise
/// ignored, numbers are maximal digit runs, words are maximal runs of letters,
/// digits and underscores starting with a letter or underscore.
pub open spec fn spec_lex(s: Seq<char>) -> Result<Seq<TokenV>, LexError> {
    lex_from(s, 0)
}


/// A run that satisfies the predicate up to `j` and stops there ends at `j`.
pub proof fn lemma_run_end_exact(s: Seq<char>, i: int, j: int, p: spec_fn(char) -> bool)
    requires
        0 <= i <= j <= s.len(),
        forall|k: int| i <= k < j ==> p(#[trigger] s[k]),
        j < s.len() ==> !p(s[j]),
    ensures
        run_end(s, i, p) == j,
    decreases j - i,
{
    if i < j {
        lemma_run_end_exact(s, i + 1, j, p);
    }
}

/// A digit string denotes a non-negative number.
pub proof fn lemma_digits_value_nonneg(d: Seq<char>)
    requires
        forall|k: int| 0 <= k < d.len() ==> is_digit(#[trigger] d[k]),
    ensures
        digits_value(d) >= 0,
    decreases d.len(),
{
    if d.len() > 0 {
        lemma_digits_value_nonneg(d.drop_last());
    }
}

/// A longer run of digits has at least the value of its prefix.
pub proof fn lemma_digits_value_monotone(s: Seq<char>, i: int, a: int, b: int)
    requires
        0 <= i <= a <= b <= s.len(),
        forall|k: int| i <= k < b ==> is_digit(#[trigger] s[k]),
    ensures
        digits_value(s.subrange(i, a)) <= digits_value(s.subrange(i, b)),
    decreases b - a,
{
    if a < b {
        lemma_digits_value_monotone(s, i, a, b - 1);
        assert(s.subrange(i, b).drop_last() =~= s.subrange(i, b - 1));
        lemma_digits_value_nonneg(s.subrange(i, b - 1));
    }
}

/// Putting a token in front of a lexing result and then a prefix in front
/// of that is putting the prefix with the token appended in front of it.
pub proof fn lemma_prepend_step(pre: Seq<TokenV>, t: TokenV, r: Result<Seq<TokenV>, LexError>)
    ensures
        prepend_all(pre, prepend(t, r)) == prepend_all(pre.push(t), r),
{
    if let Ok(ts) = r {
        assert(pre + (seq![t] + ts) =~= pre.push(t) + ts);
    }
}

/// Viewing a token list with one more token appends that token's view.
pub proof fn lemma_tokens_view_push(ts: Seq<Token>, t: Token)
    ensures
        tokens_view(ts.push(t)) == tokens_view(ts).push(t@),
{
    assert(tokens_view(ts.push(t)) =~= tokens_view(ts).push(t@));
}

/// The characters of a string, in order.
fn chars_of(input: &str) -> (v: Vec<char>)
    ensures
        v@ == input@,
{
    broadcast use vstd::string::group_string_axioms;

    let mut chars = input.chars();
    let mut v: Vec<char> = Vec::new();
    loop
        invariant
            v@ + chars.remaining() == input@,
        ensures
            v@ == input@,
        decreases input@.len() - v@.len(),
    {
        match chars.next() {
            Some(c) => {
                v.push(c);
                assert(v@ + chars.remaining() =~= input@);
            },
            None => {
                assert(v@ =~= input@);
                break ;
            },
        }
    }
    v
}

/// Splits `input` into tokens; fails with the first character that starts no
/// token, or with the first number too large for `i64`.
pub fn try_lex(input: &str) -> (r: Result<Vec<Token>, LexError>)
    ensures
        r is Ok <==> spec_lex(input@) is Ok,
        r matches Ok(ts) ==> spec_lex(input@) == Ok::<_, LexError>(tokens_view(ts@)),
        r matches Err(e) ==> spec_lex(input@) == Err::<Seq<TokenV>, _>(e),
{
    let s = chars_of(input);
    let n = s.len();
    let mut tokens: Vec<Token> = Vec::new();
    let mut i: usize = 0;
    assert(tokens_view(tokens@) =~= Seq::<TokenV>::empty());
    assert(prepend_all(Seq::empty(), lex_from(s@, 0)) =~= lex_from(s@, 0)) by {
        if let Ok(ts) = lex_from(s@, 0) {
            assert(Seq::<TokenV>::empty() + ts =~= ts);
        }
    }
    while i < n
        invariant
            s@ == input@,
            n == s.len(),
            i <= n,
            spec_lex(s@) == prepend_all(tokens_view(tokens@), lex_from(s@, i as int)),
        decreases n - i,
    {
        let c = s[i];
        if c == ' ' || c == '\t' || c == '\n' || c == '\r' {
            i = i + 1;
        } else if '0' <= c && c <= '9' {
            let start = i;
            let mut v: i64 = 0;
            while i < n && '0' <= s[i] && s[i] <= '9'
                invariant
                    s@ == input@,
                    n == s.len(),
                    start < n,
                    is_digit(s@[start as int]),
                    start <= i <= n,
                    forall|k: int| start <= k < i ==> is_digit(#[trigger] s@[k]),
                    v == digits_value(s@.subrange(start as int, i as int)),
                    spec_lex(s@) == prepend_all(tokens_view(tokens@), lex_from(s@, start as int)),
                decreases n - i,
            {
                let d = ((s[i] as u32) - ('0' as u32)) as i64;
                let ghost next = s@.subrange(start as int, i + 1);
                assert(next.drop_last() =~= s@.subrange(start as int, i as int));
                let m = v.checked_mul(10);
                let sum = match m {
                    Some(m) => m.checked_add(d),
                    None => None,
                };
                match sum {
                    Some(w) => {
                        v = w;
                        i = i + 1;
                    },
                    None => {
                        proof {
                            lemma_digits_value_nonneg(s@.subrange(start as int, i as int));
                            let j = run_end(s@, start as int, |x: char| is_digit(x));
                            lemma_run_end(s@, start as int, |x: char| is_digit(x));
                            assert(s@[i as int] == next.last());
                            assert(i < j) by {
                                if j <= i {
                                    assert(is_digit(s@[i as int]));
                                    if j == i {
                                    } else {
                                        assert(is_digit(s@[j]));
                                    }
                                }
                            }
                            lemma_digits_value_monotone(s@, start as int, i + 1, j);
                        }
                        return Err(LexError::NumberTooLarge);
                    },
                }
            }
            proof {
                lemma_run_end_exact(s@, start as int, i as int, |x: char| is_digit(x));
                lemma_prepend_step(tokens_view(tokens@), TokenV::Num(v), lex_from(s@, i as int));
                lemma_tokens_view_push(tokens@, Token::Num(v));
            }
            tokens.push(Token::Num(v));
        } else if ('a' <= c && c <= 'z') || ('A' <= c && c <= 'Z') || c == '_' {
            let start = i;
            while i < n && (('a' <= s[i] && s[i] <= 'z') || ('A' <= s[i] && s[i] <= 'Z') || s[i] == '_'
                || ('0' <= s[i] && s[i] <= '9'))
                invariant
                    s@ == input@,
                    n == s.len(),
                    start < i || i == start,
                    start <= i <= n,
                    forall|k: int| start <= k < i ==> is_ident_char(#[trigger] s@[k]),
                decreases n - i,
            {
                i = i + 1;
            }
            proof {
                lemma_run_end_exact(s@, start as int, i as int, |x: char| is_ident_char(x));
            }
            let t = word_token_exec(&s, start, i, input);
            proof {
                lemma_prepend_step(tokens_view(tokens@), t@, lex_from(s@, i as int));
                lemma_tokens_view_push(tokens@, t);
            }
            tokens.push(t);
        } else {
            let next_is_eq = i + 1 < n && s[i + 1] == '=';
            let (t, width): (Token, usize) = if c == '+' {
                (Token::Plus, 1)
            } else if c == '-' {
                (Token::Minus, 1)
            } else if c == '*' {
                (Token::Star, 1)
            } else if c == '/' {
                (Token::Slash, 1)
            } else if c == '(' {
                (Token::LParen, 1)
            } else if c == ')' {
                (Token::RParen, 1)
            } else if c == '{' {
                (Token::LBrace, 1)
            } else if c == '}' {
                (Token::RBrace, 1)
            } else if c == ';' {
                (Token::Semi, 1)
            } else if c == '<' {
                if next_is_eq { (Token::Le, 2) } else { (Token::Lt, 1) }
            } else if c == '>' {
                if next_is_eq { (Token::Ge, 2) } else { (Token::Gt, 1) }
            } else if c == '=' {
                if next_is_eq { (Token::EqEq, 2) } else { (Token::Eq, 1) }
            } else if c == '!' && next_is_eq {
                (Token::BangEq, 2)
            } else {
                return Err(LexError::UnexpectedChar(c));
            };
            proof {
                assert(punct_token(s@, i as int) == Some((t@, width as int)));
                lemma_prepend_step(tokens_view(tokens@), t@, lex_from(s@, i + width));
                lemma_tokens_view_push(tokens@, t);
            }
            tokens.push(t);
            i = i + width;
        }
    }
    Ok(tokens)
}

/// The word `s[start..end]` and its characters, spelled out for words of
/// up to five characters (the longest keyword).
proof fn lemma_word_chars(s: Seq<char>, start: int, end: int)
    requires
        0 <= start <= end <= s.len(),
    ensures
        ({
            let w = s.subrange(start, end);
            &&& w.len() == end - start
            &&& w.len() > 0 ==> w[0] == s[start]
            &&& w.len() > 1 ==> w[1] == s[start + 1]
            &&& w.len() > 2 ==> w[2] == s[start + 2]
            &&& w.len() > 3 ==> w[3] == s[start + 3]
            &&& w.len() > 4 ==> w[4] == s[start + 4]
        }),
{
}

/// The keyword or identifier token for the word `s[start..end]`.
fn word_token_exec(s: &Vec<char>, start: usize, end: usize, input: &str) -> (t: Token)
    requires
        start < end <= s.len(),
        s@ == input@,
    ensures
        t@ == word_token(s@.subrange(start as int, end as int)),
{
    let ghost w = s@.subrange(start as int, end as int);
    let len = end - start;
    if len == 3 && s[start] == 'l' && s[start + 1] == 'e' && s[start + 2] == 't' {
        assert(w =~= seq!['l', 'e', 't']);
        Token::Let
    } else if len == 2 && s[start] == 'i' && s[start + 1] == 'f' {
        assert(w =~= seq!['i', 'f']);
        Token::If
    } else if len == 4 && s[start] == 'e' && s[start + 1] == 'l' && s[start + 2] == 's' && s[start
        + 3] == 'e' {
        assert(w =~= seq!['e', 'l', 's', 'e']);
        Token::Else
    } else if len == 4 && s[start] == 't' && s[start + 1] == 'r' && s[start + 2] == 'u' && s[start
        + 3] == 'e' {
        assert(w =~= seq!['t', 'r', 'u', 'e']);
        Token::True
    } else if len == 5 && s[start] == 'f' && s[start + 1] == 'a' && s[start + 2] == 'l' && s[start
        + 3] == 's' && s[start + 4] == 'e' {
        assert(w =~= seq!['f', 'a', 'l', 's', 'e']);
        Token::False
    } else {
        proof {
            lemma_word_chars(s@, start as int, end as int);
        }
        assert(w != seq!['l', 'e', 't']);
        assert(w != seq!['i', 'f']);
        assert(w != seq!['e', 'l', 's', 'e']);
        assert(w != seq!['t', 'r', 'u', 'e']);
        assert(w != seq!['f', 'a', 'l', 's', 'e']);
        let name = String::from_str(input.substring_char(start, end));
        Token::Ident(name)
    }
}

/// Splits `input` into tokens. The input must lex: see `try_lex` for the
/// total version that reports why it does not.
pub fn lex(input: &str) -> (ts: Vec<Token>)
    requires
        spec_lex(input@) is Ok,
    ensures
        spec_lex(input@) == Ok::<_, LexError>(tokens_view(ts@)),
{
    match try_lex(input) {
        Ok(ts) => ts,
        Err(_) => {
            assert(false);
            Vec::new()
        },
    }
}


pub open spec fn is_keyword(w: Seq<char>) -> bool {
    ||| w == seq!['l', 'e', 't']
    ||| w == seq!['i', 'f']
    ||| w == seq!['e', 'l', 's', 'e']
    ||| w == seq!['t', 'r', 'u', 'e']
    ||| w == seq!['f', 'a', 'l', 's', 'e']
}

/// A number token is never negative (a leading `-` is a token of its own);
/// an identifier is a letter or `_` followed by letters, digits and `_`, and
/// is never a keyword.
pub open spec fn well_formed_token(t: TokenV) -> bool {
    match t {
        TokenV::Num(n) => n >= 0,
        TokenV::Ident(w) => {
            &&& w.len() > 0
            &&& is_ident_start(w[0])
            &&& forall|k: int| 0 <= k < w.len() ==> is_ident_char(#[trigger] w[k])
            &&& !is_keyword(w)
        },
        _ => true,
    }
}

pub open spec fn all_well_formed(ts: Seq<TokenV>) -> bool {
    forall|k: int| 0 <= k < ts.len() ==> well_formed_token(#[trigger] ts[k])
}

proof fn lemma_prepend_well_formed(t: TokenV, r: Result<Seq<TokenV>, LexError>)
    requires
        well_formed_token(t),
        r matches Ok(ts) ==> all_well_formed(ts),
    ensures
        prepend(t, r) matches Ok(ts) ==> all_well_formed(ts),
{
    if let Ok(ts) = r {
        let out = seq![t] + ts;
        assert forall|k: int| 0 <= k < out.len() implies well_formed_token(#[trigger] out[k]) by {
            if k > 0 {
                assert(out[k] == ts[k - 1]);
            }
        }
    }
}

proof fn lemma_lex_from_well_formed(s: Seq<char>, i: int)
    ensures
        lex_from(s, i) matches Ok(ts) ==> all_well_formed(ts),
    decreases s.len() - i,
{
    if 0 <= i < s.len() {
        let c = s[i];
        if is_space(c) {
            lemma_lex_from_well_formed(s, i + 1);
        } else if is_digit(c) {
            let j = run_end(s, i, |x: char| is_digit(x));
            lemma_run_end(s, i, |x: char| is_digit(x));
            let d = s.subrange(i, j);
            assert forall|k: int| 0 <= k < d.len() implies is_digit(#[trigger] d[k]) by {
                assert(d[k] == s[i + k]);
            }
            lemma_digits_value_nonneg(d);
            lemma_lex_from_well_formed(s, j);
            if digits_value(d) <= i64::MAX {
                lemma_prepend_well_formed(TokenV::Num(digits_value(d) as i64), lex_from(s, j));
            }
        } else if is_ident_start(c) {
            let j = run_end(s, i, |x: char| is_ident_char(x));
            lemma_run_end(s, i, |x: char| is_ident_char(x));
            let w = s.subrange(i, j);
            assert forall|k: int| 0 <= k < w.len() implies is_ident_char(#[trigger] w[k]) by {
                assert(w[k] == s[i + k]);
            }
            assert(w[0] == c);
            lemma_lex_from_well_formed(s, j);
            lemma_prepend_well_formed(word_token(w), lex_from(s, j));
        } else {
            if let Some((t, n)) = punct_token(s, i) {
                if n >= 1 {
                    lemma_lex_from_well_formed(s, i + n);
                    lemma_prepend_well_formed(t, lex_from(s, i + n));
                }
            }
        }
    }
}

/// Every token the lexer produces is well formed; in particular the keywords
/// `let`, `if`, `else`, `true`, `false` are reserved and never identifiers.
pub proof fn lemma_lex_tokens_well_formed(s: Seq<char>)
    ensures
        spec_lex(s) matches Ok(ts) ==> all_well_formed(ts),
{
    lemma_lex_from_well_formed(s, 0);
}

/// The tokens of two results in sequence, or the first error.
pub open spec fn join(r1: Result<Seq<TokenV>, LexError>, r2: Result<Seq<TokenV>, LexError>) -> Result<
    Seq<TokenV>,
    LexError,
> {
    match r1 {
        Ok(a) => match r2 {
            Ok(b) => Ok(a + b),
            Err(e) => Err(e),
        },
        Err(e) => Err(e),
    }
}

proof fn lemma_run_end_shift(c: Seq<char>, b: Seq<char>, j: int, p: spec_fn(char) -> bool)
    requires
        0 <= j <= b.len(),
    ensures
        run_end(c + b, c.len() + j, p) == c.len() + run_end(b, j, p),
    decreases b.len() - j,
{
    if j < b.len() {
        assert((c + b)[c.len() + j] == b[j]);
        if p(b[j]) {
            lemma_run_end_shift(c, b, j + 1, p);
        }
    }
}

proof fn lemma_run_end_prefix(a: Seq<char>, s: Seq<char>, i: int, p: spec_fn(char) -> bool)
    requires
        0 <= i <= a.len() < s.len(),
        s.subrange(0, a.len() as int) == a,
        !p(s[a.len() as int]),
    ensures
        run_end(s, i, p) == run_end(a, i, p),
    decreases a.len() - i,
{
    if i < a.len() {
        assert(s[i] == s.subrange(0, a.len() as int)[i]);
        if p(a[i]) {
            lemma_run_end_prefix(a, s, i + 1, p);
        }
    }
}

/// Lexing from inside the suffix `b` of `c + b` only depends on `b`.
proof fn lemma_lex_shift(c: Seq<char>, b: Seq<char>, j: int)
    requires
        0 <= j <= b.len(),
    ensures
        lex_from(c + b, c.len() + j) == lex_from(b, j),
    decreases b.len() - j,
{
    let s = c + b;
    let i = c.len() + j;
    if j < b.len() {
        let ch = b[j];
        assert(s[i] == ch);
        if is_space(ch) {
            lemma_lex_shift(c, b, j + 1);
        } else if is_digit(ch) {
            lemma_run_end(b, j, |x: char| is_digit(x));
            lemma_run_end_shift(c, b, j, |x: char| is_digit(x));
            let jb = run_end(b, j, |x: char| is_digit(x));
            assert(s.subrange(i, c.len() + jb) =~= b.subrange(j, jb));
            lemma_lex_shift(c, b, jb);
        } else if is_ident_start(ch) {
            lemma_run_end(b, j, |x: char| is_ident_char(x));
            lemma_run_end_shift(c, b, j, |x: char| is_ident_char(x));
            let jb = run_end(b, j, |x: char| is_ident_char(x));
            assert(s.subrange(i, c.len() + jb) =~= b.subrange(j, jb));
            lemma_lex_shift(c, b, jb);
        } else {
            if j + 1 < b.len() {
                assert(s[i + 1] == b[j + 1]);
            }
            assert(punct_token(s, i) == punct_token(b, j));
            if let Some((t, n)) = punct_token(b, j) {
                if n >= 1 {
                    lemma_lex_shift(c, b, j + n);
                }
            }
        }
    }
}

proof fn lemma_join_prepend(t: TokenV, r1: Result<Seq<TokenV>, LexError>, r2: Result<Seq<TokenV>, LexError>)
    ensures
        prepend(t, join(r1, r2)) == join(prepend(t, r1), r2),
{
    if let Ok(x) = r1 {
        if let Ok(y) = r2 {
            assert(seq![t] + (x + y) =~= (seq![t] + x) + y);
        }
    }
}

/// Lexing `a + [w] + b` up to `w` yields the tokens of `a`, when `w` can
/// neither extend a number or word of `a` nor complete a two-character
/// operator.
proof fn lemma_lex_prefix(a: Seq<char>, w: char, b: Seq<char>, i: int)
    requires
        !is_digit(w),
        !is_ident_char(w),
        w != '=',
        0 <= i <= a.len(),
    ensures
        lex_from(a + seq![w] + b, i) == join(lex_from(a, i), lex_from(a + seq![w] + b, a.len() as int)),
    decreases a.len() - i,
{
    let s = a + seq![w] + b;
    let n = a.len() as int;
    assert(s[n] == w);
    assert(s.subrange(0, n) =~= a);
    if i == n {
        if let Ok(ts) = lex_from(s, n) {
            assert(Seq::<TokenV>::empty() + ts =~= ts);
        }
    } else {
        let ch = a[i];
        assert(s[i] == ch);
        if is_space(ch) {
            lemma_lex_prefix(a, w, b, i + 1);
        } else if is_digit(ch) {
            lemma_run_end(a, i, |x: char| is_digit(x));
            lemma_run_end_prefix(a, s, i, |x: char| is_digit(x));
            let j = run_end(a, i, |x: char| is_digit(x));
            assert(s.subrange(i, j) =~= a.subrange(i, j));
            lemma_lex_prefix(a, w, b, j);
            let v = digits_value(a.subrange(i, j));
            lemma_join_prepend(TokenV::Num(v as i64), lex_from(a, j), lex_from(s, n));
        } else if is_ident_start(ch) {
            lemma_run_end(a, i, |x: char| is_ident_char(x));
            lemma_run_end_prefix(a, s, i, |x: char| is_ident_char(x));
            let j = run_end(a, i, |x: char| is_ident_char(x));
            assert(s.subrange(i, j) =~= a.subrange(i, j));
            lemma_lex_prefix(a, w, b, j);
            lemma_join_prepend(word_token(a.subrange(i, j)), lex_from(a, j), lex_from(s, n));
        } else {
            if i + 1 < n {
                assert(s[i + 1] == a[i + 1]);
            }
            assert(punct_token(s, i) == punct_token(a, i));
            if let Some((t, k)) = punct_token(a, i) {
                if k >= 1 {
                    lemma_lex_prefix(a, w, b, i + k);
                    lemma_join_prepend(t, lex_from(a, i + k), lex_from(s, n));
                }
            }
        }
    }
}

/// Whitespace separates tokens and is otherwise ignored: the tokens of `a`,
/// a whitespace character, then `b`, are the tokens of `a` followed by the
/// tokens of `b`; when either fails, the first error is reported.
pub proof fn lemma_whitespace_separates(a: Seq<char>, w: char, b: Seq<char>)
    requires
        is_space(w),
    ensures
        spec_lex(a + seq![w] + b) == join(spec_lex(a), spec_lex(b)),
{
    let s = a + seq![w] + b;
    let n = a.len() as int;
    lemma_lex_prefix(a, w, b, 0);
    assert(s[n] == w);
    assert(lex_from(s, n) == lex_from(s, n + 1));
    lemma_lex_shift(a + seq![w], b, 0);
}

/// The characters that are always a token by themselves, whatever stands
/// next to them, and those tokens.
pub open spec fn lone_token(c: char) -> Option<TokenV> {
    match c {
        '+' => Some(TokenV::Plus),
        '-' => Some(TokenV::Minus),
        '*' => Some(TokenV::Star),
        '/' => Some(TokenV::Slash),
        '(' => Some(TokenV::LParen),
        ')' => Some(TokenV::RParen),
        '{' => Some(TokenV::LBrace),
        '}' => Some(TokenV::RBrace),
        ';' => Some(TokenV::Semi),
        _ => None,
    }
}

/// Operators and brackets need no spaces around them: the tokens of `a`, one
/// of `+ - * / ( ) { } ;`, then `b`, are the tokens of `a`, that
/// character's token, then the tokens of `b` (so `2*(x+1)` is `2`, `*`,
/// `(`, `x`, `+`, `1`, `)`); when either side fails, the first error is
/// reported.
pub proof fn lemma_lone_separates(a: Seq<char>, c: char, b: Seq<char>)
    requires
        lone_token(c) is Some,
    ensures
        spec_lex(a + seq![c] + b) == join(
            spec_lex(a),
            prepend(lone_token(c).unwrap(), spec_lex(b)),
        ),
{
    let s = a + seq![c] + b;
    let n = a.len() as int;
    lemma_lex_prefix(a, c, b, 0);
    assert(s[n] == c);
    assert(punct_token(s, n) == Some((lone_token(c).unwrap(), 1int)));
    assert(lex_from(s, n) == prepend(lone_token(c).unwrap(), lex_from(s, n + 1)));
    lemma_lex_shift(a + seq![c], b, 0);
}

/// A minus sign is always a token of its own: the tokens of `a`, `-`, then
/// `b` are the tokens of `a`, then `Minus`, then the tokens of `b` (so
/// `x-1` is `x`, `-`, `1`); when either side fails, the first error is
/// reported.
pub proof fn lemma_minus_separates(a: Seq<char>, b: Seq<char>)
    ensures
        spec_lex(a + seq!['-'] + b) == join(spec_lex(a), prepend(TokenV::Minus, spec_lex(b))),
{
    let s = a + seq!['-'] + b;
    let n = a.len() as int;
    lemma_lex_prefix(a, '-', b, 0);
    assert(s[n] == '-');
    assert(punct_token(s, n) == Some((TokenV::Minus, 1int)));
    assert(lex_from(s, n) == prepend(TokenV::Minus, lex_from(s, n + 1)));
    lemma_lex_shift(a + seq!['-'], b, 0);
}

/// The characters an identifier may have, by their ranges: ASCII letters,
/// digits and `_`.
pub open spec fn ident_chars_ok(t: TokenV) -> bool {
    match t {
        TokenV::Ident(w) => forall|k: int|
            0 <= k < w.len() ==> ('a' <= #[trigger] w[k] <= 'z') || ('A' <= w[k] <= 'Z') || (
            '0' <= w[k] <= '9') || w[k] == '_',
        _ => true,
    }
}

/// Every identifier the lexer produces is made of ASCII letters, digits
/// and underscores only.
pub proof fn lemma_ident_chars(s: Seq<char>)
    ensures
        spec_lex(s) matches Ok(ts) ==> forall|k: int|
            0 <= k < ts.len() ==> ident_chars_ok(#[trigger] ts[k]),
{
    lemma_lex_tokens_well_formed(s);
    if let Ok(ts) = spec_lex(s) {
        assert forall|k: int| 0 <= k < ts.len() implies ident_chars_ok(#[trigger] ts[k]) by {
            assert(well_formed_token(ts[k]));
        }
    }
}

} // verus!
