use tinylang::lexer::{lex, try_lex, LexError, Token};

fn ident(s: &str) -> Token {
    Token::Ident(s.to_string())
}

#[test]
fn lexes_arithmetic() {
    assert_eq!(
        lex("1 + 2 * 3"),
        vec![Token::Num(1), Token::Plus, Token::Num(2), Token::Star, Token::Num(3)]
    );
}

#[test]
fn lexes_parens_minus_and_slash() {
    assert_eq!(
        lex("-(2+3)/4"),
        vec![
            Token::Minus,
            Token::LParen,
            Token::Num(2),
            Token::Plus,
            Token::Num(3),
            Token::RParen,
            Token::Slash,
            Token::Num(4)
        ]
    );
}

#[test]
fn lexes_let_binding() {
    assert_eq!(
        lex("let x = 5;"),
        vec![Token::Let, ident("x"), Token::Eq, Token::Num(5), Token::Semi]
    );
}

#[test]
fn lexes_keywords_and_braces() {
    assert_eq!(
        lex("if true { 1 } else { false }"),
        vec![
            Token::If,
            Token::True,
            Token::LBrace,
            Token::Num(1),
            Token::RBrace,
            Token::Else,
            Token::LBrace,
            Token::False,
            Token::RBrace
        ]
    );
}

#[test]
fn lexes_comparison_operators() {
    assert_eq!(
        lex("< > <= >= == != ="),
        vec![
            Token::Lt,
            Token::Gt,
            Token::Le,
            Token::Ge,
            Token::EqEq,
            Token::BangEq,
            Token::Eq
        ]
    );
}

#[test]
fn two_char_operators_are_maximal() {
    assert_eq!(lex("a<=b"), vec![ident("a"), Token::Le, ident("b")]);
    assert_eq!(lex("a==b"), vec![ident("a"), Token::EqEq, ident("b")]);
}

#[test]
fn whitespace_splits_two_char_operators() {
    assert_eq!(lex("< ="), vec![Token::Lt, Token::Eq]);
    assert_eq!(lex("= ="), vec![Token::Eq, Token::Eq]);
}

#[test]
fn identifiers_take_letters_digits_and_underscores() {
    assert_eq!(lex("_a1 b_2 Zz"), vec![ident("_a1"), ident("b_2"), ident("Zz")]);
}

#[test]
fn keyword_prefixes_are_identifiers() {
    assert_eq!(lex("letx iffy elsewhere truth falsey"), vec![
        ident("letx"),
        ident("iffy"),
        ident("elsewhere"),
        ident("truth"),
        ident("falsey")
    ]);
}

#[test]
fn keywords_are_never_identifiers() {
    for t in lex("let if else true false") {
        assert!(!matches!(t, Token::Ident(_)));
    }
}

#[test]
fn number_then_word() {
    assert_eq!(lex("12abc"), vec![Token::Num(12), ident("abc")]);
}

#[test]
fn negative_literal_is_minus_then_number() {
    assert_eq!(lex("-5"), vec![Token::Minus, Token::Num(5)]);
}

#[test]
fn all_whitespace_kinds_are_ignored() {
    assert_eq!(lex(" \t1\n+\r2 "), vec![Token::Num(1), Token::Plus, Token::Num(2)]);
    assert_eq!(lex(""), vec![]);
    assert_eq!(lex(" \n\t\r"), vec![]);
}

#[test]
fn whitespace_concatenates_token_lists() {
    let a = "let x=1";
    let b = ";x*2";
    let mut joined = lex(a);
    joined.extend(lex(b));
    assert_eq!(lex(&format!("{} {}", a, b)), joined);
    assert_eq!(lex(&format!("{}\n{}", a, b)), joined);
}

#[test]
fn largest_number_lexes() {
    assert_eq!(lex("9223372036854775807"), vec![Token::Num(i64::MAX)]);
}

#[test]
fn number_too_large_is_an_error() {
    assert_eq!(try_lex("9223372036854775808"), Err(LexError::NumberTooLarge));
    assert_eq!(try_lex("1 + 99999999999999999999 $"), Err(LexError::NumberTooLarge));
}

#[test]
fn rejects_unknown_character() {
    assert_eq!(try_lex("1 # 2"), Err(LexError::UnexpectedChar('#')));
    assert_eq!(try_lex("x % 2"), Err(LexError::UnexpectedChar('%')));
}

#[test]
fn lone_bang_is_an_error() {
    assert_eq!(try_lex("!x"), Err(LexError::UnexpectedChar('!')));
    assert_eq!(try_lex("1 !"), Err(LexError::UnexpectedChar('!')));
}

#[test]
fn first_error_wins() {
    assert_eq!(try_lex("@ 99999999999999999999"), Err(LexError::UnexpectedChar('@')));
}

#[test]
fn non_ascii_letters_are_rejected() {
    assert_eq!(try_lex("é"), Err(LexError::UnexpectedChar('é')));
}
