use rollang::token_kind::lex;
use rollang::{Lexer, Token, TokenKind};

fn check(input: &str, kind: TokenKind) {
    let mut lexer = Lexer::new(input);
    assert_eq!(
        lexer.next(),
        Some(Token {
            kind: Ok(kind),
            text: input.to_string()
        })
    );
}

#[test]
fn token_kind_lex_whitespace() {
    check("   ", TokenKind::Whitespace);
}

#[test]
fn token_kind_lex_number() {
    check("200", TokenKind::Number);
    check("24518672", TokenKind::Number);
}

#[test]
fn token_kind_lex_dice() {
    check("d20", TokenKind::Dice);
    check("1d20", TokenKind::Dice);
    check("100d24", TokenKind::Dice);
}

#[test]
fn token_kind_lex_alphabetic_identifier() {
    check("abcd", TokenKind::Ident);
}

#[test]
fn token_kind_lex_alphanumeric_identifier() {
    check("ab123cde456", TokenKind::Ident);
}

#[test]
fn token_kind_lex_mixed_case_identifier() {
    check("ABCdef", TokenKind::Ident);
}

#[test]
fn token_kind_lex_single_char_identifier() {
    check("x", TokenKind::Ident);
}

#[test]
fn token_kind_lex_left_parenthesis() {
    check("(", TokenKind::LParen);
}

#[test]
fn token_kind_lex_right_parenthesis() {
    check(")", TokenKind::RParen);
}

#[test]
fn token_kind_lex_plus() {
    check("+", TokenKind::Plus);
}

#[test]
fn token_kind_lex_minus() {
    check("-", TokenKind::Minus);
}

#[test]
fn token_kind_lex_comment() {
    check("# foo", TokenKind::Comment);
}

#[test]
fn token_kind_lex_newlines() {
    check(" \n ", TokenKind::Whitespace);
}

#[test]
fn lex_let_keyword() {
    check("let", TokenKind::Let);
}

#[test]
fn lex_let_prefixed_identifier() {
    check("letx", TokenKind::Ident);
}

#[test]
fn lex_bare_d_is_identifier() {
    check("d", TokenKind::Ident);
}

#[test]
fn lex_dice_loses_to_longer_identifier() {
    check("d2x", TokenKind::Ident);
}

#[test]
fn lex_leading_zero_is_unrecognized() {
    let mut lexer = Lexer::new("0");
    assert_eq!(
        lexer.next(),
        Some(Token {
            kind: Err(()),
            text: "0".to_string()
        })
    );
    assert_eq!(lexer.next(), None);
}

#[test]
fn lex_zero_count_dice_splits() {
    let tokens = lex("0d5");
    let kinds: Vec<Result<TokenKind, ()>> = tokens.iter().map(|t| t.kind).collect();
    assert_eq!(kinds, vec![Err(()), Ok(TokenKind::Dice)]);
    assert_eq!(tokens[0].text, "0");
    assert_eq!(tokens[1].text, "d5");
}

#[test]
fn lex_covers_every_character() {
    let input = "let a = 1d6 + (2 * x) # done\n@!";
    let tokens = lex(input);
    let mut joined = String::new();
    for t in tokens.iter() {
        joined.push_str(&t.text);
    }
    assert_eq!(joined, input);
}

#[test]
fn lex_equals_sign() {
    check("=", TokenKind::Equals);
}

#[test]
fn lex_star_and_slash() {
    check("*", TokenKind::Star);
    check("/", TokenKind::Slash);
}
