use rollang::{parse, SyntaxKind};

fn check(input: &str, expected_tree: &str) {
    let parsed = parse(input);
    assert_eq!(parsed.debug_tree(), expected_tree);
}

#[test]
fn parse_nothing() {
    check("", "Root@0..0");
}

#[test]
fn parse_whitespace() {
    check("   ", "Root@0..3\n  Whitespace@0..3 \"   \"");
}

#[test]
fn parse_comment() {
    check("# hello!", "Root@0..8\n  Comment@0..8 \"# hello!\"");
}

#[test]
fn parse_binary_expression_interspersed_with_comments() {
    check(
        "\n1\n  + 1 # Add one\n  + 10 # Add ten",
        "Root@0..35\n  Whitespace@0..1 \"\\n\"\n  InfixExpr@1..35\n    InfixExpr@1..21\n      Literal@1..5\n        Number@1..2 \"1\"\n        Whitespace@2..5 \"\\n  \"\n      Plus@5..6 \"+\"\n      Whitespace@6..7 \" \"\n      Literal@7..21\n        Number@7..8 \"1\"\n        Whitespace@8..9 \" \"\n        Comment@9..18 \"# Add one\"\n        Whitespace@18..21 \"\\n  \"\n    Plus@21..22 \"+\"\n    Whitespace@22..23 \" \"\n    Literal@23..35\n      Number@23..25 \"10\"\n      Whitespace@25..26 \" \"\n      Comment@26..35 \"# Add ten\"",
    );
}

#[test]
fn parse_variable_definition() {
    check(
        "let foo = bar",
        "Root@0..13\n  VariableDef@0..13\n    LetKw@0..3 \"let\"\n    Whitespace@3..4 \" \"\n    Ident@4..7 \"foo\"\n    Whitespace@7..8 \" \"\n    Equals@8..9 \"=\"\n    Whitespace@9..10 \" \"\n    VariableRef@10..13\n      Ident@10..13 \"bar\"",
    );
}

#[test]
fn recover_on_let_token() {
    check(
        "let a =\nlet b = a",
        "Root@0..17\n  VariableDef@0..8\n    LetKw@0..3 \"let\"\n    Whitespace@3..4 \" \"\n    Ident@4..5 \"a\"\n    Whitespace@5..6 \" \"\n    Equals@6..7 \"=\"\n    Whitespace@7..8 \"\\n\"\n  VariableDef@8..17\n    LetKw@8..11 \"let\"\n    Whitespace@11..12 \" \"\n    Ident@12..13 \"b\"\n    Whitespace@13..14 \" \"\n    Equals@14..15 \"=\"\n    Whitespace@15..16 \" \"\n    VariableRef@16..17\n      Ident@16..17 \"a\"",
    );
}

#[test]
fn parse_multiple_statements() {
    check(
        "let a = 1\na",
        "Root@0..11\n  VariableDef@0..10\n    LetKw@0..3 \"let\"\n    Whitespace@3..4 \" \"\n    Ident@4..5 \"a\"\n    Whitespace@5..6 \" \"\n    Equals@6..7 \"=\"\n    Whitespace@7..8 \" \"\n    Literal@8..10\n      Number@8..9 \"1\"\n      Whitespace@9..10 \"\\n\"\n  VariableRef@10..11\n    Ident@10..11 \"a\"",
    );
}

#[test]
fn left_associative_addition() {
    check(
        "1 + 1 + 10",
        "Root@0..10\n  InfixExpr@0..10\n    InfixExpr@0..6\n      Literal@0..2\n        Number@0..1 \"1\"\n        Whitespace@1..2 \" \"\n      Plus@2..3 \"+\"\n      Whitespace@3..4 \" \"\n      Literal@4..6\n        Number@4..5 \"1\"\n        Whitespace@5..6 \" \"\n    Plus@6..7 \"+\"\n    Whitespace@7..8 \" \"\n    Literal@8..10\n      Number@8..10 \"10\"",
    );
}

#[test]
fn multiplication_binds_tighter_than_addition() {
    check(
        "1 + 2 * 3",
        "Root@0..9\n  InfixExpr@0..9\n    Literal@0..2\n      Number@0..1 \"1\"\n      Whitespace@1..2 \" \"\n    Plus@2..3 \"+\"\n    Whitespace@3..4 \" \"\n    InfixExpr@4..9\n      Literal@4..6\n        Number@4..5 \"2\"\n        Whitespace@5..6 \" \"\n      Star@6..7 \"*\"\n      Whitespace@7..8 \" \"\n      Literal@8..9\n        Number@8..9 \"3\"",
    );
}

#[test]
fn unary_minus_binds_tighter_than_addition() {
    check(
        "-1 + 2",
        "Root@0..6\n  InfixExpr@0..6\n    PrefixExpr@0..3\n      Minus@0..1 \"-\"\n      Literal@1..3\n        Number@1..2 \"1\"\n        Whitespace@2..3 \" \"\n    Plus@3..4 \"+\"\n    Whitespace@4..5 \" \"\n    Literal@5..6\n      Number@5..6 \"2\"",
    );
}

#[test]
fn unexpected_token_becomes_error_node() {
    check(")", "Root@0..1\n  Error@0..1\n    RParen@0..1 \")\"");
}

#[test]
fn paren_expression() {
    check(
        "(1)",
        "Root@0..3\n  ParenExpr@0..3\n    LParen@0..1 \"(\"\n    Literal@1..2\n      Number@1..2 \"1\"\n    RParen@2..3 \")\"",
    );
}

#[test]
fn missing_close_paren_is_diagnosed_without_consuming() {
    let parsed = parse("(1");
    assert_eq!(
        parsed.debug_tree(),
        "Root@0..2\n  ParenExpr@0..2\n    LParen@0..1 \"(\"\n    Literal@1..2\n      Number@1..2 \"1\""
    );
    assert_eq!(parsed.errors.len(), 1);
    assert_eq!(parsed.errors[0].expected, Some(SyntaxKind::RParen));
}

#[test]
fn missing_equals_is_diagnosed() {
    let parsed = parse("let a 1");
    assert_eq!(parsed.errors.len(), 1);
    assert_eq!(parsed.errors[0].expected, Some(SyntaxKind::Equals));
}

#[test]
fn round_trip_reproduces_input_exactly() {
    let cases = [
        "",
        "   ",
        "let a = 1\na",
        "let a =\nlet b = a",
        "\n1\n  + 1 # Add one\n  + 10 # Add ten",
        "((((",
        "0d5 @@ ??",
        "let = = let let",
        "a+b*c/d-e",
        "- - -1",
        "# only a comment",
    ];
    for input in cases {
        let parsed = parse(input);
        assert_eq!(parsed.syntax().text(), input);
    }
}

#[test]
fn trivia_stays_next_to_its_token() {
    // The comment and the newline after `1` must stay immediately after it
    // inside the same literal, in their original order.
    let parsed = parse("1 # one\n+ 2");
    assert_eq!(
        parsed.debug_tree(),
        "Root@0..11\n  InfixExpr@0..11\n    Literal@0..8\n      Number@0..1 \"1\"\n      Whitespace@1..2 \" \"\n      Comment@2..7 \"# one\"\n      Whitespace@7..8 \"\\n\"\n    Plus@8..9 \"+\"\n    Whitespace@9..10 \" \"\n    Literal@10..11\n      Number@10..11 \"2\""
    );
}

#[test]
fn positions_count_utf8_bytes() {
    // One character outside the vocabulary, two bytes wide: the ranges
    // count bytes, not characters.
    check("\u{3c0}", "Root@0..2\n  Error@0..2\n    Error@0..2 \"\u{3c0}\"");
}

#[test]
fn control_characters_render_escaped() {
    check("\u{1}", "Root@0..1\n  Error@0..1\n    Error@0..1 \"\\u{1}\"");
    // A control character of the second block: two bytes wide, escaped
    // with two hexadecimal digits.
    check("\u{85}", "Root@0..2\n  Error@0..2\n    Error@0..2 \"\\u{85}\"");
}

#[test]
fn dice_literal_parses_as_literal_node() {
    check(
        "2d6",
        "Root@0..3\n  Literal@0..3\n    Dice@0..3 \"2d6\"",
    );
}
