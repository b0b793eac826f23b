use pyrsc::{lex, Token};

#[test]
fn empty_input_empty_stream() {
    assert_eq!(lex(""), vec![]);
}

#[test]
fn definition_with_indented_body() {
    let out = lex("def f():\n    return 1\n");
    let expected = vec![
        (Ok(Token::Definition), 0..3),
        (Ok(Token::Identifier(String::from("f"))), 4..5),
        (Ok(Token::LeftParentheses), 5..6),
        (Ok(Token::RightParentheses), 6..7),
        (Ok(Token::Colon), 7..8),
        (Ok(Token::Newline), 8..13),
        (Ok(Token::Indentation), 13..13),
        (Ok(Token::Return), 13..19),
        (Ok(Token::Integer(1)), 20..21),
        (Ok(Token::Newline), 21..22),
        (Ok(Token::Deindentation), 22..22),
    ];
    assert_eq!(out, expected);
}

#[test]
fn inconsistent_dedent_yields_one_error() {
    let out = lex("if x:\n  a\n b\n");
    let expected = vec![
        (Ok(Token::Identifier(String::from("if"))), 0..2),
        (Ok(Token::Identifier(String::from("x"))), 3..4),
        (Ok(Token::Colon), 4..5),
        (Ok(Token::Newline), 5..8),
        (Ok(Token::Indentation), 8..8),
        (Ok(Token::Identifier(String::from("a"))), 8..9),
        (Ok(Token::Newline), 9..11),
        (Ok(Token::Deindentation), 11..11),
        (Err(()), 11..11),
        (Ok(Token::Identifier(String::from("b"))), 11..12),
        (Ok(Token::Newline), 12..13),
    ];
    assert_eq!(out, expected);
}

#[test]
fn unrecognized_character_single_error_then_resync() {
    let out = lex("#x");
    let expected = vec![
        (Err(()), 0..1),
        (Ok(Token::Identifier(String::from("x"))), 1..2),
    ];
    assert_eq!(out, expected);
}

#[test]
fn lone_unrecognized_character() {
    assert_eq!(lex("#"), vec![(Err(()), 0..1)]);
}

#[test]
fn arrow_and_colon() {
    let out = lex("def f() -> x: return x");
    let expected = vec![
        (Ok(Token::Definition), 0..3),
        (Ok(Token::Identifier(String::from("f"))), 4..5),
        (Ok(Token::LeftParentheses), 5..6),
        (Ok(Token::RightParentheses), 6..7),
        (Ok(Token::Arrow), 8..10),
        (Ok(Token::Identifier(String::from("x"))), 11..12),
        (Ok(Token::Colon), 12..13),
        (Ok(Token::Return), 14..20),
        (Ok(Token::Identifier(String::from("x"))), 21..22),
    ];
    assert_eq!(out, expected);
}

#[test]
fn lone_dash_is_an_error() {
    let out = lex("- x");
    let expected = vec![
        (Err(()), 0..1),
        (Ok(Token::Identifier(String::from("x"))), 2..3),
    ];
    assert_eq!(out, expected);
}

#[test]
fn keywords_versus_identifiers() {
    let out = lex("define return returns def");
    let expected = vec![
        (Ok(Token::Identifier(String::from("define"))), 0..6),
        (Ok(Token::Return), 7..13),
        (Ok(Token::Identifier(String::from("returns"))), 14..21),
        (Ok(Token::Definition), 22..25),
    ];
    assert_eq!(out, expected);
}

#[test]
fn largest_integer_fits() {
    let out = lex("9223372036854775807");
    assert_eq!(out, vec![(Ok(Token::Integer(9223372036854775807)), 0..19)]);
}

#[test]
fn integer_overflow_is_one_error_for_the_run() {
    let out = lex("9223372036854775808 x");
    let expected = vec![
        (Err(()), 0..19),
        (Ok(Token::Identifier(String::from("x"))), 20..21),
    ];
    assert_eq!(out, expected);
}

#[test]
fn leading_zeros_parse() {
    assert_eq!(lex("007"), vec![(Ok(Token::Integer(7)), 0..3)]);
}

#[test]
fn blank_lines_fold_into_one_newline() {
    let out = lex("a\n\n\n  b");
    let expected = vec![
        (Ok(Token::Identifier(String::from("a"))), 0..1),
        (Ok(Token::Newline), 1..6),
        (Ok(Token::Indentation), 6..6),
        (Ok(Token::Identifier(String::from("b"))), 6..7),
        (Ok(Token::Deindentation), 7..7),
    ];
    assert_eq!(out, expected);
}

#[test]
fn tab_counts_as_one_character_of_width() {
    let out = lex("a:\n\tb\n");
    let expected = vec![
        (Ok(Token::Identifier(String::from("a"))), 0..1),
        (Ok(Token::Colon), 1..2),
        (Ok(Token::Newline), 2..4),
        (Ok(Token::Indentation), 4..4),
        (Ok(Token::Identifier(String::from("b"))), 4..5),
        (Ok(Token::Newline), 5..6),
        (Ok(Token::Deindentation), 6..6),
    ];
    assert_eq!(out, expected);
}

#[test]
fn reopening_known_width_is_not_an_error() {
    let out = lex("a:\n  b:\n    c\n  d\n");
    let expected = vec![
        (Ok(Token::Identifier(String::from("a"))), 0..1),
        (Ok(Token::Colon), 1..2),
        (Ok(Token::Newline), 2..5),
        (Ok(Token::Indentation), 5..5),
        (Ok(Token::Identifier(String::from("b"))), 5..6),
        (Ok(Token::Colon), 6..7),
        (Ok(Token::Newline), 7..12),
        (Ok(Token::Indentation), 12..12),
        (Ok(Token::Identifier(String::from("c"))), 12..13),
        (Ok(Token::Newline), 13..16),
        (Ok(Token::Deindentation), 16..16),
        (Ok(Token::Identifier(String::from("d"))), 16..17),
        (Ok(Token::Newline), 17..18),
        (Ok(Token::Deindentation), 18..18),
    ];
    assert_eq!(out, expected);
}

#[test]
fn open_blocks_all_close_at_end_of_input() {
    let out = lex("a:\n  b:\n    c");
    let expected = vec![
        (Ok(Token::Identifier(String::from("a"))), 0..1),
        (Ok(Token::Colon), 1..2),
        (Ok(Token::Newline), 2..5),
        (Ok(Token::Indentation), 5..5),
        (Ok(Token::Identifier(String::from("b"))), 5..6),
        (Ok(Token::Colon), 6..7),
        (Ok(Token::Newline), 7..12),
        (Ok(Token::Indentation), 12..12),
        (Ok(Token::Identifier(String::from("c"))), 12..13),
        (Ok(Token::Deindentation), 13..13),
        (Ok(Token::Deindentation), 13..13),
    ];
    assert_eq!(out, expected);
}

#[test]
fn multibyte_character_is_one_error() {
    // One two-byte UTF-8 character: a single error entry spanning both bytes.
    let out = lex("é x");
    let expected = vec![
        (Err(()), 0..2),
        (Ok(Token::Identifier(String::from("x"))), 3..4),
    ];
    assert_eq!(out, expected);
}

#[test]
fn horizontal_whitespace_is_skipped_silently() {
    let out = lex("  a \t b  ");
    let expected = vec![
        (Ok(Token::Identifier(String::from("a"))), 2..3),
        (Ok(Token::Identifier(String::from("b"))), 6..7),
    ];
    assert_eq!(out, expected);
}

#[test]
fn digits_then_letters_are_two_tokens() {
    let out = lex("9a");
    let expected = vec![
        (Ok(Token::Integer(9)), 0..1),
        (Ok(Token::Identifier(String::from("a"))), 1..2),
    ];
    assert_eq!(out, expected);
}

#[test]
fn nesting_is_balanced_even_on_errors() {
    // Streams always hold as many openings as closings, error entries or not.
    for src in ["if x:\n  a\n b\n", "a:\n  b:\n    c", "def f():\n    return 1\n", ""] {
        let mut depth: i64 = 0;
        for (tok, _) in lex(src) {
            match tok {
                Ok(Token::Indentation) => depth += 1,
                Ok(Token::Deindentation) => depth -= 1,
                _ => {}
            }
            assert!(depth >= 0);
        }
        assert_eq!(depth, 0);
    }
}

#[test]
fn spans_are_ordered_and_non_overlapping() {
    for src in ["if x:\n  a\n b\n", "a:\n  b:\n    c", "def f():\n    return 1\n", "# é\n  x"] {
        let out = lex(src);
        for k in 1..out.len() {
            assert!(out[k - 1].1.end <= out[k].1.start);
        }
        for (_, span) in out {
            assert!(span.start <= span.end && span.end <= src.len());
        }
    }
}
