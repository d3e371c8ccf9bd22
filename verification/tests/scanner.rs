use slm::error::Position;
use slm::lexer::{is_space, is_valid_namer, Lexer, Literal, Operator, Token};

fn scan(code: &str) -> Vec<(Token, Position)> {
    Lexer::parse(code).expect("scan should succeed").tokens
}

fn scan_err(code: &str) -> slm::Error {
    Lexer::parse(code).expect_err("scan should fail")
}

fn pos(line: usize, start: usize, end: usize) -> Position {
    Position::new(line, (start, end))
}

#[test]
fn scans_identifier_word() {
    assert_eq!(
        scan("hello"),
        vec![
            (Token::Identifier("hello".to_string()), pos(0, 0, 4)),
            (Token::EndOfInput, pos(0, 5, 5)),
        ]
    );
}

#[test]
fn scans_identifier_with_underscores() {
    assert_eq!(
        scan("_my_name"),
        vec![
            (Token::Identifier("_my_name".to_string()), pos(0, 0, 7)),
            (Token::EndOfInput, pos(0, 8, 8)),
        ]
    );
}

#[test]
fn scans_keywords_not_identifiers() {
    assert_eq!(scan("true")[0].0, Token::Literal(Literal::True));
    assert_eq!(scan("false")[0].0, Token::Literal(Literal::False));
    assert_eq!(scan("func")[0].0, Token::Func);
}

#[test]
fn scans_integer_literal() {
    assert_eq!(
        scan("5"),
        vec![
            (Token::Literal(Literal::Integer(5)), pos(0, 0, 0)),
            (Token::EndOfInput, pos(0, 1, 1)),
        ]
    );
    assert_eq!(scan("1234567890")[0].0, Token::Literal(Literal::Integer(1234567890)));
}

#[test]
fn integer_round_trips_through_its_text() {
    let tokens = scan("987654");
    match &tokens[0].0 {
        Token::Literal(Literal::Integer(value)) => assert_eq!(value.to_string(), "987654"),
        other => panic!("expected an integer literal, got {other:?}"),
    }
}

#[test]
fn scans_float_literal_keeping_its_text() {
    assert_eq!(
        scan("12.5"),
        vec![
            (Token::Literal(Literal::Float("12.5".to_string())), pos(0, 0, 3)),
            (Token::EndOfInput, pos(0, 4, 4)),
        ]
    );
    assert_eq!(scan("5.")[0].0, Token::Literal(Literal::Float("5.".to_string())));
}

#[test]
fn second_dot_ends_the_number() {
    let tokens = scan("1.2.3");
    assert_eq!(tokens[0].0, Token::Literal(Literal::Float("1.2".to_string())));
    assert_eq!(tokens[1].0, Token::Dot);
    assert_eq!(tokens[2].0, Token::Literal(Literal::Integer(3)));
}

#[test]
fn oversized_integer_is_an_invalid_token() {
    let err = scan_err("99999999999999999999");
    assert_eq!(err.kind, slm::ErrorKind::InvalidToken);
    assert_eq!(err.position, pos(0, 0, 19));
}

#[test]
fn scans_operators() {
    assert_eq!(scan("=")[0].0, Token::Operator(Operator::Equal));
    assert_eq!(
        scan("::"),
        vec![
            (Token::Operator(Operator::ConstantEqual), pos(0, 0, 1)),
            (Token::EndOfInput, pos(0, 2, 2)),
        ]
    );
}

#[test]
fn lone_colon_is_an_invalid_token() {
    let err = scan_err(":");
    assert_eq!(err.kind, slm::ErrorKind::InvalidToken);
    assert_eq!(err.position, pos(0, 0, 0));
    assert_eq!(scan_err(":x").kind, slm::ErrorKind::InvalidToken);
}

#[test]
fn scans_brackets_and_dot() {
    assert_eq!(
        scan("()."),
        vec![
            (Token::OpenBracket, pos(0, 0, 0)),
            (Token::CloseBracket, pos(0, 1, 1)),
            (Token::Dot, pos(0, 2, 2)),
            (Token::EndOfInput, pos(0, 3, 3)),
        ]
    );
}

#[test]
fn line_break_resets_columns() {
    assert_eq!(
        scan("a\nb"),
        vec![
            (Token::Identifier("a".to_string()), pos(0, 0, 0)),
            (Token::LineBreak, pos(0, 1, 1)),
            (Token::Identifier("b".to_string()), pos(1, 0, 0)),
            (Token::EndOfInput, pos(1, 1, 1)),
        ]
    );
}

#[test]
fn whitespace_advances_columns_without_tokens() {
    assert_eq!(
        scan("  x"),
        vec![
            (Token::Identifier("x".to_string()), pos(0, 2, 2)),
            (Token::EndOfInput, pos(0, 3, 3)),
        ]
    );
}

#[test]
fn scans_string_literal_between_quotes() {
    assert_eq!(
        scan("\"ab\""),
        vec![
            (Token::Literal(Literal::Str("ab".to_string())), pos(0, 0, 3)),
            (Token::EndOfInput, pos(0, 4, 4)),
        ]
    );
    assert_eq!(scan("\"\"")[0].0, Token::Literal(Literal::Str(String::new())));
}

#[test]
fn unterminated_string_fails_with_unmatched_quote() {
    let err = scan_err("\"abc");
    assert_eq!(err.kind, slm::ErrorKind::Unmatched("quote".to_string()));
    assert_eq!(err.position, pos(0, 0, 3));
}

#[test]
fn string_broken_by_line_break_fails_with_unmatched_quote() {
    let err = scan_err("\"ab\ncd\"");
    assert_eq!(err.kind, slm::ErrorKind::Unmatched("quote".to_string()));
}

#[test]
fn single_line_comment_produces_no_token() {
    assert_eq!(
        scan("# a comment\nx"),
        vec![
            (Token::LineBreak, pos(0, 11, 11)),
            (Token::Identifier("x".to_string()), pos(1, 0, 0)),
            (Token::EndOfInput, pos(1, 1, 1)),
        ]
    );
}

#[test]
fn multi_line_comment_is_skipped() {
    assert_eq!(
        scan("#*ab*#="),
        vec![
            (Token::Operator(Operator::Equal), pos(0, 6, 6)),
            (Token::EndOfInput, pos(0, 7, 7)),
        ]
    );
}

#[test]
fn unterminated_multi_line_comment_fails_with_unmatched_comment() {
    let err = scan_err("#* abc");
    assert_eq!(err.kind, slm::ErrorKind::Unmatched("comment".to_string()));
    assert_eq!(err.position, pos(0, 0, 5));
}

#[test]
fn lone_star_does_not_close_a_comment() {
    let err = scan_err("#* a * b #");
    assert_eq!(err.kind, slm::ErrorKind::Unmatched("comment".to_string()));
}

#[test]
fn star_then_hash_closes_even_after_lone_star() {
    assert_eq!(
        scan("#***#x"),
        vec![
            (Token::Identifier("x".to_string()), pos(0, 5, 5)),
            (Token::EndOfInput, pos(0, 6, 6)),
        ]
    );
}

#[test]
fn unknown_character_is_an_invalid_token() {
    let err = scan_err("?");
    assert_eq!(err.kind, slm::ErrorKind::InvalidToken);
    assert_eq!(err.position, pos(0, 0, 0));
}

#[test]
fn space_classification() {
    assert!(is_space(' '));
    assert!(is_space('\t'));
    assert!(!is_space('\n'));
    assert!(!is_space('x'));
}

#[test]
fn namer_classification() {
    assert!(is_valid_namer('a'));
    assert!(is_valid_namer('Z'));
    assert!(is_valid_namer('_'));
    assert!(!is_valid_namer('1'));
    assert!(!is_valid_namer('='));
}
