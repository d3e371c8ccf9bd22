use slm::error::Position;
use slm::lexer::Lexer;
use slm::parser::Parser;
use slm::{Error, ErrorKind, Source};

fn source(code: &str, file: &str) -> Source {
    Source { code: code.to_string(), file: file.to_string() }
}

#[test]
fn position_new_keeps_its_fields() {
    let position = Position::new(3, (1, 4));
    assert_eq!(position.line, 3);
    assert_eq!(position.columns, (1, 4));
}

#[test]
fn error_new_keeps_its_fields() {
    let err = Error::new(ErrorKind::InvalidToken, Position::new(0, (2, 2)));
    assert_eq!(err.kind, ErrorKind::InvalidToken);
    assert_eq!(err.position, Position::new(0, (2, 2)));
}

#[test]
fn with_source_pairs_error_and_source() {
    let src = source("x = 5\n", "main.slm");
    let err = Error::new(ErrorKind::InvalidToken, Position::new(0, (0, 0)));
    let paired = err.with_source(&src);
    assert_eq!(paired.error.kind, ErrorKind::InvalidToken);
    assert_eq!(paired.source.file, "main.slm");
}

#[test]
fn renders_scanner_error_byte_for_byte() {
    let src = source("x = \"abc\nnext", "main.slm");
    let err = Lexer::parse(&src.code).expect_err("scan should fail");
    let text = err.with_source(&src).render().expect("position is in range");
    assert_eq!(text, "SyntaxError: Unmatched quote\nmain.slm:0:4\nx = \"abc\n    ^^^^");
}

#[test]
fn renders_name_error_fixture_byte_for_byte() {
    let src = source("a = 1\ny = z\n", "script");
    let err = Error::new(ErrorKind::NameError("z".to_string()), Position::new(1, (4, 4)));
    let text = err.with_source(&src).render().expect("position is in range");
    assert_eq!(text, "NameError: 'z' is not defined\nscript:1:4\ny = z\n    ^");
}

#[test]
fn renders_parser_error_on_the_second_line() {
    let src = source("a = 1\nb = 2", "two.slm");
    let lexer = Lexer::parse(&src.code).expect("scan should succeed");
    let err = Parser::parse(&lexer).expect_err("parse should fail");
    let text = err.with_source(&src).render().expect("position is in range");
    assert_eq!(text, "SyntaxError: Expected new line\ntwo.slm:1:5\nb = 2\n     ^");
}

#[test]
fn renders_a_multi_column_caret_span() {
    let src = source("wide = 100\n", "w");
    let err = Error::new(ErrorKind::InvalidToken, Position::new(0, (7, 9)));
    let text = err.with_source(&src).render().expect("position is in range");
    assert_eq!(text, "SyntaxError: Invalid token\nw:0:7\nwide = 100\n       ^^^");
}

#[test]
fn renders_constant_assign_message() {
    let src = source("x :: 1\nx = 2\n", "c");
    let err = Error::new(ErrorKind::ConstantAssign, Position::new(1, (0, 0)));
    let text = err.with_source(&src).render().expect("position is in range");
    assert_eq!(text, "AssignmentError: Cannot assign to a constant\nc:1:0\nx = 2\n^");
}

#[test]
fn renders_rvalue_assign_message() {
    let src = source("5 = x\n", "r");
    let err = Error::new(ErrorKind::RValueAssign, Position::new(0, (0, 0)));
    let text = err.with_source(&src).render().expect("position is in range");
    assert_eq!(text, "AssignmentError: Cannot assign to a value\nr:0:0\n5 = x\n^");
}

#[test]
fn renders_unmatched_comment_message() {
    let src = source("#* abc", "m");
    let err = Lexer::parse(&src.code).expect_err("scan should fail");
    let text = err.with_source(&src).render().expect("position is in range");
    assert_eq!(text, "SyntaxError: Unmatched comment\nm:0:0\n#* abc\n^^^^^^");
}

#[test]
fn rendering_fails_beyond_the_last_line() {
    let src = source("a\nb", "f");
    let err = Error::new(ErrorKind::InvalidToken, Position::new(5, (0, 0)));
    assert_eq!(err.with_source(&src).render(), None);
}

#[test]
fn error_render_matches_with_source_render() {
    let src = source("x = 1\n", "d");
    let err = Error::new(ErrorKind::InvalidToken, Position::new(0, (0, 0)));
    assert_eq!(err.render(&src), err.with_source(&src).render());
    assert_eq!(err.render(&src).unwrap(), "SyntaxError: Invalid token\nd:0:0\nx = 1\n^");
}
