use slm::error::Position;
use slm::lexer::Token;
use slm::lexer::{Lexer, Literal, Operator};
use slm::parser::{Expr, ExprKind, Parser};

fn parse(code: &str) -> Vec<Expr> {
    let lexer = Lexer::parse(code).expect("scan should succeed");
    Parser::parse(&lexer).expect("parse should succeed").tree
}

fn parse_err(code: &str) -> slm::Error {
    let lexer = Lexer::parse(code).expect("scan should succeed");
    Parser::parse(&lexer).expect_err("parse should fail")
}

#[test]
fn parses_one_assignment_statement() {
    let tree = parse("x = 5\n");
    assert_eq!(tree.len(), 1);
    match &*tree[0].kind {
        ExprKind::Assignment { operator, left, right } => {
            assert_eq!(*operator, Operator::Equal);
            match &*left.kind {
                ExprKind::Identifier(name) => assert_eq!(name, "x"),
                other => panic!("expected an identifier on the left, got {other:?}"),
            }
            match &*right.kind {
                ExprKind::Literal(lit) => assert_eq!(*lit, Literal::Integer(5)),
                other => panic!("expected a literal on the right, got {other:?}"),
            }
        }
        other => panic!("expected an assignment, got {other:?}"),
    }
}

#[test]
fn assignment_position_spans_both_sides() {
    let tree = parse("x = 5\n");
    assert_eq!(tree[0].position, Position::new(0, (0, 4)));
}

#[test]
fn parses_constant_assignment_operator() {
    let tree = parse("limit :: 10\n");
    match &*tree[0].kind {
        ExprKind::Assignment { operator, .. } => assert_eq!(*operator, Operator::ConstantEqual),
        other => panic!("expected an assignment, got {other:?}"),
    }
}

#[test]
fn parses_statements_in_textual_order() {
    let tree = parse("a = 1\nb = 2\n");
    assert_eq!(tree.len(), 2);
    let names: Vec<String> = tree
        .iter()
        .map(|stmt| match &*stmt.kind {
            ExprKind::Assignment { left, .. } => match &*left.kind {
                ExprKind::Identifier(name) => name.clone(),
                other => panic!("expected an identifier, got {other:?}"),
            },
            other => panic!("expected an assignment, got {other:?}"),
        })
        .collect();
    assert_eq!(names, vec!["a".to_string(), "b".to_string()]);
}

#[test]
fn empty_source_parses_to_no_statements() {
    assert_eq!(parse("").len(), 0);
}

#[test]
fn missing_trailing_line_break_is_rejected() {
    let err = parse_err("a = 1\nb = 2");
    assert_eq!(err.kind, slm::ErrorKind::ExpectedToken("new line".to_string()));
    assert_eq!(err.position, Position::new(1, (5, 5)));
}

#[test]
fn missing_operator_is_rejected() {
    let err = parse_err("x 5\n");
    assert_eq!(err.kind, slm::ErrorKind::ExpectedToken("operator".to_string()));
}

#[test]
fn reserved_plus_is_not_an_assignment_operator() {
    // `+` is not scanned by the current grammar, so drive the parser directly
    // with a Plus token between two primaries.
    let lexer = Lexer::parse("a = b\n").expect("scan should succeed");
    let mut tokens = lexer.tokens.clone();
    tokens[1].0 = Token::Operator(Operator::Plus);
    let patched = Lexer { tokens };
    let err = Parser::parse(&patched).expect_err("parse should fail");
    assert_eq!(err.kind, slm::ErrorKind::ExpectedToken("operator".to_string()));
}

#[test]
fn bracket_where_expression_expected_is_rejected() {
    let err = parse_err("( = 5\n");
    assert_eq!(err.kind, slm::ErrorKind::ExpectedToken("expression".to_string()));
}

#[test]
fn missing_right_side_is_rejected() {
    let err = parse_err("x =\n");
    assert_eq!(err.kind, slm::ErrorKind::ExpectedToken("expression".to_string()));
}
