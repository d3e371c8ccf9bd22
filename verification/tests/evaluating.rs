use slm::error::Position;
use slm::interpreter::{Intepreter, Numeric, Value, Variable};
use slm::lexer::Lexer;
use slm::parser::Parser;

fn run(code: &str) -> Intepreter {
    let mut interpreter = Intepreter::new();
    let lexer = Lexer::parse(code).expect("scan should succeed");
    let parser = Parser::parse(&lexer).expect("parse should succeed");
    interpreter.run(&parser).expect("evaluation should succeed");
    interpreter
}

fn run_err(code: &str) -> (Intepreter, slm::Error) {
    let mut interpreter = Intepreter::new();
    let lexer = Lexer::parse(code).expect("scan should succeed");
    let parser = Parser::parse(&lexer).expect("parse should succeed");
    let err = interpreter.run(&parser).expect_err("evaluation should fail");
    (interpreter, err)
}

fn binding<'a>(interpreter: &'a Intepreter, name: &str) -> &'a Variable {
    interpreter
        .variables
        .iter()
        .find(|(bound, _)| bound == name)
        .map(|(_, variable)| variable)
        .unwrap_or_else(|| panic!("{name} should be bound"))
}

#[test]
fn assignment_binds_a_mutable_number() {
    let interpreter = run("x = 5\n");
    let variable = binding(&interpreter, "x");
    assert_eq!(variable.value, Value::Number(Numeric::Integer(5)));
    assert!(!variable.constant);
}

#[test]
fn constant_assignment_binds_immutably() {
    let interpreter = run("x :: 5\n");
    let variable = binding(&interpreter, "x");
    assert_eq!(variable.value, Value::Number(Numeric::Integer(5)));
    assert!(variable.constant);
}

#[test]
fn rebinding_a_constant_fails_with_constant_assign() {
    let (interpreter, err) = run_err("x :: 5\n x = 6\n");
    assert_eq!(err.kind, slm::ErrorKind::ConstantAssign);
    assert_eq!(err.position, Position::new(1, (1, 1)));
    // The first statement's binding stays.
    assert_eq!(binding(&interpreter, "x").value, Value::Number(Numeric::Integer(5)));
}

#[test]
fn rebinding_a_constant_fails_even_with_the_same_value() {
    let (_, err) = run_err("x :: 5\nx :: 5\n");
    assert_eq!(err.kind, slm::ErrorKind::ConstantAssign);
}

#[test]
fn rebinding_a_mutable_name_replaces_it() {
    let interpreter = run("x = 1\nx = 2\n");
    assert_eq!(binding(&interpreter, "x").value, Value::Number(Numeric::Integer(2)));
    assert_eq!(interpreter.variables.len(), 1);
}

#[test]
fn unbound_name_fails_with_name_error() {
    let (_, err) = run_err("y = z\n");
    assert_eq!(err.kind, slm::ErrorKind::NameError("z".to_string()));
    assert_eq!(err.position, Position::new(0, (4, 4)));
}

#[test]
fn literal_left_side_fails_with_rvalue_assign() {
    let (_, err) = run_err("5 = x\n");
    assert_eq!(err.kind, slm::ErrorKind::RValueAssign);
    assert_eq!(err.position, Position::new(0, (0, 0)));
}

#[test]
fn identifier_right_side_copies_the_bound_value() {
    let interpreter = run("x = 5\ny = x\n");
    assert_eq!(binding(&interpreter, "y").value, Value::Number(Numeric::Integer(5)));
}

#[test]
fn boolean_and_string_and_float_values() {
    let interpreter = run("flag = true\noff = false\nname = \"slm\"\nratio = 1.5\n");
    assert_eq!(binding(&interpreter, "flag").value, Value::Boolean(true));
    assert_eq!(binding(&interpreter, "off").value, Value::Boolean(false));
    assert_eq!(binding(&interpreter, "name").value, Value::Str("slm".to_string()));
    assert_eq!(binding(&interpreter, "ratio").value, Value::Number(Numeric::Float("1.5".to_string())));
}

#[test]
fn evaluation_stops_at_the_first_error() {
    let (interpreter, _) = run_err("a = 1\nb = c\nd = 2\n");
    assert!(interpreter.variables.iter().any(|(name, _)| name == "a"));
    assert!(!interpreter.variables.iter().any(|(name, _)| name == "d"));
}
