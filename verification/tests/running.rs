use slm::{ErrorKind, Runner, Source};

fn source(code: &str) -> Source {
    Source { code: code.to_string(), file: "run.slm".to_string() }
}

#[test]
fn try_run_accepts_a_well_formed_program() {
    let mut runner = Runner::default();
    assert!(runner.try_run(&source("x = 5\ny = x\n")).is_ok());
}

#[test]
fn try_run_reports_the_scanner_error() {
    let mut runner = Runner::default();
    let err = runner.try_run(&source("\"abc")).expect_err("scan should fail");
    assert_eq!(err.kind, ErrorKind::Unmatched("quote".to_string()));
}

#[test]
fn try_run_reports_the_parser_error() {
    let mut runner = Runner::default();
    let err = runner.try_run(&source("x = 5")).expect_err("parse should fail");
    assert_eq!(err.kind, ErrorKind::ExpectedToken("new line".to_string()));
}

#[test]
fn try_run_accepts_an_empty_source() {
    let mut runner = Runner::default();
    assert!(runner.try_run(&source("")).is_ok());
}
