use moon::core_eval::{eval_program, Value};
use moon::lexer::lex;
use moon::parser::parse;
use moon::source::Source;

fn run(src: &str) -> Value {
    let source = Source::new("<test>".to_string(), src.to_string());
    let tokens = lex(&source.text).unwrap();
    let program = parse(tokens).unwrap();
    eval_program(&program).unwrap()
}

#[test]
fn mvp_arithmetic_precedence() {
    let v = run("let x = 1 + 2 * 3; x + 1;");
    assert_eq!(v, Value::Int(8));
}

#[test]
fn mvp_bool_precedence() {
    let v = run("let x = true && false || true; x;");
    assert_eq!(v, Value::Bool(true));
}

#[test]
fn mvp_string_concat() {
    let v = run("let s = \"a\" + \"b\"; s;");
    assert_eq!(v, Value::String("ab".to_string()));
}

#[test]
fn core_tail_expression_is_the_value() {
    assert_eq!(run("let x = 2; x * 21"), Value::Int(42));
}

#[test]
fn core_empty_program_is_unit() {
    assert_eq!(run(""), Value::Unit);
    assert_eq!(run("let x = 1;"), Value::Unit);
}

#[test]
fn core_errors() {
    let source = "1 / 0;";
    let program = parse(lex(source).unwrap()).unwrap();
    let e = eval_program(&program).unwrap_err();
    assert_eq!(e.message, "division by zero");
    let program = parse(lex("y;").unwrap()).unwrap();
    let e = eval_program(&program).unwrap_err();
    assert_eq!(e.message, "undefined variable: y");
    let program = parse(lex("1 + true;").unwrap()).unwrap();
    let e = eval_program(&program).unwrap_err();
    assert_eq!(e.message, "cannot add Int(1) and Bool(true)");
    let program = parse(lex("9223372036854775807 + 1;").unwrap()).unwrap();
    let e = eval_program(&program).unwrap_err();
    assert_eq!(e.message, "integer overflow");
}

#[test]
fn core_display() {
    assert_eq!(Value::Int(-12).to_display_string(), "-12");
    assert_eq!(Value::Bool(false).to_display_string(), "false");
    assert_eq!(Value::String("hi".to_string()).to_display_string(), "hi");
    assert_eq!(Value::Unit.to_display_string(), "()");
}
