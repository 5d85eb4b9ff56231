use moon::interp::{eval_program, RuntimeError};
use moon::lexer::lex;
use moon::parser::parse;
use moon::source::Source;
use moon::value::{GcRef, Value};

fn run_result(src: &str) -> Result<Value, RuntimeError> {
    let source = Source::new("<test>".to_string(), src.to_string());
    let tokens = lex(&source.text).unwrap();
    let program = parse(tokens).unwrap();
    eval_program(&program)
}

fn run(src: &str) -> Value {
    run_result(src).unwrap()
}

#[test]
fn arithmetic_precedence() {
    let v = run("let x = 1 + 2 * 3; x + 1");
    assert_eq!(v, Value::Int(8));
}

#[test]
fn bool_precedence() {
    let v = run("let x = true && false || true; x");
    assert_eq!(v, Value::Bool(true));
}

#[test]
fn string_concat() {
    let v = run("let s = \"a\" + \"b\"; s");
    assert_eq!(v, Value::String("ab".to_string()));
}

#[test]
fn block_scope_and_tail_expr() {
    let v = run("let x = 1; { let x = 2; x } + x");
    assert_eq!(v, Value::Int(3));
}

#[test]
fn if_expression() {
    let v = run("if true { 1 } else { 2 }");
    assert_eq!(v, Value::Int(1));
}

#[test]
fn functions_work_and_do_not_capture_caller_locals() {
    let v = run("let x = 10;
         fn f() -> Int { x }
         { let x = 20; f() }");
    assert_eq!(v, Value::Int(10));
}

#[test]
fn can_call_function_before_its_definition() {
    let v = run("f(1);
         fn f(x: Int) -> Int { x + 1 }
         f(1)");
    assert_eq!(v, Value::Int(2));
}

#[test]
fn array_literal_index_and_assignment() {
    let v = run("let a = [1, 2, 3]; a[0] = 10; a[0] + a[1]");
    assert_eq!(v, Value::Int(12));
}

#[test]
fn object_literal_index_and_assignment() {
    let v = run("let o = #{ a: 1, \"b\": 2 }; o[\"a\"] = 10; o[\"a\"] + o[\"b\"]");
    assert_eq!(v, Value::Int(12));
}

#[test]
fn variable_assignment_updates_nearest_scope() {
    let v = run("let x = 1; { let x = 2; x = 3; x } + x");
    assert_eq!(v, Value::Int(4));
}

#[test]
fn return_is_error_at_top_level() {
    let err = run_result("return 1;").unwrap_err();
    assert!(err.message.contains("return"));
}

#[test]
fn return_exits_function_early() {
    let v =
        run("fn f(x: Int) -> Int { if x > 0 { return x; } else { }; x + 1 }\n         f(0) + f(2)");
    assert_eq!(v, Value::Int(3));
}

#[test]
fn interp_gc_keeps_variables_alive() {
    let v = run("let a = [1, 2, 3]; gc(); a[2]");
    assert_eq!(v, Value::Int(3));
}

#[test]
fn interp_gc_keeps_caller_locals_alive() {
    let v = run("fn f() -> Unit { gc() } { let a = [7]; f(); a[0] }");
    assert_eq!(v, Value::Int(7));
}

#[test]
fn interp_runtime_errors() {
    assert_eq!(run_result("1 / 0").unwrap_err().message, "division by zero");
    assert_eq!(run_result("7 % 0").unwrap_err().message, "modulo by zero");
    assert_eq!(run_result("y").unwrap_err().message, "undefined variable: y");
    assert_eq!(run_result("[1][5]").unwrap_err().message, "index out of bounds: 5");
    assert_eq!(run_result("[1][0 - 1]").unwrap_err().message, "array index must be >= 0");
    assert_eq!(run_result("#{ a: 1 }[\"b\"]").unwrap_err().message, "missing key: b");
    assert_eq!(run_result("1(2)").unwrap_err().message, "cannot call non-function value");
    assert_eq!(run_result("if 1 { 2 } else { 3 }").unwrap_err().message, "if condition must be bool, got Int(1)");
    assert_eq!(run_result("x = 1;").unwrap_err().message, "undefined variable: x");
    assert_eq!(run_result("gc(1)").unwrap_err().message, "gc() takes no arguments");
    assert_eq!(
        run_result("fn f(x: Int) -> Int { x } f()").unwrap_err().message,
        "wrong number of arguments for f: expected 1, got 0"
    );
    assert_eq!(run_result("-9223372036854775807 - 2").unwrap_err().message, "integer overflow");
}

#[test]
fn interp_deep_recursion_computes() {
    assert_eq!(run("fn f(n: Int) -> Int { if n == 0 { 0 } else { f(n - 1) } } f(500)"), Value::Int(0));
    assert_eq!(run("fn g(n: Int) -> Int { if n == 0 { 0 } else { 1 + g(n - 1) } } g(300)"), Value::Int(300));
}

#[test]
fn interp_short_circuit() {
    assert_eq!(run("false && (1 / 0 == 0)"), Value::Bool(false));
    assert_eq!(run("true || (1 / 0 == 0)"), Value::Bool(true));
}

#[test]
fn interp_values_compare() {
    assert_eq!(run("\"ab\" == \"a\" + \"b\""), Value::Bool(true));
    assert_eq!(run("1 != 2"), Value::Bool(true));
    assert_eq!(run("7 / 2 + 7 % 2"), Value::Int(4));
    assert_eq!(run("(0 - 7) / 2"), Value::Int(-3));
}

#[test]
fn interp_allocation_reuses_a_collected_slot() {
    assert_eq!(run("let a = [1]; let b = [2]; a = 0; gc(); [3]"), Value::Array(GcRef(0)));
    assert_eq!(run("let a = [1]; let b = [2]; gc(); [3]"), Value::Array(GcRef(2)));
}
