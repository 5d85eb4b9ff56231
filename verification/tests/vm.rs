use moon::bytecode::{compile, module_is_well_formed, InstrKind};
use moon::lexer::lex;
use moon::parser::parse;
use moon::source::Source;
use moon::typechecker::check_program;
use moon::value::{GcRef, Value};
use moon::vm::{run, VmError};

fn run_vm_result(src: &str) -> Result<Value, VmError> {
    let source = Source::new("<test>".to_string(), src.to_string());
    let tokens = lex(&source.text).unwrap();
    let program = parse(tokens).unwrap();
    check_program(&program).unwrap();
    let module = compile(&program).unwrap();
    run(module)
}

fn run_vm(src: &str) -> Value {
    run_vm_result(src).unwrap()
}

#[test]
fn arithmetic_and_precedence() {
    let v = run_vm("let x = 1 + 2 * 3; x + 1");
    assert_eq!(v, Value::Int(8));
}

#[test]
fn blocks_scopes_and_tail_expr() {
    let v = run_vm("let x = 1; { let x = 2; x } + x");
    assert_eq!(v, Value::Int(3));
}

#[test]
fn vm_if_expression() {
    let v = run_vm("if true { 1 } else { 2 }");
    assert_eq!(v, Value::Int(1));
}

#[test]
fn functions_and_call_before_definition() {
    let v = run_vm(
        "f(1);
         fn f(x: Int) -> Int { x + 1 }
         f(1)",
    );
    assert_eq!(v, Value::Int(2));
}

#[test]
fn arrays_objects_and_assignment() {
    let v = run_vm(
        "let a = [1, 2, 3];
         a[0] = 10;
         let o = #{ a: 1, \"b\": 2 };
         o[\"a\"] = 10;
         a[0] + o[\"b\"]",
    );
    assert_eq!(v, Value::Int(12));
}

#[test]
fn gc_builtin_keeps_roots_alive() {
    let v = run_vm("let a = [1, 2, 3]; gc(); a[0]");
    assert_eq!(v, Value::Int(1));
}

#[test]
fn return_statement_exits_function_early() {
    let v = run_vm(
        "fn f(x: Int) -> Int { if x > 0 { return x; } else { }; x + 1 }\n         f(0) + f(2)",
    );
    assert_eq!(v, Value::Int(3));
}

#[test]
fn function_can_be_implemented_with_only_return() {
    let v = run_vm("fn f() -> Int { return 1; } f()");
    assert_eq!(v, Value::Int(1));
}

#[test]
fn vm_agrees_with_interpreter_on_examples() {
    let programs = [
        "let x = 1 + 2 * 3; x + 1",
        "let x = true && false || true; x",
        "let s = \"a\" + \"b\"; s",
        "let x = 1; { let x = 2; x = 3; x } + x",
        "fn fib(n: Int) -> Int { if n < 2 { n } else { fib(n - 1) + fib(n - 2) } } fib(15)",
        "let a = [1, 2, 3]; a[1] = a[0] + a[2]; a[1]",
        "false && true",
        "true || false",
    ];
    for src in programs {
        let program = parse(lex(src).unwrap()).unwrap();
        let a = moon::interp::eval_program(&program).unwrap();
        let b = run(compile(&program).unwrap()).unwrap();
        assert_eq!(a, b, "{src}");
    }
}

#[test]
fn vm_runtime_errors() {
    assert_eq!(run_vm_result("1 / 0").unwrap_err().message, "division by zero");
    assert_eq!(run_vm_result("[1][5]").unwrap_err().message, "index out of bounds: 5");
}

#[test]
fn vm_deep_recursion_computes() {
    assert_eq!(run_vm_result("fn f(n: Int) -> Int { if n == 0 { 0 } else { f(n - 1) } } f(500)").unwrap(), Value::Int(0));
    assert_eq!(run_vm_result("fn g(n: Int) -> Int { if n == 0 { 0 } else { 1 + g(n - 1) } } g(5000)").unwrap(), Value::Int(5000));
}

#[test]
fn compiled_modules_are_well_formed() {
    let program = parse(lex("fn f(x: Int) -> Int { if x > 0 { x } else { 0 - x } } f(0 - 3) && true").unwrap()).unwrap();
    let module = compile(&program).unwrap();
    assert!(module_is_well_formed(&module));
    assert_eq!(module.functions[module.main].name, "<main>");
    assert!(module.by_name.get("f").is_some());
}

#[test]
fn duplicate_functions_do_not_compile() {
    let program = parse(lex("fn f() -> Int { 1 } fn f() -> Int { 2 } 0").unwrap()).unwrap();
    let e = compile(&program).unwrap_err();
    assert_eq!(e.message, "duplicate function: f");
}

#[test]
fn compiled_conditional_jumps_around_its_branches() {
    let program = parse(lex("if true { 1 } else { 2 }").unwrap()).unwrap();
    let module = compile(&program).unwrap();
    let code = &module.functions[0].code;
    let kinds: Vec<String> = code.iter().map(|i| format!("{:?}", i.kind)).collect();
    assert_eq!(
        kinds,
        vec![
            "Push(Bool(true))",
            "JumpIfFalse(7)",
            "Pop",
            "PushScope",
            "Push(Int(1))",
            "PopScope",
            "Jump(11)",
            "Pop",
            "PushScope",
            "Push(Int(2))",
            "PopScope",
            "Return",
        ]
        .iter()
        .map(|s| s.to_string())
        .collect::<Vec<String>>()
    );
    assert!(matches!(code[1].kind, InstrKind::JumpIfFalse(7)));
}

#[test]
fn compiled_functions_follow_main_and_gc() {
    let program = parse(lex("fn a() -> Int { 1 } fn b(x: Int, y: Int) -> Int { x } a()").unwrap()).unwrap();
    let module = compile(&program).unwrap();
    assert_eq!(module.functions.len(), 4);
    assert_eq!(module.functions[1].name, "gc");
    assert_eq!(module.functions[2].name, "a");
    assert_eq!(module.functions[3].name, "b");
    assert_eq!(module.functions[3].params, vec!["x".to_string(), "y".to_string()]);
    assert_eq!(module.by_name.get("b").copied(), Some(3));
    assert_eq!(module.by_name.get("<main>").copied(), Some(0));
    let e = compile(&parse(lex("fn gc() -> Unit { } 0").unwrap()).unwrap()).unwrap_err();
    assert_eq!(e.message, "duplicate function: gc");
}

#[test]
fn vm_allocation_reuses_a_collected_slot() {
    assert_eq!(
        run_vm("fn f() -> Int { let t = [1, 2]; 0 } let x = [5]; f(); gc(); [3]"),
        Value::Array(GcRef(1))
    );
    assert_eq!(run_vm("let x = [5]; let y = [6]; gc(); [3]"), Value::Array(GcRef(2)));
}
