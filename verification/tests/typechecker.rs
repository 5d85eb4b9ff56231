use moon::lexer::lex;
use moon::parser::parse;
use moon::source::Source;
use moon::typechecker::{check_program, check_program_with_spans};
use moon::types::Type;

fn check(src: &str) -> Result<Type, String> {
    let source = Source::new("<test>".to_string(), src.to_string());
    let tokens = lex(&source.text).map_err(|e| format!("lex: {}", e.message))?;
    let program = parse(tokens).map_err(|e| format!("parse: {}", e.message))?;
    check_program(&program).map_err(|e| e.message)
}

#[test]
fn infers_let_and_checks_ops() {
    let ty = check("let x = 1 + 2 * 3; x").unwrap();
    assert_eq!(ty, Type::Int);
}

#[test]
fn rejects_mismatched_let_annotation() {
    let err = check("let x: Bool = 1; x").unwrap_err();
    assert!(err.contains("type mismatch"));
}

#[test]
fn rejects_if_branch_type_mismatch() {
    let err = check("if true { 1 } else { false }").unwrap_err();
    assert!(err.contains("if branches"));
}

#[test]
fn rejects_wrong_argument_type() {
    let err = check("fn f(x: Int) -> Int { x } f(true)").unwrap_err();
    assert!(err.contains("argument type mismatch"));
}

#[test]
fn rejects_wrong_return_type() {
    let err = check("fn f() -> Bool { 1 } 0").unwrap_err();
    assert!(err.contains("type mismatch"));
}

#[test]
fn can_typecheck_call_before_definition() {
    let ty = check("f(1); fn f(x: Int) -> Int { x } f(2)").unwrap();
    assert_eq!(ty, Type::Int);
}

#[test]
fn allows_functions_as_values_and_indirect_calls() {
    let ty = check("fn add1(x: Int) -> Int { x + 1 } let f = add1; f(41)").unwrap();
    assert_eq!(ty, Type::Int);
}

#[test]
fn rejects_calling_non_function_value() {
    let err = check("let x = 1; x(2)").unwrap_err();
    assert!(err.contains("cannot call non-function"));
}

#[test]
fn infers_array_types_and_indexing() {
    let ty = check("let a = [1, 2, 3]; a[0]").unwrap();
    assert_eq!(ty, Type::Int);
}

#[test]
fn rejects_mixed_array_element_types() {
    let err = check("let a = [1, true]; a").unwrap_err();
    assert!(err.contains("array elements"));
}

#[test]
fn requires_annotation_for_empty_array_literal() {
    let err = check("let a = []; a").unwrap_err();
    assert!(err.contains("empty array"));
}

#[test]
fn allows_empty_array_with_annotation() {
    let ty = check("let a: Array<Int> = []; a").unwrap();
    assert_eq!(ty, Type::Array(Box::new(Type::Int)));
}

#[test]
fn infers_object_types_and_indexing() {
    let ty = check("let o = #{ a: 1, \"b\": 2 }; o[\"a\"]").unwrap();
    assert_eq!(ty, Type::Int);
}

#[test]
fn allows_empty_object_with_annotation() {
    let ty = check("let o: Object<Int> = #{}; o").unwrap();
    assert_eq!(ty, Type::Object(Box::new(Type::Int)));
}

#[test]
fn rejects_assignment_type_mismatch() {
    let err = check("let x: Int = 1; x = true; x").unwrap_err();
    assert!(err.contains("type mismatch"));
}

#[test]
fn rejects_return_outside_function() {
    let err = check("return 1; 0").unwrap_err();
    assert!(err.contains("return"));
}

#[test]
fn rejects_return_type_mismatch() {
    let err = check("fn f() -> Int { return true; } 0").unwrap_err();
    assert!(err.contains("type mismatch"));
}

#[test]
fn allows_function_with_only_return_statement() {
    let ty = check("fn f() -> Int { return 1; } f()").unwrap();
    assert_eq!(ty, Type::Int);
}

#[test]
fn tc_messages() {
    assert_eq!(check("let x: Bool = 1; x").unwrap_err(), "type mismatch: expected Bool, got Int");
    assert_eq!(check("1 + true").unwrap_err(), "cannot add Int and Bool");
    assert_eq!(check("1 < \"a\"").unwrap_err(), "comparison operators require Int, got Int and String");
    assert_eq!(check("1 == true").unwrap_err(), "cannot compare Int and Bool");
    assert_eq!(check("1 && true").unwrap_err(), "logical operators require Bool, got Int and Bool");
    assert_eq!(check("y").unwrap_err(), "undefined variable: y");
    assert_eq!(check("let x: Foo = 1; x").unwrap_err(), "unknown type: Foo");
    assert_eq!(check("fn f() -> Int { 1 } fn f() -> Int { 2 } 0").unwrap_err(), "duplicate function: f");
    assert_eq!(check("-true").unwrap_err(), "cannot apply unary '-' to Bool");
    assert_eq!(check("fn f(x: Int) -> Int { x } f()").unwrap_err(), "wrong number of arguments: expected 1, got 0");
}

#[test]
fn tc_function_types_print() {
    assert_eq!(check("fn f(x: Int, y: Bool) -> Int { x } f").unwrap(), Type::Function {
        params: vec![Type::Int, Type::Bool],
        ret: Box::new(Type::Int),
    });
    let t = Type::Function { params: vec![Type::Int, Type::Bool], ret: Box::new(Type::Array(Box::new(Type::String))) };
    assert_eq!(t.to_text(), "(Int, Bool) -> Array<String>");
}

#[test]
fn tc_gc_is_a_builtin() {
    assert_eq!(check("gc()").unwrap(), Type::Unit);
}

#[test]
fn tc_never_joins_if_branches() {
    assert_eq!(check("fn f(x: Int) -> Int { if x > 0 { return x; } else { }; x + 1 } f(1)").unwrap(), Type::Int);
}

#[test]
fn tc_records_expression_types() {
    let program = parse(lex("let x = 1 + 2; x").unwrap()).unwrap();
    let info = check_program_with_spans(&program).unwrap();
    assert_eq!(info.ty, Type::Int);
    assert!(info.expr_types.iter().any(|(sp, t)| sp.start == 8 && sp.end == 13 && *t == Type::Int));
}
