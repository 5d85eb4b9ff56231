use moon::heap::Heap;
use moon::namemap::NameMap;
use moon::typeenv::TypeEnv;
use moon::types::Type;
use moon::value::{GcRef, Value};

#[test]
fn heap_gc_frees_only_unreachable() {
    let mut heap = Heap::new();
    let a = heap.alloc_array(vec![Value::Int(1)]);
    let b = heap.alloc_array(vec![Value::Array(a)]);
    let c = heap.alloc_array(vec![Value::Int(3)]);
    let stats = heap.collect_garbage(&[Value::Array(b)]);
    assert_eq!(stats.live_objects, 2);
    assert_eq!(stats.freed_objects, 1);
    assert_eq!(heap.array_get(a, 0), Some(&Value::Int(1)));
    assert_eq!(heap.array_get(c, 0), None);
    let d = heap.alloc_array(vec![]);
    assert_eq!(d, c);
    let s = heap.stats();
    assert_eq!(s.live_objects, 3);
    assert_eq!(s.freed_objects, 0);
}

#[test]
fn heap_cycles_are_collected() {
    let mut heap = Heap::new();
    let a = heap.alloc_array(vec![]);
    let b = heap.alloc_array(vec![Value::Array(a)]);
    heap.array_set(a, 0, Value::Array(b)).unwrap_err();
    let mut m = NameMap::new();
    m.insert("b".to_string(), Value::Array(b));
    let o = heap.alloc_object(m);
    heap.object_set(o, "self".to_string(), Value::Object(o)).unwrap();
    let stats = heap.collect_garbage(&[]);
    assert_eq!(stats.live_objects, 0);
    assert_eq!(stats.freed_objects, 3);
}

#[test]
fn heap_errors() {
    let mut heap = Heap::new();
    let a = heap.alloc_array(vec![Value::Int(1)]);
    assert_eq!(heap.array_set(a, 3, Value::Unit).unwrap_err(), "index out of bounds: 3 (len=1)");
    assert_eq!(heap.array_set(GcRef(9), 0, Value::Unit).unwrap_err(), "invalid handle");
    heap.collect_garbage(&[]);
    assert_eq!(heap.array_set(a, 0, Value::Unit).unwrap_err(), "dangling handle");
    let o = heap.alloc_object(NameMap::new());
    assert_eq!(heap.array_set(o, 0, Value::Unit).unwrap_err(), "not an array");
}

#[test]
fn heap_closures() {
    let mut heap = Heap::new();
    let mut env = NameMap::new();
    env.insert("x".to_string(), Value::Int(1));
    let c = heap.alloc_closure("f".to_string(), env);
    assert_eq!(heap.closure_func_name(c), Some("f"));
    assert!(heap.closure_contains(c, "x"));
    heap.closure_set(c, "x".to_string(), Value::Int(2)).unwrap();
    assert_eq!(heap.closure_get(c, "x"), Some(&Value::Int(2)));
    assert_eq!(heap.closure_env_clone(c).unwrap().get("x"), Some(&Value::Int(2)));
}

#[test]
fn heap_reuses_freed_slots_last_freed_first() {
    let mut heap = Heap::new();
    let a = heap.alloc_array(vec![]);
    let b = heap.alloc_array(vec![]);
    let c = heap.alloc_array(vec![]);
    assert_eq!((a, b, c), (GcRef(0), GcRef(1), GcRef(2)));
    let stats = heap.collect_garbage(&[]);
    assert_eq!(stats.freed_objects, 3);
    assert_eq!(heap.stats().freed_objects, 3);
    assert_eq!(heap.alloc_array(vec![]), GcRef(2));
    assert_eq!(heap.alloc_array(vec![]), GcRef(1));
    assert_eq!(heap.alloc_array(vec![]), GcRef(0));
    assert_eq!(heap.alloc_array(vec![]), GcRef(3));
    let s = heap.stats();
    assert_eq!(s.live_objects, 4);
    assert_eq!(s.freed_objects, 0);
}

#[test]
fn heap_collect_keeps_reachable_and_reuses_the_freed_slot() {
    let mut heap = Heap::new();
    let a = heap.alloc_array(vec![Value::Int(1)]);
    let b = heap.alloc_array(vec![Value::Array(a)]);
    let c = heap.alloc_array(vec![]);
    let s = heap.collect_garbage(&[Value::Array(b)]);
    assert_eq!(s.live_objects, 2);
    assert_eq!(s.freed_objects, 1);
    assert_eq!(heap.array_get(a, 0), Some(&Value::Int(1)));
    assert_eq!(heap.array_get(b, 0), Some(&Value::Array(GcRef(0))));
    assert_eq!(c, GcRef(2));
    assert_eq!(heap.alloc_array(vec![]), c);
}

#[test]
fn heap_collecting_twice_frees_nothing_more() {
    let mut heap = Heap::new();
    let a = heap.alloc_array(vec![Value::Int(7)]);
    let _b = heap.alloc_array(vec![Value::Int(8)]);
    let mut m = NameMap::new();
    m.insert("a".to_string(), Value::Array(a));
    let o = heap.alloc_object(m);
    let s1 = heap.collect_garbage(&[Value::Object(o)]);
    assert_eq!(s1.live_objects, 2);
    assert_eq!(s1.freed_objects, 1);
    let s2 = heap.collect_garbage(&[Value::Object(o)]);
    assert_eq!(s2.live_objects, 2);
    assert_eq!(s2.freed_objects, 0);
    assert_eq!(heap.array_get(a, 0), Some(&Value::Int(7)));
    assert_eq!(heap.object_get(o, "a"), Some(&Value::Array(a)));
}

#[test]
fn heap_stats_count_live_and_free_slots() {
    let mut heap = Heap::new();
    let s = heap.stats();
    assert_eq!((s.live_objects, s.freed_objects), (0, 0));
    let a = heap.alloc_array(vec![]);
    let _b = heap.alloc_object(NameMap::new());
    let _c = heap.alloc_closure("f".to_string(), NameMap::new());
    let s = heap.stats();
    assert_eq!((s.live_objects, s.freed_objects), (3, 0));
    heap.collect_garbage(&[Value::Array(a)]);
    let s = heap.stats();
    assert_eq!((s.live_objects, s.freed_objects), (1, 2));
    let s2 = heap.stats();
    assert_eq!((s2.live_objects, s2.freed_objects), (1, 2));
}

#[test]
fn typeenv_push_define_pop_restores_lookups() {
    let mut env = TypeEnv::new();
    env.define_var("x".to_string(), Type::Int);
    env.push_scope();
    env.define_var("y".to_string(), Type::Int);
    env.push_scope();
    env.define_var("x".to_string(), Type::Bool);
    env.define_var("z".to_string(), Type::String);
    env.define_fn("g".to_string(), vec![], Type::Int).unwrap();
    assert_eq!(env.get_var("x"), Some(&Type::Bool));
    assert_eq!(env.get_var("z"), Some(&Type::String));
    env.pop_scope();
    assert_eq!(env.get_var("x"), Some(&Type::Int));
    assert_eq!(env.get_var("y"), Some(&Type::Int));
    assert!(env.get_var("z").is_none());
    env.pop_scope();
    assert!(env.get_var("y").is_none());
    env.pop_scope();
    assert_eq!(env.get_var("x"), Some(&Type::Int));
}

#[test]
fn typeenv_scopes() {
    let mut env = TypeEnv::new();
    env.define_var("x".to_string(), Type::Int);
    env.push_scope();
    env.define_var("x".to_string(), Type::Bool);
    assert_eq!(env.get_var("x"), Some(&Type::Bool));
    let saved = env.take_scopes();
    assert_eq!(env.get_var("x"), Some(&Type::Int));
    env.restore_scopes(saved);
    assert_eq!(env.get_var("x"), Some(&Type::Bool));
    env.pop_scope();
    assert_eq!(env.get_var("x"), Some(&Type::Int));
    assert!(env.get_var("y").is_none());
    env.define_fn("f".to_string(), vec![Type::Int], Type::Bool).unwrap();
    assert_eq!(env.get_fn("f").unwrap().ret, Type::Bool);
    assert!(env.get_fn("g").is_none());
}

#[test]
fn value_display() {
    assert_eq!(Value::Int(-5).to_display_string(), "-5");
    assert_eq!(Value::Bool(true).to_display_string(), "true");
    assert_eq!(Value::Unit.to_display_string(), "()");
    assert_eq!(Value::Array(GcRef(3)).to_display_string(), "<array@3>");
    assert_eq!(Value::Function("f".to_string()).to_display_string(), "<fn f>");
    assert_eq!(Value::Object(GcRef(1)).to_debug_string(), "Object(GcRef(1))");
}
