use vstd::prelude::*;
use crate::heap::{Heap, ObjectView, dangling_handle_msg, invalid_handle_msg, out_of_bounds_msg};
use crate::text::{decimal, push_decimal, string_append};
use crate::value::Value;

verus! {

/// What indexing `base` with `index` reads from the heap `h`: `Ok` with the element or
/// property, or `Err` with the message of the runtime error.
pub open spec fn index_spec(h: Map<usize, ObjectView>, base: Value, index: Value) -> Result<Value, Seq<char>> {
    match base {
        Value::Array(r) => match index {
            Value::Int(i) => if i < 0 || i > usize::MAX {
                Err("array index must be >= 0"@)
            } else if h.contains_key(r.0) && h[r.0] is Array && i < h[r.0]->Array_0.len() {
                Ok(h[r.0]->Array_0[i as int])
            } else {
                Err("index out of bounds: "@ + decimal(i as nat))
            },
            _ => Err("array index must be int, got "@ + index.debug()),
        },
        Value::Object(r) => match index {
            Value::String(k) => if h.contains_key(r.0) && h[r.0] is Object && h[r.0]->Object_0.contains_key(k@) {
                Ok(h[r.0]->Object_0[k@])
            } else {
                Err("missing key: "@ + k@)
            },
            _ => Err("object key must be string, got "@ + index.debug()),
        },
        _ => Err("cannot index into "@ + base.debug()),
    }
}

/// Writing through `base[index]` succeeds on the heap `h`.
pub open spec fn write_ok(h: Map<usize, ObjectView>, base: Value, index: Value) -> bool {
    match (base, index) {
        (Value::Array(r), Value::Int(i)) => 0 <= i <= usize::MAX && h.contains_key(r.0) && h[r.0] is Array
            && i < h[r.0]->Array_0.len(),
        (Value::Object(r), Value::String(_)) => h.contains_key(r.0) && h[r.0] is Object,
        _ => false,
    }
}

/// The message of a failed write through `base[index]` on the heap `h`, whose allocator
/// has handed out `slots` slots.
pub open spec fn write_err(h: Map<usize, ObjectView>, slots: nat, base: Value, index: Value) -> Seq<char> {
    match base {
        Value::Array(r) => match index {
            Value::Int(i) => if i < 0 || i > usize::MAX {
                "array index must be >= 0"@
            } else if r.0 >= slots {
                invalid_handle_msg()
            } else if !h.contains_key(r.0) {
                dangling_handle_msg()
            } else if !(h[r.0] is Array) {
                "not an array"@
            } else {
                out_of_bounds_msg(i as nat, h[r.0]->Array_0.len())
            },
            _ => "array index must be int, got "@ + index.debug(),
        },
        Value::Object(r) => match index {
            Value::String(_) => if r.0 >= slots {
                invalid_handle_msg()
            } else if !h.contains_key(r.0) {
                dangling_handle_msg()
            } else {
                "not an object"@
            },
            _ => "object key must be string, got "@ + index.debug(),
        },
        _ => "cannot assign through index on "@ + base.debug(),
    }
}

/// The heap after a successful write of `value` through `base[index]`: the element is
/// replaced, or the property is set (added when it was missing).
pub open spec fn write_spec(h: Map<usize, ObjectView>, base: Value, index: Value, value: Value) -> Map<
    usize,
    ObjectView,
> {
    match (base, index) {
        (Value::Array(r), Value::Int(i)) => h.insert(
            r.0,
            ObjectView::Array(h[r.0]->Array_0.update(i as int, value)),
        ),
        (Value::Object(r), Value::String(k)) => h.insert(
            r.0,
            ObjectView::Object(h[r.0]->Object_0.insert(k@, value)),
        ),
        _ => h,
    }
}

/// `prefix` followed by the written form of `v`.
fn with_value(prefix: &str, v: &Value) -> (s: String)
    ensures
        s@ == prefix@ + v.debug(),
{
    let mut s = String::new();
    string_append(&mut s, prefix);
    let d = v.to_debug_string();
    string_append(&mut s, d.as_str());
    s
}

fn text(a: &str) -> (s: String)
    ensures
        s@ == a@,
{
    let mut s = String::new();
    string_append(&mut s, a);
    s
}

/// Reads `base[index]` from the heap: an element of an array, or a property of an object.
pub fn read_index(heap: &Heap, base: Value, index: Value) -> (r: Result<Value, String>)
    requires
        heap.wf(),
    ensures
        match index_spec(heap@, base, index) {
            Ok(v) => r == Ok::<Value, String>(v),
            Err(m) => r matches Err(e) && e@ == m,
        },
{
    proof {
        reveal_strlit("array index must be >= 0");
    }
    match base {
        Value::Array(h) => {
            let idx: usize = match index {
                Value::Int(i) => {
                    if i < 0 || (i as u64) > (usize::MAX as u64) {
                        return Err(text("array index must be >= 0"));
                    }
                    i as usize
                },
                other => {
                    return Err(with_value("array index must be int, got ", &other));
                },
            };
            match heap.array_get(h, idx) {
                Some(v) => Ok(v.copy()),
                None => {
                    let mut m = String::new();
                    string_append(&mut m, "index out of bounds: ");
                    push_decimal(&mut m, idx as u64);
                    Err(m)
                },
            }
        },
        Value::Object(h) => {
            let key = match index {
                Value::String(s) => s,
                other => {
                    return Err(with_value("object key must be string, got ", &other));
                },
            };
            match heap.object_get(h, key.as_str()) {
                Some(v) => Ok(v.copy()),
                None => {
                    let mut m = String::new();
                    string_append(&mut m, "missing key: ");
                    string_append(&mut m, key.as_str());
                    Err(m)
                },
            }
        },
        other => Err(with_value("cannot index into ", &other)),
    }
}

/// Writes `value` through `base[index]` into the heap.
pub fn write_index(heap: &mut Heap, base: Value, index: Value, value: Value) -> (r: Result<(), String>)
    requires
        old(heap).wf(),
    ensures
        final(heap).wf(),
        r is Ok <==> write_ok(old(heap)@, base, index),
        r is Ok ==> final(heap)@ == write_spec(old(heap)@, base, index, value),
        r is Err ==> final(heap)@ == old(heap)@,
        final(heap).slots() == old(heap).slots(),
        final(heap).free_slots() == old(heap).free_slots(),
        r matches Err(e) ==> e@ == write_err(old(heap)@, old(heap).slots(), base, index),
{
    match base {
        Value::Array(h) => {
            let idx: usize = match index {
                Value::Int(i) => {
                    if i < 0 || (i as u64) > (usize::MAX as u64) {
                        return Err(text("array index must be >= 0"));
                    }
                    i as usize
                },
                other => {
                    return Err(with_value("array index must be int, got ", &other));
                },
            };
            let ghost before = *heap;
            let r = heap.array_set(h, idx, value);
            proof {
                before.lemma_dom_bounded();
            }
            r
        },
        Value::Object(h) => {
            let key = match index {
                Value::String(s) => s,
                other => {
                    return Err(with_value("object key must be string, got ", &other));
                },
            };
            let ghost before = *heap;
            let r = heap.object_set(h, key, value);
            proof {
                before.lemma_dom_bounded();
            }
            r
        },
        other => Err(with_value("cannot assign through index on ", &other)),
    }
}

} // verus!

verus! {

/// A read through `base[index]` right after a successful write of `value` there gives back
/// `value`.
pub proof fn lemma_read_after_write(h: Map<usize, ObjectView>, base: Value, index: Value, value: Value)
    requires
        write_ok(h, base, index),
    ensures
        index_spec(write_spec(h, base, index, value), base, index) == Ok::<Value, Seq<char>>(value),
{
}

/// A successful write leaves every other object unchanged.
pub proof fn lemma_write_keeps_others(h: Map<usize, ObjectView>, base: Value, index: Value, value: Value, other: usize)
    requires
        write_ok(h, base, index),
        base.heap_ref() != Some(other),
    ensures
        write_spec(h, base, index, value).contains_key(other) == h.contains_key(other),
        h.contains_key(other) ==> write_spec(h, base, index, value)[other] == h[other],
{
}

} // verus!
