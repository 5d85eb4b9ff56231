use vstd::prelude::*;
use crate::text::{decimal, int_text, push_decimal, push_int, string_append};

verus! {

/// A handle to an object in the garbage-collected heap (its slot index).
#[derive(Debug, Clone, Copy, PartialEq, Eq, Hash, Structural)]
pub struct GcRef(pub usize);

/// A runtime value, shared by the interpreter and the VM.
#[derive(Debug, Clone, PartialEq)]
pub enum Value {
    Int(i64),
    Bool(bool),
    String(String),
    Unit,
    Function(String),
    Closure(GcRef),
    // Heap-allocated values (traced by the GC).
    Array(GcRef),
    Object(GcRef),
}

impl Value {
    /// Equality of runtime values: strings and function names by their text,
    /// heap values by handle identity.
    pub open spec fn same(self, other: Value) -> bool {
        match (self, other) {
            (Value::Int(a), Value::Int(b)) => a == b,
            (Value::Bool(a), Value::Bool(b)) => a == b,
            (Value::String(a), Value::String(b)) => a@ == b@,
            (Value::Unit, Value::Unit) => true,
            (Value::Function(a), Value::Function(b)) => a@ == b@,
            (Value::Closure(a), Value::Closure(b)) => a == b,
            (Value::Array(a), Value::Array(b)) => a == b,
            (Value::Object(a), Value::Object(b)) => a == b,
            _ => false,
        }
    }

    /// The heap slot this value refers to, if it is a heap value.
    pub open spec fn heap_ref(self) -> Option<usize> {
        match self {
            Value::Closure(h) => Some(h.0),
            Value::Array(h) => Some(h.0),
            Value::Object(h) => Some(h.0),
            _ => None,
        }
    }

    /// The text that printing the value shows.
    pub open spec fn display(self) -> Seq<char> {
        match self {
            Value::Int(i) => int_text(i as int),
            Value::Bool(b) => if b { "true"@ } else { "false"@ },
            Value::String(s) => s@,
            Value::Unit => "()"@,
            Value::Function(name) => "<fn "@ + name@ + ">"@,
            Value::Closure(h) => "<closure@"@ + decimal(h.0 as nat) + ">"@,
            Value::Array(h) => "<array@"@ + decimal(h.0 as nat) + ">"@,
            Value::Object(h) => "<object@"@ + decimal(h.0 as nat) + ">"@,
        }
    }

    /// How a value is written in error messages: its variant and payload.
    pub open spec fn debug(self) -> Seq<char> {
        match self {
            Value::Int(i) => "Int("@ + int_text(i as int) + ")"@,
            Value::Bool(b) => if b { "Bool(true)"@ } else { "Bool(false)"@ },
            Value::String(s) => "String(\""@ + s@ + "\")"@,
            Value::Unit => "Unit"@,
            Value::Function(name) => "Function(\""@ + name@ + "\")"@,
            Value::Closure(h) => "Closure(GcRef("@ + decimal(h.0 as nat) + "))"@,
            Value::Array(h) => "Array(GcRef("@ + decimal(h.0 as nat) + "))"@,
            Value::Object(h) => "Object(GcRef("@ + decimal(h.0 as nat) + "))"@,
        }
    }

    /// The written form of the value in error messages.
    pub fn to_debug_string(&self) -> (s: String)
        ensures
            s@ == self.debug(),
    {
        proof {
            reveal_strlit("Int(");
            reveal_strlit(")");
            reveal_strlit("Bool(true)");
            reveal_strlit("Bool(false)");
            reveal_strlit("String(\"");
            reveal_strlit("\")");
            reveal_strlit("Unit");
            reveal_strlit("Function(\"");
            reveal_strlit("Closure(GcRef(");
            reveal_strlit("Array(GcRef(");
            reveal_strlit("Object(GcRef(");
            reveal_strlit("))");
        }
        let mut s = String::new();
        match self {
            Value::Int(i) => {
                string_append(&mut s, "Int(");
                push_int(&mut s, *i);
                string_append(&mut s, ")");
            },
            Value::Bool(b) => {
                if *b {
                    string_append(&mut s, "Bool(true)");
                } else {
                    string_append(&mut s, "Bool(false)");
                }
            },
            Value::String(t) => {
                string_append(&mut s, "String(\"");
                string_append(&mut s, t.as_str());
                string_append(&mut s, "\")");
            },
            Value::Unit => {
                string_append(&mut s, "Unit");
            },
            Value::Function(name) => {
                string_append(&mut s, "Function(\"");
                string_append(&mut s, name.as_str());
                string_append(&mut s, "\")");
            },
            Value::Closure(h) => {
                string_append(&mut s, "Closure(GcRef(");
                push_decimal(&mut s, h.0 as u64);
                string_append(&mut s, "))");
            },
            Value::Array(h) => {
                string_append(&mut s, "Array(GcRef(");
                push_decimal(&mut s, h.0 as u64);
                string_append(&mut s, "))");
            },
            Value::Object(h) => {
                string_append(&mut s, "Object(GcRef(");
                push_decimal(&mut s, h.0 as u64);
                string_append(&mut s, "))");
            },
        }
        assert(s@ =~= self.debug());
        s
    }

    /// A copy of the value.
    pub fn copy(&self) -> (r: Value)
        ensures
            r == *self,
    {
        match self {
            Value::Int(i) => Value::Int(*i),
            Value::Bool(b) => Value::Bool(*b),
            Value::String(s) => Value::String(s.clone()),
            Value::Unit => Value::Unit,
            Value::Function(s) => Value::Function(s.clone()),
            Value::Closure(h) => Value::Closure(*h),
            Value::Array(h) => Value::Array(*h),
            Value::Object(h) => Value::Object(*h),
        }
    }

    /// `==` on runtime values.
    pub fn equals(&self, other: &Value) -> (r: bool)
        ensures
            r == self.same(*other),
    {
        match (self, other) {
            (Value::Int(a), Value::Int(b)) => *a == *b,
            (Value::Bool(a), Value::Bool(b)) => *a == *b,
            (Value::String(a), Value::String(b)) => *a == *b,
            (Value::Unit, Value::Unit) => true,
            (Value::Function(a), Value::Function(b)) => *a == *b,
            (Value::Closure(a), Value::Closure(b)) => a.0 == b.0,
            (Value::Array(a), Value::Array(b)) => a.0 == b.0,
            (Value::Object(a), Value::Object(b)) => a.0 == b.0,
            _ => false,
        }
    }

    /// The heap handle of a heap value.
    pub fn handle(&self) -> (r: Option<usize>)
        ensures
            r == self.heap_ref(),
    {
        match self {
            Value::Closure(h) => Some(h.0),
            Value::Array(h) => Some(h.0),
            Value::Object(h) => Some(h.0),
            _ => None,
        }
    }

    /// The printed form of the value (what `Display` shows).
    pub fn to_display_string(&self) -> (s: String)
        ensures
            s@ == self.display(),
    {
        let mut s = String::new();
        match self {
            Value::Int(i) => {
                push_int(&mut s, *i);
            },
            Value::Bool(b) => {
                if *b {
                    string_append(&mut s, "true");
                } else {
                    string_append(&mut s, "false");
                }
                proof {
                    reveal_strlit("true");
                    reveal_strlit("false");
                }
            },
            Value::String(t) => {
                string_append(&mut s, t.as_str());
            },
            Value::Unit => {
                string_append(&mut s, "()");
            },
            Value::Function(name) => {
                string_append(&mut s, "<fn ");
                string_append(&mut s, name.as_str());
                string_append(&mut s, ">");
            },
            Value::Closure(h) => {
                string_append(&mut s, "<closure@");
                push_decimal(&mut s, h.0 as u64);
                string_append(&mut s, ">");
            },
            Value::Array(h) => {
                string_append(&mut s, "<array@");
                push_decimal(&mut s, h.0 as u64);
                string_append(&mut s, ">");
            },
            Value::Object(h) => {
                string_append(&mut s, "<object@");
                push_decimal(&mut s, h.0 as u64);
                string_append(&mut s, ">");
            },
        }
        assert(s@ =~= self.display());
        s
    }
}

} // verus!
