//! The dynamic value held by a category: a tagged tree in the shape of JSON.

use vstd::prelude::*;

verus! {

/// A JSON-shaped value.
///
/// A floating-point number is held exactly, by its IEEE-754 bit pattern.
/// An object is a list of members in order; its keys are the member names.
#[derive(Debug)]
pub enum Value {
    Null,
    Bool(bool),
    I64(i64),
    U64(u64),
    FloatBits(u64),
    Str(String),
    Array(Vec<Value>),
    Object(Vec<(String, Value)>),
}

/// `b` is a copy of `a` at the top level: a scalar or a string is the same,
/// an array has as many items, and an object has the same member keys in order.
pub open spec fn top_level_copy(a: Value, b: Value) -> bool {
    match a {
        Value::Array(items) => b is Array && b->Array_0@.len() == items@.len(),
        Value::Object(members) => b is Object && b->Object_0@.map_values(|e: (String, Value)| e.0@)
            == members@.map_values(|e: (String, Value)| e.0@),
        _ => b == a,
    }
}

impl Clone for Value {
    /// A copy of every part of the value.
    fn clone(&self) -> (r: Value)
        ensures
            top_level_copy(*self, r),
        decreases self,
    {
        match self {
            Value::Null => Value::Null,
            Value::Bool(b) => Value::Bool(*b),
            Value::I64(n) => Value::I64(*n),
            Value::U64(n) => Value::U64(*n),
            Value::FloatBits(n) => Value::FloatBits(*n),
            Value::Str(text) => Value::Str(text.clone()),
            Value::Array(items) => {
                let mut out: Vec<Value> = Vec::new();
                let mut i: usize = 0;
                while i < items.len()
                    invariant
                        *self == Value::Array(*items),
                        i <= items@.len(),
                        out@.len() == i,
                    decreases items@.len() - i,
                {
                    proof {
                        assert(decreases_to!(*self => self->Array_0));
                        assert(decreases_to!(self->Array_0 => items[i as int]));
                    }
                    out.push(items[i].clone());
                    i = i + 1;
                }
                Value::Array(out)
            },
            Value::Object(members) => {
                let mut out: Vec<(String, Value)> = Vec::new();
                let mut i: usize = 0;
                while i < members.len()
                    invariant
                        *self == Value::Object(*members),
                        i <= members@.len(),
                        out@.len() == i,
                        forall|j: int| 0 <= j < i ==> #[trigger] out@[j].0@ == members@[j].0@,
                    decreases members@.len() - i,
                {
                    proof {
                        assert(decreases_to!(*self => self->Object_0));
                        assert(decreases_to!(self->Object_0 => members[i as int]));
                        assert(decreases_to!(members[i as int] => members[i as int].1));
                    }
                    let key = members[i].0.clone();
                    let item = members[i].1.clone();
                    out.push((key, item));
                    i = i + 1;
                }
                proof {
                    assert(out@.map_values(|e: (String, Value)| e.0@) =~= members@.map_values(
                        |e: (String, Value)| e.0@,
                    ));
                }
                Value::Object(out)
            },
        }
    }
}

} // verus!
