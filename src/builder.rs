use vstd::prelude::*;
use crate::object::{Decimal, Node, Object, Val, Value};
use crate::text::chars_of;

verus! {

/// Builds a single-value tree.
pub struct Builder {
    pub obj: Object,
}

impl Builder {
    /// A builder that holds an integer.
    pub fn from_int(v: i64) -> (r: Builder)
        ensures
            r.obj@ == (Node { key: None, val: Val::Int(v) }),
    {
        Builder { obj: Object { key: None, value: Value::Int(v), cursor: 0 } }
    }

    /// A builder that holds a decimal number.
    pub fn from_decimal(v: Decimal) -> (r: Builder)
        ensures
            r.obj@ == (Node { key: None, val: Val::Float(v) }),
    {
        Builder { obj: Object { key: None, value: Value::Float(v), cursor: 0 } }
    }

    /// A builder that holds a truth value.
    pub fn from_bool(v: bool) -> (r: Builder)
        ensures
            r.obj@ == (Node { key: None, val: Val::Boolean(v) }),
    {
        Builder { obj: Object { key: None, value: Value::Boolean(v), cursor: 0 } }
    }

    /// A builder that holds a string.
    pub fn from_str(v: &str) -> (r: Builder)
        ensures
            r.obj@ == (Node { key: None, val: Val::Str(v@) }),
    {
        Builder { obj: Object { key: None, value: Value::Str(chars_of(v)), cursor: 0 } }
    }

    /// A builder that holds a string.
    pub fn from_string(v: String) -> (r: Builder)
        ensures
            r.obj@ == (Node { key: None, val: Val::Str(v@) }),
    {
        Builder::from_str(v.as_str())
    }

    /// The tree built.
    pub fn build(self) -> (r: Object)
        ensures
            r@ == self.obj@,
    {
        self.obj
    }
}

} // verus!
