//! The primitive types, by name.

use crate::value::{Value, ValueView};
use vstd::prelude::*;

verus! {

/// A type with an identifier of its own in every stream.
pub trait GobType {
    /// The identifier.
    const ID: i64;
}

/// One of the predeclared types.
#[derive(Clone, Copy, Debug, PartialEq, Eq, Structural)]
pub enum Type {
    Bool,
    Int,
    UInt,
    /// A 64-bit float.
    Float,
    Bytes,
    String,
    /// A 128-bit complex number: reserved.
    Complex,
    Interface,
}

impl Type {
    /// The identifier that the type has in every stream.
    pub open spec fn spec_id(self) -> i64 {
        match self {
            Type::Bool => 1,
            Type::Int => 2,
            Type::UInt => 3,
            Type::Float => 4,
            Type::Bytes => 5,
            Type::String => 6,
            Type::Complex => 7,
            Type::Interface => 8,
        }
    }

    /// The identifier that the type has in every stream.
    #[verifier::when_used_as_spec(spec_id)]
    pub fn id(self) -> (id: i64)
        ensures
            id == self.spec_id(),
    {
        match self {
            Type::Bool => 1,
            Type::Int => 2,
            Type::UInt => 3,
            Type::Float => 4,
            Type::Bytes => 5,
            Type::String => 6,
            Type::Complex => 7,
            Type::Interface => 8,
        }
    }

    /// The value that a field of this type has when nothing was sent for
    /// it: false, zero, empty, or nil.
    pub open spec fn spec_zero(self) -> ValueView {
        match self {
            Type::Bool => ValueView::Bool(false),
            Type::Int => ValueView::Int(0),
            Type::UInt => ValueView::Uint(0),
            Type::Float => ValueView::Float(0),
            Type::Bytes => ValueView::Bytes(Seq::empty()),
            Type::String => ValueView::String(Seq::empty()),
            Type::Complex => ValueView::Nil,
            Type::Interface => ValueView::Nil,
        }
    }

    /// The value that a field of this type has when nothing was sent for
    /// it.
    pub fn zero(self) -> (v: Value)
        ensures
            v@ == self.spec_zero(),
    {
        match self {
            Type::Bool => Value::Bool(false),
            Type::Int => Value::Int(0),
            Type::UInt => Value::Uint(0),
            Type::Float => Value::Float(0),
            Type::Bytes => Value::Bytes(Vec::new()),
            Type::String => Value::String(String::new()),
            Type::Complex => Value::Nil,
            Type::Interface => Value::Nil,
        }
    }

    /// Whether a field of this type can hold `v` as it is.
    pub open spec fn holds(self, v: ValueView) -> bool {
        match self {
            Type::Bool => v is Bool,
            Type::Int => v is Int,
            Type::UInt => v is Uint,
            Type::Float => v is Float,
            Type::Bytes => v is Bytes,
            Type::String => v is String,
            Type::Complex => false,
            Type::Interface => true,
        }
    }

    /// What a field of this type holds when `v` arrives for it: `v` itself
    /// where it is of the type, an unsigned integer as a signed one where it
    /// fits, and a mismatch otherwise.
    pub open spec fn spec_coerce(self, v: ValueView) -> Option<ValueView> {
        if self.holds(v) {
            Some(v)
        } else if self == Type::Int && v is Uint && v->Uint_0 <= i64::MAX {
            Some(ValueView::Int(v->Uint_0 as i64))
        } else {
            None
        }
    }

    /// Fits `v` to a field of this type, widening an unsigned integer to a
    /// signed one where the field is signed. `None` where it does not fit.
    pub fn coerce(self, v: &Value) -> (r: Option<Value>)
        ensures
            match self.spec_coerce(v@) {
                Some(c) => r is Some && r->0@ == c,
                None => r is None,
            },
    {
        match (self, v) {
            (Type::Bool, Value::Bool(_)) => Some(v.clone()),
            (Type::Int, Value::Int(_)) => Some(v.clone()),
            (Type::Int, Value::Uint(u)) => {
                if *u <= i64::MAX as u64 {
                    Some(Value::Int(*u as i64))
                } else {
                    None
                }
            },
            (Type::UInt, Value::Uint(_)) => Some(v.clone()),
            (Type::Float, Value::Float(_)) => Some(v.clone()),
            (Type::Bytes, Value::Bytes(_)) => Some(v.clone()),
            (Type::String, Value::String(_)) => Some(v.clone()),
            (Type::Interface, _) => Some(v.clone()),
            _ => None,
        }
    }
}

} // verus!
