//! Conversions between dynamic values and plain Rust values.

use crate::error::GobError;
use crate::value::Value;
use vstd::prelude::*;
use vstd::std_specs::convert::{FromSpecImpl, TryFromSpecImpl};

verus! {

impl From<bool> for Value {
    fn from(b: bool) -> (v: Self) {
        Value::Bool(b)
    }
}

impl FromSpecImpl<bool> for Value {
    open spec fn obeys_from_spec() -> bool {
        true
    }

    open spec fn from_spec(b: bool) -> Self {
        Value::Bool(b)
    }
}

impl From<i64> for Value {
    fn from(i: i64) -> (v: Self) {
        Value::Int(i)
    }
}

impl FromSpecImpl<i64> for Value {
    open spec fn obeys_from_spec() -> bool {
        true
    }

    open spec fn from_spec(i: i64) -> Self {
        Value::Int(i)
    }
}

impl From<u64> for Value {
    fn from(u: u64) -> (v: Self) {
        Value::Uint(u)
    }
}

impl FromSpecImpl<u64> for Value {
    open spec fn obeys_from_spec() -> bool {
        true
    }

    open spec fn from_spec(u: u64) -> Self {
        Value::Uint(u)
    }
}

impl From<String> for Value {
    fn from(s: String) -> (v: Self) {
        Value::String(s)
    }
}

impl FromSpecImpl<String> for Value {
    open spec fn obeys_from_spec() -> bool {
        true
    }

    open spec fn from_spec(s: String) -> Self {
        Value::String(s)
    }
}

impl From<Vec<u8>> for Value {
    fn from(b: Vec<u8>) -> (v: Self) {
        Value::Bytes(b)
    }
}

impl FromSpecImpl<Vec<u8>> for Value {
    open spec fn obeys_from_spec() -> bool {
        true
    }

    open spec fn from_spec(b: Vec<u8>) -> Self {
        Value::Bytes(b)
    }
}

impl TryFrom<Value> for String {
    type Error = GobError;

    fn try_from(v: Value) -> (r: Result<Self, GobError>) {
        v.into_string()
    }
}

impl TryFromSpecImpl<Value> for String {
    open spec fn obeys_try_from_spec() -> bool {
        true
    }

    /// The string that the value holds; any other value is a mismatch.
    open spec fn try_from_spec(v: Value) -> Result<Self, GobError> {
        match v {
            Value::String(s) => Ok(s),
            _ => Err(GobError::TypeMismatch),
        }
    }
}

impl TryFrom<Value> for i64 {
    type Error = GobError;

    fn try_from(v: Value) -> (r: Result<Self, GobError>) {
        v.into_i64()
    }
}

impl TryFromSpecImpl<Value> for i64 {
    open spec fn obeys_try_from_spec() -> bool {
        true
    }

    /// The signed integer that the value holds, or the unsigned one where
    /// it fits; any other value is a mismatch.
    open spec fn try_from_spec(v: Value) -> Result<Self, GobError> {
        match v {
            Value::Int(i) => Ok(i),
            Value::Uint(u) => if u <= i64::MAX {
                Ok(u as i64)
            } else {
                Err(GobError::TypeMismatch)
            },
            _ => Err(GobError::TypeMismatch),
        }
    }
}

impl TryFrom<Value> for bool {
    type Error = GobError;

    fn try_from(v: Value) -> (r: Result<Self, GobError>) {
        v.into_bool()
    }
}

impl TryFromSpecImpl<Value> for bool {
    open spec fn obeys_try_from_spec() -> bool {
        true
    }

    /// The boolean that the value holds; any other value is a mismatch.
    open spec fn try_from_spec(v: Value) -> Result<Self, GobError> {
        match v {
            Value::Bool(b) => Ok(b),
            _ => Err(GobError::TypeMismatch),
        }
    }
}

} // verus!
