use vstd::prelude::*;

use crate::number::{double_bits_from_i64, double_bits_from_u64, signed_double_bits_of};
use crate::value::Value;

verus! {

impl From<()> for Value {
    fn from(v: ()) -> (r: Value) {
        Value::Null
    }
}

impl vstd::std_specs::convert::FromSpecImpl<()> for Value {
    open spec fn obeys_from_spec() -> bool {
        true
    }

    open spec fn from_spec(v: ()) -> Value {
        Value::Null
    }
}

impl From<bool> for Value {
    fn from(v: bool) -> (r: Value) {
        Value::Boolean(v)
    }
}

impl vstd::std_specs::convert::FromSpecImpl<bool> for Value {
    open spec fn obeys_from_spec() -> bool {
        true
    }

    open spec fn from_spec(v: bool) -> Value {
        Value::Boolean(v)
    }
}

impl From<String> for Value {
    fn from(v: String) -> (r: Value) {
        Value::String(v)
    }
}

impl vstd::std_specs::convert::FromSpecImpl<String> for Value {
    open spec fn obeys_from_spec() -> bool {
        true
    }

    open spec fn from_spec(v: String) -> Value {
        Value::String(v)
    }
}

impl From<Vec<Value>> for Value {
    fn from(v: Vec<Value>) -> (r: Value) {
        Value::List(v)
    }
}

impl vstd::std_specs::convert::FromSpecImpl<Vec<Value>> for Value {
    open spec fn obeys_from_spec() -> bool {
        true
    }

    open spec fn from_spec(v: Vec<Value>) -> Value {
        Value::List(v)
    }
}

/// Exact: every `u8` is a double.
impl From<u8> for Value {
    fn from(v: u8) -> (r: Value) {
        Value::Number(double_bits_from_u64(v as u64))
    }
}

impl vstd::std_specs::convert::FromSpecImpl<u8> for Value {
    open spec fn obeys_from_spec() -> bool {
        true
    }

    open spec fn from_spec(v: u8) -> Value {
        Value::Number(signed_double_bits_of(v as int))
    }
}

/// Exact: every `i8` is a double.
impl From<i8> for Value {
    fn from(v: i8) -> (r: Value) {
        Value::Number(double_bits_from_i64(v as i64))
    }
}

impl vstd::std_specs::convert::FromSpecImpl<i8> for Value {
    open spec fn obeys_from_spec() -> bool {
        true
    }

    open spec fn from_spec(v: i8) -> Value {
        Value::Number(signed_double_bits_of(v as int))
    }
}

/// Exact: every `u16` is a double.
impl From<u16> for Value {
    fn from(v: u16) -> (r: Value) {
        Value::Number(double_bits_from_u64(v as u64))
    }
}

impl vstd::std_specs::convert::FromSpecImpl<u16> for Value {
    open spec fn obeys_from_spec() -> bool {
        true
    }

    open spec fn from_spec(v: u16) -> Value {
        Value::Number(signed_double_bits_of(v as int))
    }
}

/// Exact: every `i16` is a double.
impl From<i16> for Value {
    fn from(v: i16) -> (r: Value) {
        Value::Number(double_bits_from_i64(v as i64))
    }
}

impl vstd::std_specs::convert::FromSpecImpl<i16> for Value {
    open spec fn obeys_from_spec() -> bool {
        true
    }

    open spec fn from_spec(v: i16) -> Value {
        Value::Number(signed_double_bits_of(v as int))
    }
}

/// Exact: every `u32` is a double.
impl From<u32> for Value {
    fn from(v: u32) -> (r: Value) {
        Value::Number(double_bits_from_u64(v as u64))
    }
}

impl vstd::std_specs::convert::FromSpecImpl<u32> for Value {
    open spec fn obeys_from_spec() -> bool {
        true
    }

    open spec fn from_spec(v: u32) -> Value {
        Value::Number(signed_double_bits_of(v as int))
    }
}

/// Exact: every `i32` is a double.
impl From<i32> for Value {
    fn from(v: i32) -> (r: Value) {
        Value::Number(double_bits_from_i64(v as i64))
    }
}

impl vstd::std_specs::convert::FromSpecImpl<i32> for Value {
    open spec fn obeys_from_spec() -> bool {
        true
    }

    open spec fn from_spec(v: i32) -> Value {
        Value::Number(signed_double_bits_of(v as int))
    }
}

/// Rounds to the nearest double: above 2^53 precision is lost.
impl From<u64> for Value {
    fn from(v: u64) -> (r: Value) {
        Value::Number(double_bits_from_u64(v))
    }
}

impl vstd::std_specs::convert::FromSpecImpl<u64> for Value {
    open spec fn obeys_from_spec() -> bool {
        true
    }

    open spec fn from_spec(v: u64) -> Value {
        Value::Number(signed_double_bits_of(v as int))
    }
}

/// Rounds to the nearest double: beyond 2^53 in magnitude precision is lost.
impl From<i64> for Value {
    fn from(v: i64) -> (r: Value) {
        Value::Number(double_bits_from_i64(v))
    }
}

impl vstd::std_specs::convert::FromSpecImpl<i64> for Value {
    open spec fn obeys_from_spec() -> bool {
        true
    }

    open spec fn from_spec(v: i64) -> Value {
        Value::Number(signed_double_bits_of(v as int))
    }
}

/// Rounds to the nearest double, as for `u64`.
impl From<usize> for Value {
    fn from(v: usize) -> (r: Value) {
        Value::Number(double_bits_from_u64(v as u64))
    }
}

impl vstd::std_specs::convert::FromSpecImpl<usize> for Value {
    open spec fn obeys_from_spec() -> bool {
        true
    }

    open spec fn from_spec(v: usize) -> Value {
        Value::Number(signed_double_bits_of(v as int))
    }
}

/// Rounds to the nearest double, as for `i64`.
impl From<isize> for Value {
    fn from(v: isize) -> (r: Value) {
        Value::Number(double_bits_from_i64(v as i64))
    }
}

impl vstd::std_specs::convert::FromSpecImpl<isize> for Value {
    open spec fn obeys_from_spec() -> bool {
        true
    }

    open spec fn from_spec(v: isize) -> Value {
        Value::Number(signed_double_bits_of(v as int))
    }
}

} // verus!
