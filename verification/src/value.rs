//! The JSON value tree and its mathematical model.
use vstd::prelude::*;
use crate::array::Array;
use crate::object::Object;
use crate::number::JsonNumber;

verus! {

/// The mathematical model of a JSON value: numbers as their decimal text, strings as their
/// characters, arrays as sequences, objects as their members in order.
pub enum JsonValue {
    Null,
    Bool(bool),
    Number(Seq<char>),
    String(Seq<char>),
    Array(Seq<JsonValue>),
    Object(Seq<(Seq<char>, JsonValue)>),
}

/// A JSON value.
#[derive(Debug, PartialEq)]
pub enum Value {
    Null,
    Bool(bool),
    Number(JsonNumber),
    String(String),
    Array(Array),
    Object(Object),
}

/// The error type of the library.
#[derive(Debug, Clone, Copy, PartialEq, Eq, Structural)]
pub enum ParsonError {
    /// The input is not valid JSON.
    Parse,
    /// A requested key or index does not exist.
    NotFound,
    /// The value exists but is of the wrong type.
    TypeError,
    /// The operation is not allowed.
    InvalidOperation,
}

impl ParsonError {
    /// A short description of the error.
    pub fn message(&self) -> (m: &'static str)
        ensures
            m@ == match self {
                ParsonError::Parse => "JSON parse error"@,
                ParsonError::NotFound => "key or index not found"@,
                ParsonError::TypeError => "type mismatch"@,
                ParsonError::InvalidOperation => "invalid operation"@,
            },
    {
        match self {
            ParsonError::Parse => "JSON parse error",
            ParsonError::NotFound => "key or index not found",
            ParsonError::TypeError => "type mismatch",
            ParsonError::InvalidOperation => "invalid operation",
        }
    }

    /// The name of the error variant, as `Debug` writes it.
    pub fn name(&self) -> (m: &'static str)
        ensures
            m@ == match self {
                ParsonError::Parse => "Parse"@,
                ParsonError::NotFound => "NotFound"@,
                ParsonError::TypeError => "TypeError"@,
                ParsonError::InvalidOperation => "InvalidOperation"@,
            },
    {
        match self {
            ParsonError::Parse => "Parse",
            ParsonError::NotFound => "NotFound",
            ParsonError::TypeError => "TypeError",
            ParsonError::InvalidOperation => "InvalidOperation",
        }
    }
}

impl Value {
    pub open spec fn model(self) -> JsonValue
        decreases self,
    {
        match self {
            Value::Null => JsonValue::Null,
            Value::Bool(b) => JsonValue::Bool(b),
            Value::Number(n) => JsonValue::Number(n@),
            Value::String(s) => JsonValue::String(s@),
            Value::Array(a) => JsonValue::Array(a.model()),
            Value::Object(o) => JsonValue::Object(o.model()),
        }
    }

    /// Whether this is JSON null.
    pub fn is_null(&self) -> (b: bool)
        ensures
            b == (self@ is Null),
    {
        match self {
            Value::Null => true,
            _ => false,
        }
    }

    /// The boolean, or `None` for another kind of value.
    pub fn as_bool(&self) -> (r: Option<bool>)
        ensures
            match self@ {
                JsonValue::Bool(b) => r == Some(b),
                _ => r is None,
            },
    {
        match self {
            Value::Bool(b) => Some(*b),
            _ => None,
        }
    }

    /// The number, or `None` for another kind of value.
    pub fn as_number(&self) -> (r: Option<&JsonNumber>)
        ensures
            r is Some <==> self@ is Number,
            r matches Some(n) ==> self@ == JsonValue::Number(n@),
    {
        match self {
            Value::Number(n) => Some(n),
            _ => None,
        }
    }

    /// The string, or `None` for another kind of value.
    pub fn as_str(&self) -> (r: Option<&str>)
        ensures
            r is Some <==> self@ is String,
            r matches Some(s) ==> self@ == JsonValue::String(s@),
    {
        match self {
            Value::String(s) => Some(s.as_str()),
            _ => None,
        }
    }

    /// The array, or `None` for another kind of value.
    pub fn as_array(&self) -> (r: Option<&Array>)
        ensures
            r is Some <==> self@ is Array,
            r matches Some(a) ==> self@ == JsonValue::Array(a.model()),
    {
        match self {
            Value::Array(a) => Some(a),
            _ => None,
        }
    }

    /// The object, or `None` for another kind of value.
    pub fn as_object(&self) -> (r: Option<&Object>)
        ensures
            r is Some <==> self@ is Object,
            r matches Some(o) ==> self@ == JsonValue::Object(o.model()),
    {
        match self {
            Value::Object(o) => Some(o),
            _ => None,
        }
    }
}

impl Clone for Value {
    fn clone(&self) -> (r: Self)
        ensures
            r.model() == self.model(),
        decreases self,
    {
        match self {
            Value::Null => Value::Null,
            Value::Bool(b) => Value::Bool(*b),
            Value::Number(n) => Value::Number(n.clone()),
            Value::String(s) => Value::String(s.clone()),
            Value::Array(a) => Value::Array(a.clone()),
            Value::Object(o) => Value::Object(o.clone()),
        }
    }
}

impl View for Value {
    type V = JsonValue;

    open spec fn view(&self) -> JsonValue {
        self.model()
    }
}

} // verus!
