//! A JSON parser and serializer: documents are read into a value tree, checked against
//! schema values, and written back in compact or pretty form.
pub mod value;
pub mod array;
pub mod object;
pub mod number;
pub mod grammar;
pub mod parser;
pub mod serializer;
pub mod validate;
pub mod roundtrip;
pub mod reread;
pub mod comments;
pub mod nesting;
pub mod context;
pub mod wasm;
pub mod generate;
mod text;

pub use value::{Value, ParsonError, JsonValue};
pub use array::Array;
pub use object::Object;
pub use number::JsonNumber;
pub use serializer::{serialize_to_string, serialize_to_string_pretty};
pub use validate::validate;

use vstd::prelude::*;

verus! {

/// Parses a JSON document.
pub fn parse_string(s: &str) -> (r: Result<Value, ParsonError>)
    ensures
        match grammar::parse_document(s@, false) {
            Some(v) => r matches Ok(x) && x@ == v,
            None => r == Err::<Value, ParsonError>(ParsonError::Parse),
        },
{
    parser::parse_string(s)
}

/// Parses a JSON document in which line (`//`) and block (`/* */`) comments count as
/// whitespace.
pub fn parse_string_with_comments(s: &str) -> (r: Result<Value, ParsonError>)
    ensures
        match grammar::parse_document(s@, true) {
            Some(v) => r matches Ok(x) && x@ == v,
            None => r == Err::<Value, ParsonError>(ParsonError::Parse),
        },
{
    parser::parse_string_with_comments(s)
}

} // verus!
