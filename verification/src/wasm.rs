//! The text a browser playground shows for a JSON document.
use vstd::prelude::*;
use crate::grammar::parse_document;
use crate::serializer::{serialized, serialize_to_string_pretty};
use crate::text::push_text;
use crate::value::ParsonError;

verus! {

/// The document `input` in pretty form, or the error message when it does not parse.
pub fn parse_and_format(input: &str) -> (r: String)
    ensures
        match parse_document(input@, false) {
            Some(v) => r@ == serialized(v, true, 0),
            None => r@ == "Error parsing JSON: Parse"@,
        },
{
    match crate::parser::parse_string(input) {
        Ok(value) => serialize_to_string_pretty(&value),
        Err(e) => {
            let mut out = String::new();
            push_text(&mut out, "Error parsing JSON: ");
            push_text(&mut out, e.name());
            proof {
                reveal_strlit("Error parsing JSON: ");
                reveal_strlit("Parse");
                reveal_strlit("Error parsing JSON: Parse");
                assert(e == ParsonError::Parse);
                assert(out@ =~= "Error parsing JSON: Parse"@);
            }
            out
        },
    }
}

} // verus!
