//! A strict JSON parser: a recursive-descent pass over a character cursor that
//! turns a text into a tree of `JSONValue`s, together with a serializer and a
//! proof that serializing a parsed tree and reparsing it gives the tree back.
//!
//! Numbers are kept as their canonical decimal literal (sign, integer digits,
//! fraction digits, exponent), so that the tree holds exactly what the text
//! said; a host program may convert a literal to a floating-point value.
use vstd::prelude::*;

pub mod cursor;
pub mod errors;
pub mod grammar;
pub mod model;
pub mod parser;
pub mod serial;

verus! {

/// A parsed JSON value: the tagged union over the six shapes of the JSON
/// data model. An object is a sequence of key/value pairs with pairwise
/// distinct keys (on a duplicate key the later value has replaced the
/// earlier one, in place).
#[derive(Debug, PartialEq)]
pub enum JSONValue {
    JSONNull(),
    JSONString(String),
    JSONBool(bool),
    JSONNumber(JSONNumber),
    JSONObject(Vec<(String, JSONValue)>),
    JSONArray(Vec<JSONValue>),
}

/// A JSON number, kept as the parts of its canonical decimal literal:
/// `-? int_part (. frac_part)? ([eE] -? exp_part)?`, with a `+` exponent
/// sign dropped and the exponent marker normalized away. A fraction or an
/// exponent is present exactly when its digit string is nonempty.
#[derive(Debug, PartialEq, Clone)]
pub struct JSONNumber {
    pub negative: bool,
    pub int_part: String,
    pub frac_part: String,
    pub exp_negative: bool,
    pub exp_part: String,
}

/// A parse failure, carrying a human-readable reason that names, where one
/// applies, the offending character or sequence and its 0-based character
/// offset in the input.
#[derive(Debug, Clone)]
pub struct JSONParseError {
    pub reason: String,
}

impl core::str::FromStr for JSONValue {
    type Err = JSONParseError;

    fn from_str(s: &str) -> Result<Self, Self::Err> {
        parser::parse_json(s)
    }
}

} // verus!
