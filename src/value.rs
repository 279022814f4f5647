use vstd::prelude::*;

verus! {

/// A parsed JSON value.
///
/// A floating-point number is kept as the lexeme it was written with (for
/// example `6.7` or `1e5`), so that no precision is lost or invented here;
/// converting it to a machine float is left to the caller.
#[derive(Debug, PartialEq)]
pub enum JsonValue {
    JsonInt(i32),
    JsonFloat(String),
    JsonString(String),
    JsonBoolean(bool),
    JsonNull,
    /// Members in the order their keys first appeared; keys are unique.
    JsonObject(Vec<(String, JsonValue)>),
    JsonArray(Vec<JsonValue>),
}

/// The mathematical model of a JSON value.
pub enum JValue {
    Int(int),
    Float(Seq<char>),
    Str(Seq<char>),
    Bool(bool),
    Null,
    Object(Seq<(Seq<char>, JValue)>),
    Array(Seq<JValue>),
}

/// Why a document was rejected.
#[derive(Debug, Clone, Copy, PartialEq, Eq, Structural)]
pub enum JsonError {
    /// An unterminated string, an unrecognized character or a malformed number.
    LexError,
    /// A token sequence that does not follow the grammar.
    ParseError,
    /// Objects and arrays nested deeper than the configured limit.
    DepthExceeded,
}

impl JsonValue {
    pub open spec fn view(&self) -> JValue
        decreases self,
    {
        match self {
            JsonValue::JsonInt(i) => JValue::Int(*i as int),
            JsonValue::JsonFloat(s) => JValue::Float(s@),
            JsonValue::JsonString(s) => JValue::Str(s@),
            JsonValue::JsonBoolean(b) => JValue::Bool(*b),
            JsonValue::JsonNull => JValue::Null,
            JsonValue::JsonObject(m) => JValue::Object(
                Seq::new(
                    m.len() as nat,
                    |i: int|
                        if 0 <= i < m.len() {
                            (m[i].0@, m[i].1.view())
                        } else {
                            (Seq::empty(), JValue::Null)
                        },
                ),
            ),
            JsonValue::JsonArray(a) => JValue::Array(
                Seq::new(
                    a.len() as nat,
                    |i: int|
                        if 0 <= i < a.len() {
                            a[i].view()
                        } else {
                            JValue::Null
                        },
                ),
            ),
        }
    }
}

} // verus!
