//! A reader for JSON documents: a tokenizer, a recursive-descent parser with a
//! nesting limit, and a classifier for isolated scalar lexemes.
pub mod classify;
pub mod depth;
pub mod keys;
pub mod lexer;
pub mod parser;
pub mod split;
pub mod text;
pub mod value;

pub use value::{JsonError, JsonValue};

pub use classify::{classify_scalar, is_bool, is_float, is_int, is_json_arr, is_json_object};
pub use lexer::{tokenize, Token};
pub use split::{split_on_commas_preserving_quotes, split_preserving_quotes};
pub use parser::{parse_tokens, parse_value_at, read, read_with_depth, DEFAULT_MAX_DEPTH};
