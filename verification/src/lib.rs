//! Querying of JSON data with small path expressions such as
//! `.friends[1,2].name`.
//!
//! A query string is compiled into steps ([`compile`]), which are then run
//! over a [`JsonValue`] ([`query`]). The answer is the array of every value
//! the query selects, in order.

pub mod chars;
pub mod com_type;
pub mod error;
pub mod laws;
pub mod lexer;
pub mod query;
pub mod value;

pub use crate::chars::{parse_usize, usize_to_decimal};
pub use crate::com_type::ComType;
pub use crate::error::{QueryError, QueryResult};
pub use crate::lexer::{
    compile, compile_chars, generic_compiler, generic_object_index, GenericObjectIndex, LexOperator, LexResult,
    LexerError, LexicalOperations, Slicer,
};
pub use crate::query::{
    key_match_map, match_slice_to_key, query, query_map_w_generic_object_index, query_processor,
    query_slice_w_generic_object_index, query_str, query_unsupported, QueryFault,
};
pub use crate::value::{copy_value, JsonValue};
