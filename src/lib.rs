//! A codec for MuON, a line-oriented, indentation-structured data format.
//!
//! The library holds the line tokenizer, the definition resolver (indent
//! unit, continuation rows, schema prelude), the branch-stack deserializer
//! and serializer that host bindings drive, and the scalar codecs for
//! integers, numbers, booleans, chars, dates and times.
mod common;
mod datetime;
mod de;
mod error;
mod intparse;
mod lines;
mod parse;
mod schema;
mod ser;
mod text;

pub use common::{Define, Separator};
pub use datetime::{Date, DateTime, Time, TimeOffset};
pub use de::{Branch, BranchState, Deserializer, MappingIter};
pub use error::{Error, ParseError};
pub use intparse::{from_str, Integer};
pub use lines::{DefIter, Line, LineIter};
pub use parse::{bool, char, integer, number, NumLiteral, Sign};
pub use schema::{IntValue, Modifier, Node, Schema, Type, Value};
pub use ser::{quoted_key, FieldModifier, Serializer};
pub use text::chars_of;
