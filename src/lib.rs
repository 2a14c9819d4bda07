//! A JSON decoder that reads a text into a tree of values which point back
//! into the text: strings are ranges of it, numbers keep their exact decimal
//! digits, objects are sorted by key and arrays keep source order. Every
//! function is verified against the grammar in `grammar`.

pub mod grammar;
pub mod json_element;
pub mod json_error;
pub mod json_number;
pub mod json_type;
pub mod key;
pub mod laws;
pub mod parser;
pub mod slice;

pub use json_element::{JsonArray, JsonElement, JsonObject};
pub use json_error::JsonError;
pub use json_number::JsonNumber;
pub use json_type::JsonType;
pub use key::Key;
pub use parser::parse;
pub use slice::Slice;
pub use grammar::MAX_DEPTH;
