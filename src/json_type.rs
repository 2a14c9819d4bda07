use vstd::prelude::*;

verus! {

/// The kind of a value; `JsonEmpty` marks the absent value of a failed lookup.
#[derive(Debug, Clone, Copy, PartialEq, Eq, Structural)]
pub enum JsonType {
    JsonEmpty,
    JsonNull,
    JsonBoolean,
    JsonNumber,
    JsonString,
    JsonObject,
    JsonArray,
}

} // verus!
