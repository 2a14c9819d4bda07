//! Properties of parsed trees that hold across accessors.

use vstd::prelude::*;
use crate::grammar::{element_starts, member_list};
use crate::json_element::{JsonElement, keys_sorted, in_source_order, members_map, holds_members};
use crate::slice::text_bytes;
use crate::json_type::JsonType;

verus! {

/// A lookup of a key that no entry holds finds nothing: on an object without
/// it, on a value of any other kind, and on the absent value.
pub proof fn lemma_missing_key<'a>(e: JsonElement<'a>, key: Seq<u8>)
    requires
        e.object matches Some(o) ==> forall|i: int|
            0 <= i < o.entries@.len() ==> (#[trigger] o.entries@[i]).0.bytes() != key,
    ensures
        e.entry_index(key) is None,
{
}

/// The absent value answers every further lookup with absence, so a chain of
/// lookups that misses once stays missing.
pub proof fn lemma_absent_propagates<'a>(e: JsonElement<'a>, key: Seq<u8>)
    requires
        e.wf(),
        e.json_type == JsonType::JsonEmpty,
    ensures
        e.entry_index(key) is None,
        e.object is None && e.array is None,
{
}

/// The text of a well-formed object's members, last one winning for a
/// repeated key.
pub open spec fn object_members<'a>(e: JsonElement<'a>) -> Map<Seq<u8>, int> {
    let b = text_bytes(e.slice.source);
    members_map(b, member_list(b, e.slice.beginning + 1, false))
}

/// A lookup in a well-formed object finds a value exactly when some member of
/// the source has that key, and the value found is the one the source holds
/// at the last such member: itself well-formed, inside the object's range.
pub proof fn lemma_key_lookup_reads_member<'a>(e: JsonElement<'a>, key: Seq<u8>)
    requires
        e.wf(),
        e.json_type == JsonType::JsonObject,
    ensures
        e.entry_index(key) is Some <==> object_members(e).contains_key(key),
        e.entry_index(key) is Some ==> ({
            let v = e.object->Some_0.entries@[e.entry_index(key)->Some_0].1;
            &&& v.wf()
            &&& v.json_type != JsonType::JsonEmpty
            &&& v.slice.source == e.slice.source
            &&& e.slice.beginning < v.slice.beginning && v.slice.end < e.slice.end
            &&& v.read_from(object_members(e)[key])
        }),
{
    reveal(holds_members);
    let entries = e.object->Some_0.entries@;
    if object_members(e).contains_key(key) {
        let m = choose|m: int| 0 <= m < entries.len() && (#[trigger] entries[m]).0.bytes() == key;
        assert(entries[m].0.bytes() == key);
    }
    if e.entry_index(key) is Some {
        let i = e.entry_index(key)->Some_0;
        assert(entries[i] == entries[i]);
    }
}

/// The elements of a well-formed array are exactly the values that the source
/// holds between its brackets, in order: each one well-formed and inside the
/// array's range.
pub proof fn lemma_index_lookup_reads_element<'a>(e: JsonElement<'a>, index: int)
    requires
        e.wf(),
        e.json_type == JsonType::JsonArray,
        0 <= index < e.array->Some_0.items@.len(),
    ensures
        e.array->Some_0.items@.len() == element_starts(
            text_bytes(e.slice.source),
            e.slice.beginning + 1,
            false,
        ).len(),
        ({
            let v = e.array->Some_0.items@[index];
            &&& v.wf()
            &&& v.json_type != JsonType::JsonEmpty
            &&& v.slice.source == e.slice.source
            &&& e.slice.beginning < v.slice.beginning && v.slice.end < e.slice.end
            &&& v.read_from(element_starts(text_bytes(e.slice.source), e.slice.beginning + 1, false)[index])
        }),
{
    assert(e.array->Some_0.items@[index] == e.array->Some_0.items@[index]);
}

/// One step of a path into a tree: a key of an object or an index of an array.
pub enum PathStep {
    Key(Seq<u8>),
    Index(int),
}

/// What one lookup returns: `get` for a key, `at` for an index.
pub open spec fn step<'a>(e: JsonElement<'a>, s: PathStep) -> Option<JsonElement<'a>> {
    match s {
        PathStep::Key(k) => match e.entry_index(k) {
            Some(i) => Some(e.object->Some_0.entries@[i].1),
            None => None,
        },
        PathStep::Index(i) => if e.json_type == JsonType::JsonArray && e.array is Some && 0 <= i
            < e.array->Some_0.items@.len() {
            Some(e.array->Some_0.items@[i])
        } else {
            None
        },
    }
}

/// The value that a chain of lookups reaches; `None` once one of them misses.
pub open spec fn follow<'a>(e: JsonElement<'a>, path: Seq<PathStep>) -> Option<JsonElement<'a>>
    decreases path.len(),
{
    if path.len() == 0 {
        Some(e)
    } else {
        match step(e, path[0]) {
            Some(c) => follow(c, path.drop_first()),
            None => None,
        }
    }
}

/// Any value reached from a well-formed tree by a chain of lookups is itself
/// well-formed: it reads back exactly its own range of the same source, which
/// lies inside the root's range. So a string reached this way is the text
/// between its quotes, and a number its exact decoded digits.
pub proof fn lemma_path_reads_source<'a>(e: JsonElement<'a>, path: Seq<PathStep>)
    requires
        e.wf(),
        e.json_type != JsonType::JsonEmpty,
        follow(e, path) is Some,
    ensures
        ({
            let v = follow(e, path)->Some_0;
            &&& v.wf()
            &&& v.json_type != JsonType::JsonEmpty
            &&& v.slice.source == e.slice.source
            &&& e.slice.beginning <= v.slice.beginning && v.slice.end <= e.slice.end
        }),
    decreases path.len(),
{
    if path.len() > 0 {
        let c = step(e, path[0])->Some_0;
        match path[0] {
            PathStep::Key(k) => {
                lemma_key_lookup_reads_member(e, k);
            },
            PathStep::Index(i) => {
                lemma_index_lookup_reads_element(e, i);
            },
        }
        lemma_path_reads_source(c, path.drop_first());
    }
}

/// A chain of lookups that misses at some step finds nothing, whatever follows.
pub proof fn lemma_path_miss_propagates<'a>(e: JsonElement<'a>, path: Seq<PathStep>, rest: Seq<PathStep>)
    requires
        follow(e, path) is None,
    ensures
        follow(e, path + rest) is None,
    decreases path.len(),
{
    if path.len() > 0 {
        assert((path + rest)[0] == path[0]);
        assert((path + rest).drop_first() =~= path.drop_first() + rest);
        if step(e, path[0]) is Some {
            lemma_path_miss_propagates(step(e, path[0])->Some_0, path.drop_first(), rest);
        }
    }
}

/// The entries of a well-formed object come sorted by key, whatever order the
/// source gave them in; the elements of an array come in source order.
pub proof fn lemma_iteration_order<'a>(e: JsonElement<'a>)
    requires
        e.wf(),
    ensures
        e.json_type == JsonType::JsonObject ==> keys_sorted(e.object->Some_0.entries@),
        e.json_type == JsonType::JsonArray ==> in_source_order(e.array->Some_0.items@),
{
}

} // verus!
