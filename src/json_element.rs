//! The value tree: elements, objects kept sorted by key, arrays in source
//! order, and the accessors over them.

use vstd::prelude::*;
use crate::grammar::{string_close, null_text, true_text, false_text, value_end, element_starts, member_list};
use crate::json_number::{JsonNumber, well_formed_number, number_in_range};
use crate::json_type::JsonType;
use crate::key::{Key, lex_lt, compare_bytes, lemma_lex_irreflexive, lemma_lex_transitive, lemma_lex_total};
use crate::slice::{Slice, text_bytes};

verus! {

/// The entries of an object, sorted by key.
#[derive(Debug)]
pub struct JsonObject<'a> {
    pub entries: Vec<(Key, JsonElement<'a>)>,
}

/// The elements of an array, in source order.
#[derive(Debug)]
pub struct JsonArray<'a> {
    pub items: Vec<JsonElement<'a>>,
}

/// A parsed value: its kind, the source range it was read from, and the
/// payload of its kind.
#[derive(Debug)]
pub struct JsonElement<'a> {
    pub json_type: JsonType,
    pub slice: Slice<'a>,
    pub boolean: Option<bool>,
    pub number: Option<JsonNumber>,
    pub object: Option<JsonObject<'a>>,
    pub array: Option<JsonArray<'a>>,
}

/// Object entries are strictly sorted by key, so no key repeats.
pub open spec fn keys_sorted<'a>(entries: Seq<(Key, JsonElement<'a>)>) -> bool {
    forall|i: int, j: int|
        0 <= i < j < entries.len() ==> lex_lt(
            #[trigger] entries[i].0.bytes(),
            #[trigger] entries[j].0.bytes(),
        )
}

/// The key text of member `t`.
pub open spec fn member_key(b: Seq<u8>, ms: Seq<(int, int, int)>, t: int) -> Seq<u8> {
    b.subrange(ms[t].0, ms[t].1)
}

/// Each key among the members `ms`, mapped to where the value of the last
/// member with that key starts.
pub open spec fn members_map(b: Seq<u8>, ms: Seq<(int, int, int)>) -> Map<Seq<u8>, int>
    decreases ms.len(),
{
    if ms.len() == 0 {
        Map::empty()
    } else {
        members_map(b, ms.drop_last()).insert(member_key(b, ms, ms.len() - 1), ms.last().2)
    }
}

/// `entries` holds one entry for each key among the members `ms`, with the
/// value of the last member that has it.
#[verifier::opaque]
pub open spec fn holds_members<'a>(
    entries: Seq<(Key, JsonElement<'a>)>,
    b: Seq<u8>,
    ms: Seq<(int, int, int)>,
) -> bool {
    let map = members_map(b, ms);
    &&& forall|m: int|
        0 <= m < entries.len() ==> map.contains_key((#[trigger] entries[m]).0.bytes())
            && entries[m].1.read_from(map[entries[m].0.bytes()])
    &&& forall|key: Seq<u8>|
        map.contains_key(key) ==> exists|m: int| 0 <= m < entries.len() && (#[trigger] entries[m]).0.bytes() == key
}

/// Array elements appear in the order of their source ranges.
pub open spec fn in_source_order<'a>(items: Seq<JsonElement<'a>>) -> bool {
    forall|i: int, j: int|
        0 <= i < j < items.len() ==> (#[trigger] items[i]).slice.end < (#[trigger] items[j]).slice.beginning
}

impl<'a> JsonObject<'a> {
    pub fn new() -> (r: JsonObject<'a>)
        ensures
            r.entries@.len() == 0,
    {
        JsonObject { entries: Vec::new() }
    }

    /// Stores `value` under `key`, in key order; a value stored under an equal
    /// key is replaced.
    pub fn insert(&mut self, key: Key, value: JsonElement<'a>)
        requires
            keys_sorted(old(self).entries@),
        ensures
            keys_sorted(final(self).entries@),
            stores(final(self).entries@, old(self).entries@, (key, value)),
    {
        let ghost before = self.entries@;
        let ghost kv = (key, value);
        let wanted = key.key.as_str().as_bytes();
        let mut p: usize = 0;
        while p < self.entries.len() && compare_bytes(self.entries[p].0.key.as_str().as_bytes(), wanted) < 0
            invariant
                self.entries@ == before,
                wanted@ == key.bytes(),
                p <= before.len(),
                forall|k: int| 0 <= k < p ==> lex_lt((#[trigger] before[k]).0.bytes(), key.bytes()),
            decreases self.entries.len() - p,
        {
            p = p + 1;
        }
        if p < self.entries.len() && compare_bytes(self.entries[p].0.key.as_str().as_bytes(), wanted)
            == 0 {
            self.entries.set(p, (key, value));
            proof {
                lemma_replace_entry(before, p as int, kv);
            }
        } else {
            self.entries.insert(p, (key, value));
            proof {
                let after = before.insert(p as int, kv);
                lemma_insert_sorted(before, p as int, kv);
                lemma_insert_only_new(before, p as int, kv);
                lemma_insert_keeps_others(before, p as int, kv);
                lemma_stores_of_parts(after, before, kv, p as int);
            }
        }
    }
}

/// Every entry of `after` is `kv` or an entry of `before` with another key.
#[verifier::opaque]
pub open spec fn only_stored<'a>(
    after: Seq<(Key, JsonElement<'a>)>,
    before: Seq<(Key, JsonElement<'a>)>,
    kv: (Key, JsonElement<'a>),
) -> bool {
    forall|m: int|
        0 <= m < after.len() ==> #[trigger] after[m] == kv || exists|k: int|
            0 <= k < before.len() && before[k].0.bytes() != kv.0.bytes() && after[m]
                == #[trigger] before[k]
}

/// Every entry of `before` with a key other than that of `kv` is in `after`.
#[verifier::opaque]
pub open spec fn keeps_others<'a>(
    after: Seq<(Key, JsonElement<'a>)>,
    before: Seq<(Key, JsonElement<'a>)>,
    kv: (Key, JsonElement<'a>),
) -> bool {
    forall|k: int|
        0 <= k < before.len() && (#[trigger] before[k]).0.bytes() != kv.0.bytes() ==> exists|m: int|
            0 <= m < after.len() && #[trigger] after[m] == before[k]
}

/// `after` holds `kv`, every entry of `before` whose key differs from it, and nothing else.
#[verifier::opaque]
pub open spec fn stores<'a>(
    after: Seq<(Key, JsonElement<'a>)>,
    before: Seq<(Key, JsonElement<'a>)>,
    kv: (Key, JsonElement<'a>),
) -> bool {
    &&& exists|p: int| 0 <= p < after.len() && #[trigger] after[p] == kv
    &&& only_stored(after, before, kv)
    &&& keeps_others(after, before, kv)
}

proof fn lemma_replace_entry<'a>(before: Seq<(Key, JsonElement<'a>)>, p: int, kv: (Key, JsonElement<'a>))
    requires
        keys_sorted(before),
        0 <= p < before.len(),
        before[p].0.bytes() == kv.0.bytes(),
    ensures
        keys_sorted(before.update(p, kv)),
        stores(before.update(p, kv), before, kv),
{
    reveal(stores);
    reveal(only_stored);
    reveal(keeps_others);
    let after = before.update(p, kv);
    assert forall|i: int, j: int| 0 <= i < j < after.len() implies lex_lt(
        #[trigger] after[i].0.bytes(),
        #[trigger] after[j].0.bytes(),
    ) by {
        assert(lex_lt(before[i].0.bytes(), before[j].0.bytes()));
    }
    assert(after[p] == kv);
    assert forall|m: int| 0 <= m < after.len() implies #[trigger] after[m] == kv || exists|k: int|
        0 <= k < before.len() && before[k].0.bytes() != kv.0.bytes() && after[m]
            == #[trigger] before[k] by {
        if m != p {
            assert(after[m] == before[m]);
            lemma_lex_irreflexive(kv.0.bytes());
            if m < p {
                assert(lex_lt(before[m].0.bytes(), before[p].0.bytes()));
            } else {
                assert(lex_lt(before[p].0.bytes(), before[m].0.bytes()));
            }
        }
    }
    assert forall|k: int|
        0 <= k < before.len() && (#[trigger] before[k]).0.bytes() != kv.0.bytes() implies exists|m: int|
        0 <= m < after.len() && #[trigger] after[m] == before[k] by {
        assert(after[k] == before[k]);
    }
}

proof fn lemma_insert_sorted<'a>(before: Seq<(Key, JsonElement<'a>)>, p: int, kv: (Key, JsonElement<'a>))
    requires
        keys_sorted(before),
        0 <= p <= before.len(),
        forall|k: int| 0 <= k < p ==> lex_lt((#[trigger] before[k]).0.bytes(), kv.0.bytes()),
        p < before.len() ==> !lex_lt(before[p].0.bytes(), kv.0.bytes()) && before[p].0.bytes()
            != kv.0.bytes(),
    ensures
        keys_sorted(before.insert(p, kv)),
{
    let after = before.insert(p, kv);
    let k0 = kv.0.bytes();
    if p < before.len() {
        lemma_lex_total(before[p].0.bytes(), k0);
    }
    assert forall|j: int| p < j < after.len() implies lex_lt(k0, #[trigger] after[j].0.bytes()) by {
        if j - 1 > p {
            assert(lex_lt(before[p].0.bytes(), before[j - 1].0.bytes()));
            lemma_lex_transitive(k0, before[p].0.bytes(), before[j - 1].0.bytes());
        }
    }
    assert forall|i: int, j: int| 0 <= i < j < after.len() implies lex_lt(
        #[trigger] after[i].0.bytes(),
        #[trigger] after[j].0.bytes(),
    ) by {
        if j < p {
            assert(lex_lt(before[i].0.bytes(), before[j].0.bytes()));
        } else if j == p {
            assert(lex_lt(before[i].0.bytes(), k0));
        } else if i < p {
            assert(lex_lt(before[i].0.bytes(), k0));
            assert(lex_lt(k0, after[j].0.bytes()));
            lemma_lex_transitive(before[i].0.bytes(), k0, after[j].0.bytes());
        } else if i == p {
            assert(lex_lt(k0, after[j].0.bytes()));
        } else {
            assert(lex_lt(before[i - 1].0.bytes(), before[j - 1].0.bytes()));
        }
    }
}

proof fn lemma_insert_only_new<'a>(before: Seq<(Key, JsonElement<'a>)>, p: int, kv: (Key, JsonElement<'a>))
    requires
        keys_sorted(before),
        0 <= p <= before.len(),
        forall|k: int| 0 <= k < p ==> lex_lt((#[trigger] before[k]).0.bytes(), kv.0.bytes()),
        p < before.len() ==> !lex_lt(before[p].0.bytes(), kv.0.bytes()) && before[p].0.bytes()
            != kv.0.bytes(),
    ensures
        only_stored(before.insert(p, kv), before, kv),
{
    reveal(only_stored);
    let after = before.insert(p, kv);
    lemma_insert_sorted(before, p, kv);
    lemma_lex_irreflexive(kv.0.bytes());
    assert forall|m: int| 0 <= m < after.len() implies #[trigger] after[m] == kv || exists|k: int|
        0 <= k < before.len() && before[k].0.bytes() != kv.0.bytes() && after[m]
            == #[trigger] before[k] by {
        if m < p {
            assert(after[m] == before[m]);
            assert(lex_lt(before[m].0.bytes(), kv.0.bytes()));
        } else if m > p {
            assert(after[m] == before[m - 1]);
            assert(lex_lt(after[p].0.bytes(), after[m].0.bytes()));
        }
    }
}

proof fn lemma_insert_keeps_others<'a>(before: Seq<(Key, JsonElement<'a>)>, p: int, kv: (Key, JsonElement<'a>))
    requires
        0 <= p <= before.len(),
    ensures
        keeps_others(before.insert(p, kv), before, kv),
{
    reveal(keeps_others);
    let after = before.insert(p, kv);
    assert forall|k: int| 0 <= k < before.len() && (#[trigger] before[k]).0.bytes() != kv.0.bytes() implies exists|m: int|
        0 <= m < after.len() && #[trigger] after[m] == before[k] by {
        if k < p {
            assert(after[k] == before[k]);
        } else {
            assert(after[k + 1] == before[k]);
        }
    }
}


proof fn lemma_stores_of_parts<'a>(
    after: Seq<(Key, JsonElement<'a>)>,
    before: Seq<(Key, JsonElement<'a>)>,
    kv: (Key, JsonElement<'a>),
    p: int,
)
    requires
        0 <= p < after.len(),
        after[p] == kv,
        only_stored(after, before, kv),
        keeps_others(after, before, kv),
    ensures
        stores(after, before, kv),
{
    reveal(stores);
    reveal(only_stored);
    reveal(keeps_others);
}

/// Storing the value of one more member keeps the entries those of the
/// members read so far.
pub proof fn lemma_holds_after_store<'a>(
    after: Seq<(Key, JsonElement<'a>)>,
    before: Seq<(Key, JsonElement<'a>)>,
    kv: (Key, JsonElement<'a>),
    b: Seq<u8>,
    members: Seq<(int, int, int)>,
    member: (int, int, int),
)
    requires
        holds_members(before, b, members),
        stores(after, before, kv),
        kv.0.bytes() == b.subrange(member.0, member.1),
        kv.1.read_from(member.2),
    ensures
        holds_members(after, b, members.push(member)),
{
    reveal(holds_members);
    reveal(stores);
    reveal(only_stored);
    reveal(keeps_others);
    let ms = members.push(member);
    assert(ms.drop_last() =~= members);
    let old_map = members_map(b, members);
    let map = members_map(b, ms);
    assert(map == old_map.insert(kv.0.bytes(), member.2));
    assert forall|m: int| 0 <= m < after.len() implies map.contains_key((#[trigger] after[m]).0.bytes())
        && after[m].1.read_from(map[after[m].0.bytes()]) by {
        if after[m] != kv {
            let k = choose|k: int|
                0 <= k < before.len() && before[k].0.bytes() != kv.0.bytes() && after[m] == #[trigger] before[k];
            assert(old_map.contains_key(before[k].0.bytes()));
        }
    }
    assert forall|key: Seq<u8>| map.contains_key(key) implies exists|m: int|
        0 <= m < after.len() && (#[trigger] after[m]).0.bytes() == key by {
        if key == kv.0.bytes() {
            let p = choose|p: int| 0 <= p < after.len() && #[trigger] after[p] == kv;
            assert(after[p].0.bytes() == key);
        } else {
            assert(old_map.contains_key(key));
            let k = choose|k: int| 0 <= k < before.len() && (#[trigger] before[k]).0.bytes() == key;
            let m = choose|m: int| 0 <= m < after.len() && #[trigger] after[m] == before[k];
            assert(after[m].0.bytes() == key);
        }
    }
}

impl<'a> JsonElement<'a> {
    /// The payload fields that the kind does not use are empty.
    pub open spec fn only_payload(self) -> bool {
        &&& (self.json_type != JsonType::JsonBoolean ==> self.boolean is None)
        &&& (self.json_type != JsonType::JsonNumber ==> self.number is None)
        &&& (self.json_type != JsonType::JsonObject ==> self.object is None)
        &&& (self.json_type != JsonType::JsonArray ==> self.array is None)
    }

    /// The value is exactly what its source range says, all the way down.
    pub open spec fn wf(self) -> bool
        decreases self,
    {
        let b = text_bytes(self.slice.source);
        let beg = self.slice.beginning as int;
        let end = self.slice.end as int;
        &&& self.slice.wf()
        &&& self.only_payload()
        &&& match self.json_type {
            JsonType::JsonEmpty => beg == end,
            JsonType::JsonNull => self.slice.bytes() == null_text(),
            JsonType::JsonBoolean => {
                &&& self.boolean is Some
                &&& self.slice.bytes() == (if self.boolean->Some_0 { true_text() } else { false_text() })
            },
            JsonType::JsonNumber => {
                &&& self.number is Some
                &&& well_formed_number(b, beg, end)
                &&& number_in_range(b, beg, end)
                &&& self.number->Some_0.decodes(b, beg, end)
            },
            JsonType::JsonString => {
                &&& beg >= 1
                &&& b[beg - 1] == 34
                &&& string_close(b, beg) == Some(end)
            },
            JsonType::JsonObject => {
                &&& self.object is Some
                &&& b[beg] == 123 && b[end - 1] == 125
                &&& keys_sorted(self.object->Some_0.entries@)
                &&& holds_members(self.object->Some_0.entries@, b, member_list(b, beg + 1, false))
                &&& forall|i: int|
                    0 <= i < self.object->Some_0.entries@.len() ==> {
                        let v = (#[trigger] self.object->Some_0.entries@[i]).1;
                        &&& v.wf()
                        &&& v.json_type != JsonType::JsonEmpty
                        &&& v.slice.source == self.slice.source
                        &&& beg < v.slice.beginning && v.slice.end < end
                    }
            },
            JsonType::JsonArray => {
                &&& self.array is Some
                &&& b[beg] == 91 && b[end - 1] == 93
                &&& in_source_order(self.array->Some_0.items@)
                &&& self.array->Some_0.items@.len() == element_starts(b, beg + 1, false).len()
                &&& forall|i: int|
                    0 <= i < self.array->Some_0.items@.len() ==> (#[trigger] self.array->Some_0.items@[i]).read_from(
                        element_starts(b, beg + 1, false)[i],
                    )
                &&& forall|i: int|
                    0 <= i < self.array->Some_0.items@.len() ==> {
                        let v = #[trigger] self.array->Some_0.items@[i];
                        &&& v.wf()
                        &&& v.json_type != JsonType::JsonEmpty
                        &&& v.slice.source == self.slice.source
                        &&& beg < v.slice.beginning && v.slice.end < end
                    }
            },
        }
    }

    /// This value is the one that the text holds at `i`: its range starts
    /// there (past the quote, for a string) and the scan resumes after it.
    pub open spec fn read_from(self, i: int) -> bool {
        &&& self.slice.beginning == (if self.json_type == JsonType::JsonString { i + 1 } else { i })
        &&& value_end(text_bytes(self.slice.source), i) == Some(self.next_index())
    }

    /// Where a scan resumes after this value: past the closing quote of a string.
    pub open spec fn next_index(self) -> int {
        if self.json_type == JsonType::JsonString {
            self.slice.end + 1
        } else {
            self.slice.end as int
        }
    }

    /// The object entry stored under `key`, if any.
    pub open spec fn entry_index(self, key: Seq<u8>) -> Option<int> {
        if self.json_type == JsonType::JsonObject && self.object is Some && exists|i: int|
            0 <= i < self.object->Some_0.entries@.len()
                && (#[trigger] self.object->Some_0.entries@[i]).0.bytes() == key {
            Some(
                choose|i: int|
                    0 <= i < self.object->Some_0.entries@.len()
                        && (#[trigger] self.object->Some_0.entries@[i]).0.bytes() == key,
            )
        } else {
            None
        }
    }

    pub fn get_type(&self) -> (r: &JsonType)
        ensures
            *r == self.json_type,
    {
        &self.json_type
    }

    pub fn get_slice(&self) -> (r: &Slice<'a>)
        ensures
            *r == self.slice,
    {
        &self.slice
    }

    fn from_type_slice(json_type: JsonType, slice: Slice<'a>) -> (r: JsonElement<'a>)
        ensures
            r.json_type == json_type,
            r.slice == slice,
            r.boolean is None && r.number is None && r.object is None && r.array is None,
    {
        JsonElement { json_type, slice, boolean: None, number: None, object: None, array: None }
    }

    pub fn from_null(slice: Slice<'a>) -> (r: JsonElement<'a>)
        ensures
            r.json_type == JsonType::JsonNull,
            r.slice == slice,
            r.only_payload(),
    {
        JsonElement::from_type_slice(JsonType::JsonNull, slice)
    }

    pub fn from_boolean(boolean: bool, slice: Slice<'a>) -> (r: JsonElement<'a>)
        ensures
            r.json_type == JsonType::JsonBoolean,
            r.slice == slice,
            r.boolean == Some(boolean),
            r.only_payload(),
    {
        JsonElement {
            json_type: JsonType::JsonBoolean,
            slice,
            boolean: Some(boolean),
            number: None,
            object: None,
            array: None,
        }
    }

    pub fn from_string(slice: Slice<'a>) -> (r: JsonElement<'a>)
        ensures
            r.json_type == JsonType::JsonString,
            r.slice == slice,
            r.only_payload(),
    {
        JsonElement::from_type_slice(JsonType::JsonString, slice)
    }

    pub fn from_number(number: JsonNumber, slice: Slice<'a>) -> (r: JsonElement<'a>)
        ensures
            r.json_type == JsonType::JsonNumber,
            r.slice == slice,
            r.number == Some(number),
            r.only_payload(),
    {
        JsonElement {
            json_type: JsonType::JsonNumber,
            slice,
            boolean: None,
            number: Some(number),
            object: None,
            array: None,
        }
    }

    pub fn from_object(object: JsonObject<'a>, slice: Slice<'a>) -> (r: JsonElement<'a>)
        ensures
            r.json_type == JsonType::JsonObject,
            r.slice == slice,
            r.object == Some(object),
            r.only_payload(),
    {
        JsonElement {
            json_type: JsonType::JsonObject,
            slice,
            boolean: None,
            number: None,
            object: Some(object),
            array: None,
        }
    }

    pub fn from_array(array: JsonArray<'a>, slice: Slice<'a>) -> (r: JsonElement<'a>)
        ensures
            r.json_type == JsonType::JsonArray,
            r.slice == slice,
            r.array == Some(array),
            r.only_payload(),
    {
        JsonElement {
            json_type: JsonType::JsonArray,
            slice,
            boolean: None,
            number: None,
            object: None,
            array: Some(array),
        }
    }

    /// The absent value: what a lookup of a missing key or index stands for.
    pub fn empty() -> (r: JsonElement<'a>)
        ensures
            r.json_type == JsonType::JsonEmpty,
            r.wf(),
            text_bytes(r.slice.source).len() == 0,
            r.slice.beginning == 0 && r.slice.end == 0,
    {
        let source: &'a str = "";
        proof {
            reveal_strlit("");
            assert(source@.len() == 0);
            assert(text_bytes(source).len() == 0);
            vstd::utf8::encode_utf8_valid_utf8(source@);
            vstd::utf8::is_char_boundary_start_end_of_seq(text_bytes(source));
        }
        JsonElement::from_type_slice(JsonType::JsonEmpty, Slice { source, beginning: 0, end: 0 })
    }

    pub fn is_present(&self) -> (r: bool)
        ensures
            r == (self.json_type != JsonType::JsonEmpty),
    {
        self.json_type != JsonType::JsonEmpty
    }

    /// The text of a string value, quotes excluded.
    pub fn as_str(&self) -> (r: Option<&'a str>)
        requires
            self.slice.wf(),
        ensures
            self.json_type == JsonType::JsonString ==> (r matches Some(s) && text_bytes(s)
                == self.slice.bytes()),
            self.json_type != JsonType::JsonString ==> r is None,
    {
        match self.json_type {
            JsonType::JsonString => Some(self.slice.as_str()),
            _ => None,
        }
    }

    /// The exact mantissa of a number: its digits, sign applied, the decimal
    /// point ignored. For a literal with no fraction and no exponent it is the
    /// literal's value.
    pub fn as_i128(&self) -> (r: Option<i128>)
        ensures
            r == (if self.json_type == JsonType::JsonNumber && self.number is Some {
                Some(self.number->Some_0.mantissa)
            } else {
                None
            }),
    {
        match self.json_type {
            JsonType::JsonNumber => match &self.number {
                Some(n) => Some(n.i128()),
                None => None,
            },
            _ => None,
        }
    }

    /// The decoded number, integer or not.
    pub fn as_number(&self) -> (r: Option<JsonNumber>)
        ensures
            r == (if self.json_type == JsonType::JsonNumber { self.number } else { None }),
    {
        match self.json_type {
            JsonType::JsonNumber => self.number,
            _ => None,
        }
    }

    pub fn as_bool(&self) -> (r: Option<bool>)
        ensures
            r == (if self.json_type == JsonType::JsonBoolean { self.boolean } else { None }),
    {
        match self.json_type {
            JsonType::JsonBoolean => self.boolean,
            _ => None,
        }
    }

    /// The value stored under `key` in an object; `None` for a missing key or
    /// a value of another kind.
    pub fn get(&self, key: &str) -> (r: Option<&JsonElement<'a>>)
        requires
            self.object matches Some(o) ==> keys_sorted(o.entries@),
        ensures
            match self.entry_index(text_bytes(key)) {
                Some(i) => r == Some(&self.object->Some_0.entries@[i].1),
                None => r is None,
            },
    {
        match self.json_type {
            JsonType::JsonObject => match &self.object {
                Some(o) => {
                    let wanted = key.as_bytes();
                    let mut i: usize = 0;
                    while i < o.entries.len()
                        invariant
                            self.object == Some(*o),
                            keys_sorted(o.entries@),
                            self.json_type == JsonType::JsonObject,
                            wanted@ == text_bytes(key),
                            i <= o.entries@.len(),
                            forall|k: int| 0 <= k < i ==> (#[trigger] o.entries@[k]).0.bytes() != wanted@,
                        decreases o.entries.len() - i,
                    {
                        let found = o.entries[i].0.key.as_str().as_bytes();
                        if compare_bytes(found, wanted) == 0 {
                            proof {
                                assert(o.entries@[i as int].0.bytes() == text_bytes(key));
                                assert(self.object->Some_0.entries@[i as int].0.bytes() == text_bytes(key));
                                let e = o.entries@;
                                let j = self.entry_index(text_bytes(key))->Some_0;
                                assert(self.entry_index(text_bytes(key)) is Some);
                                assert(0 <= j < e.len() && e[j].0.bytes() == text_bytes(key));
                                assert(keys_sorted(e));
                                if j < i {
                                    assert(lex_lt(e[j].0.bytes(), e[i as int].0.bytes()));
                                    lemma_lex_irreflexive(wanted@);
                                } else if j > i {
                                    assert(lex_lt(e[i as int].0.bytes(), e[j].0.bytes()));
                                    lemma_lex_irreflexive(wanted@);
                                }
                            }
                            return Some(&o.entries[i].1);
                        }
                        i = i + 1;
                    }
                    None
                },
                None => None,
            },
            _ => None,
        }
    }

    /// The element at `index` of an array; `None` out of bounds or for a
    /// value of another kind.
    pub fn at(&self, index: usize) -> (r: Option<&JsonElement<'a>>)
        ensures
            (self.json_type == JsonType::JsonArray && self.array is Some && index
                < self.array->Some_0.items@.len()) ==> r == Some(&self.array->Some_0.items@[index as int]),
            !(self.json_type == JsonType::JsonArray && self.array is Some && index
                < self.array->Some_0.items@.len()) ==> r is None,
    {
        match self.json_type {
            JsonType::JsonArray => match &self.array {
                Some(a) => if index < a.items.len() {
                    Some(&a.items[index])
                } else {
                    None
                },
                None => None,
            },
            _ => None,
        }
    }

    /// The entries of an object, sorted by key.
    pub fn entries(&self) -> (r: Option<&Vec<(Key, JsonElement<'a>)>>)
        ensures
            (self.json_type == JsonType::JsonObject && self.object is Some) ==> r == Some(
                &self.object->Some_0.entries,
            ),
            !(self.json_type == JsonType::JsonObject && self.object is Some) ==> r is None,
    {
        match self.json_type {
            JsonType::JsonObject => match &self.object {
                Some(o) => Some(&o.entries),
                None => None,
            },
            _ => None,
        }
    }

    /// The elements of an array, in source order.
    pub fn elements(&self) -> (r: Option<&Vec<JsonElement<'a>>>)
        ensures
            (self.json_type == JsonType::JsonArray && self.array is Some) ==> r == Some(
                &self.array->Some_0.items,
            ),
            !(self.json_type == JsonType::JsonArray && self.array is Some) ==> r is None,
    {
        match self.json_type {
            JsonType::JsonArray => match &self.array {
                Some(a) => Some(&a.items),
                None => None,
            },
            _ => None,
        }
    }
}

} // verus!
