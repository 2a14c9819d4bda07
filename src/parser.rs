//! The recursive-descent parser: one function per production, each proved
//! to follow the grammar exactly.

use vstd::prelude::*;
use crate::grammar::{
    value_end, value_scan, members_scan, elements_scan, element_starts, member_list, document_scan, too_deep_from, MAX_DEPTH, skip_ws, is_ws, string_close, number_scan_end,
    is_number_byte, matches_at, null_text, true_text, false_text,
};
use crate::json_element::{
    JsonElement, JsonObject, JsonArray, keys_sorted, in_source_order, stores, holds_members, only_stored, keeps_others,
    lemma_holds_after_store,
};
use crate::json_error::JsonError;
use crate::json_number::{decode_number, is_digit};
use crate::json_type::JsonType;
use crate::key::Key;
use crate::slice::{Slice, text_bytes, lemma_ascii_boundaries};

verus! {

/// `e` is the value read from the text `source` at `i`, and the scan goes on
/// where the grammar says it does.
pub open spec fn read_at<'a>(e: JsonElement<'a>, source: &'a str, i: int) -> bool {
    &&& e.wf()
    &&& e.slice.source == source
    &&& e.json_type != JsonType::JsonEmpty
    &&& i < e.next_index() <= text_bytes(source).len()
    &&& e.read_from(i)
}

proof fn lemma_skip_ws_bounds(b: Seq<u8>, i: int)
    requires
        0 <= i <= b.len(),
    ensures
        i <= skip_ws(b, i) <= b.len(),
        skip_ws(b, i) < b.len() ==> !is_ws(b[skip_ws(b, i)]),
    decreases b.len() - i,
{
    if i < b.len() && is_ws(b[i]) {
        lemma_skip_ws_bounds(b, i + 1);
    }
}

/// Skips whitespace; fails at the end of the text when nothing else follows.
fn skip_spaces(b: &[u8], index: usize) -> (r: Result<usize, JsonError>)
    requires
        index <= b@.len(),
    ensures
        r is Ok <==> skip_ws(b@, index as int) < b@.len(),
        r matches Ok(j) ==> j == skip_ws(b@, index as int) && index <= j,
        r matches Err(e) ==> e.offset == b@.len(),
{
    let mut i = index;
    while i < b.len() && (b[i] == 32 || b[i] == 10 || b[i] == 13 || b[i] == 9)
        invariant
            index <= i <= b@.len(),
            skip_ws(b@, index as int) == skip_ws(b@, i as int),
        decreases b.len() - i,
    {
        i = i + 1;
    }
    if i < b.len() {
        Ok(i)
    } else {
        Err(JsonError::new(b.len()))
    }
}

/// Where the scan resumes after `item`.
fn update_index(item: &JsonElement) -> (r: usize)
    requires
        item.json_type == JsonType::JsonString ==> item.slice.end < usize::MAX,
    ensures
        r == item.next_index(),
{
    if item.json_type == JsonType::JsonString {
        item.slice.end + 1
    } else {
        item.slice.end
    }
}

/// Reads the literal `t`, whose first byte stands at `index`.
fn literal_at(b: &[u8], index: usize, t: &[u8]) -> (r: bool)
    requires
        index < b@.len(),
        t@.len() > 0,
    ensures
        r == matches_at(b@, index as int, t@),
{
    if b.len() - index < t.len() {
        return false;
    }
    let mut k: usize = 0;
    while k < t.len()
        invariant
            index + t@.len() <= b@.len(),
            b@.len() == b.len(),
            k <= t@.len(),
            forall|m: int| 0 <= m < k ==> b@[index + m] == t@[m],
        decreases t.len() - k,
    {
        if b[index + k] != t[k] {
            assert(b@.subrange(index as int, index + t@.len())[k as int] != t@[k as int]);
            return false;
        }
        k = k + 1;
    }
    assert(b@.subrange(index as int, index + t@.len()) =~= t@);
    true
}

fn parse_null<'a>(source: &'a str, b: &[u8], index: usize) -> (r: Result<JsonElement<'a>, JsonError>)
    requires
        b@ == text_bytes(source),
        index < b@.len(),
        b@[index as int] == 110,
    ensures
        r is Ok <==> value_end(b@, index as int) is Some,
        r matches Err(e) ==> value_scan(b@, index as int) == Err::<int, int>(e.offset as int),
        r matches Ok(e) ==> read_at(e, source, index as int),
        r matches Err(e) ==> e.offset == index,
{
    let t: [u8; 4] = [110, 117, 108, 108];
    assert(t@ == null_text());
    if b.len() - index > 3 && literal_at(b, index, &t) {
        proof {
            lemma_ascii_boundaries(source, index as int);
            lemma_ascii_boundaries(source, index + 3);
        }
        let e = JsonElement::from_null(Slice::new(source, index, index + 4));
        assert(e.slice.bytes() =~= null_text());
        Ok(e)
    } else {
        Err(JsonError::new(index))
    }
}

fn parse_true<'a>(source: &'a str, b: &[u8], index: usize) -> (r: Result<JsonElement<'a>, JsonError>)
    requires
        b@ == text_bytes(source),
        index < b@.len(),
        b@[index as int] == 116,
    ensures
        r is Ok <==> value_end(b@, index as int) is Some,
        r matches Err(e) ==> value_scan(b@, index as int) == Err::<int, int>(e.offset as int),
        r matches Ok(e) ==> read_at(e, source, index as int),
        r matches Err(e) ==> e.offset == index,
{
    let t: [u8; 4] = [116, 114, 117, 101];
    assert(t@ == true_text());
    if b.len() - index > 3 && literal_at(b, index, &t) {
        proof {
            lemma_ascii_boundaries(source, index as int);
            lemma_ascii_boundaries(source, index + 3);
        }
        let e = JsonElement::from_boolean(true, Slice::new(source, index, index + 4));
        assert(e.slice.bytes() =~= true_text());
        Ok(e)
    } else {
        Err(JsonError::new(index))
    }
}

fn parse_false<'a>(source: &'a str, b: &[u8], index: usize) -> (r: Result<JsonElement<'a>, JsonError>)
    requires
        b@ == text_bytes(source),
        index < b@.len(),
        b@[index as int] == 102,
    ensures
        r is Ok <==> value_end(b@, index as int) is Some,
        r matches Err(e) ==> value_scan(b@, index as int) == Err::<int, int>(e.offset as int),
        r matches Ok(e) ==> read_at(e, source, index as int),
        r matches Err(e) ==> e.offset == index,
{
    let t: [u8; 5] = [102, 97, 108, 115, 101];
    assert(t@ == false_text());
    if b.len() - index > 4 && literal_at(b, index, &t) {
        proof {
            lemma_ascii_boundaries(source, index as int);
            lemma_ascii_boundaries(source, index + 4);
        }
        let e = JsonElement::from_boolean(false, Slice::new(source, index, index + 5));
        assert(e.slice.bytes() =~= false_text());
        Ok(e)
    } else {
        Err(JsonError::new(index))
    }
}

fn is_number_byte_at(b: &[u8], i: usize) -> (r: bool)
    requires
        i < b@.len(),
    ensures
        r == is_number_byte(b@[i as int]),
{
    let c = b[i];
    (c >= 48 && c <= 57) || c == 43 || c == 45 || c == 46 || c == 101 || c == 69
}

/// Reads a number literal: the bytes that may continue one are taken, then decoded.
fn parse_number<'a>(source: &'a str, b: &[u8], index: usize) -> (r: Result<JsonElement<'a>, JsonError>)
    requires
        b@ == text_bytes(source),
        index < b@.len(),
        b@[index as int] == 45 || is_digit(b@[index as int]),
    ensures
        r is Ok <==> value_end(b@, index as int) is Some,
        r matches Err(e) ==> value_scan(b@, index as int) == Err::<int, int>(e.offset as int),
        r matches Ok(e) ==> read_at(e, source, index as int),
        r matches Err(e) ==> index <= e.offset <= b@.len(),
{
    let len = b.len();
    let mut i = index + 1;
    while i < len && is_number_byte_at(b, i)
        invariant
            len == b@.len(),
            index < i <= b@.len(),
            number_scan_end(b@, index + 1) == number_scan_end(b@, i as int),
            forall|m: int| index <= m < i ==> is_number_byte(#[trigger] b@[m]),
        decreases b.len() - i,
    {
        i = i + 1;
    }
    if i == b.len() {
        return Err(JsonError::new(b.len()));
    }
    match decode_number(b, index, i) {
        Ok(n) => {
            proof {
                lemma_ascii_boundaries(source, index as int);
                lemma_ascii_boundaries(source, i - 1);
            }
            Ok(JsonElement::from_number(n, Slice::new(source, index, i)))
        },
        Err(off) => Err(JsonError::new(off)),
    }
}

/// Reads a string whose opening quote stands at `index`; a backslash escapes
/// the byte after it. The range excludes the quotes.
fn parse_string<'a>(source: &'a str, b: &[u8], index: usize) -> (r: Result<JsonElement<'a>, JsonError>)
    requires
        b@ == text_bytes(source),
        index < b@.len(),
        b@[index as int] == 34,
    ensures
        r is Ok <==> string_close(b@, index + 1) is Some,
        r matches Ok(e) ==> read_at(e, source, index as int) && e.json_type == JsonType::JsonString
            && e.slice.beginning == index + 1 && string_close(b@, index + 1) == Some(
            e.slice.end as int,
        ),
        r matches Err(e) ==> e.offset == b@.len(),
{
    let len = b.len();
    let mark = index + 1;
    let mut i = mark;
    while i < b.len()
        invariant
            mark == index + 1,
            mark <= i <= b@.len(),
            b@.len() == len,
            b@ == text_bytes(source),
            b@[index as int] == 34,
            string_close(b@, mark as int) == string_close(b@, i as int),
        decreases b.len() - i,
    {
        if b[i] == 34 {
            assert(string_close(b@, i as int) == Some(i as int));
            proof {
                lemma_ascii_boundaries(source, index as int);
                lemma_ascii_boundaries(source, i as int);
            }
            return Ok(JsonElement::from_string(Slice::new(source, mark, i)));
        }
        if b[i] == 92 {
            if b.len() - i <= 2 {
                assert(string_close(b@, i + 2) is None);
                assert(string_close(b@, i as int) is None);
                return Err(JsonError::new(b.len()));
            }
            i = i + 2;
        } else {
            i = i + 1;
        }
    }
    Err(JsonError::new(b.len()))
}

/// A member or element already read: a value of the text inside the
/// container that opens at `mark`, ending at or before `i`.
pub open spec fn inside<'a>(v: JsonElement<'a>, source: &'a str, mark: int, i: int) -> bool {
    &&& v.wf()
    &&& v.json_type != JsonType::JsonEmpty
    &&& v.slice.source == source
    &&& mark < v.slice.beginning
    &&& v.slice.end <= i
}

proof fn lemma_inside_after_store<'a>(
    after: Seq<(Key, JsonElement<'a>)>,
    before: Seq<(Key, JsonElement<'a>)>,
    kv: (Key, JsonElement<'a>),
    source: &'a str,
    mark: int,
    i: int,
    next: int,
)
    requires
        stores(after, before, kv),
        forall|m: int| 0 <= m < before.len() ==> inside((#[trigger] before[m]).1, source, mark, i),
        inside(kv.1, source, mark, next),
        i <= next,
    ensures
        forall|m: int| 0 <= m < after.len() ==> inside((#[trigger] after[m]).1, source, mark, next),
{
    reveal(stores);
    reveal(only_stored);
    reveal(keeps_others);
    assert forall|m: int| 0 <= m < after.len() implies inside((#[trigger] after[m]).1, source, mark, next) by {
        if after[m] != kv {
            let k = choose|k: int|
                0 <= k < before.len() && before[k].0.bytes() != kv.0.bytes() && after[m] == #[trigger] before[k];
            assert(inside(before[k].1, source, mark, i));
        }
    }
}

/// Reads any value that starts at `index`, by its first byte.
fn parse_unknown<'a>(source: &'a str, b: &[u8], index: usize) -> (r: Result<JsonElement<'a>, JsonError>)
    requires
        b@ == text_bytes(source),
        index < b@.len(),
    ensures
        r is Ok <==> value_end(b@, index as int) is Some,
        r matches Err(e) ==> value_scan(b@, index as int) == Err::<int, int>(e.offset as int),
        r matches Ok(e) ==> read_at(e, source, index as int),
        r matches Err(e) ==> index <= e.offset <= b@.len(),
    decreases b@.len() - index, 1int,
{
    let c = b[index];
    if c == 110 {
        parse_null(source, b, index)
    } else if c == 116 {
        parse_true(source, b, index)
    } else if c == 102 {
        parse_false(source, b, index)
    } else if c == 45 || (c >= 48 && c <= 57) {
        parse_number(source, b, index)
    } else if c == 34 {
        parse_string(source, b, index)
    } else if c == 123 {
        parse_map(source, b, index)
    } else if c == 91 {
        parse_array(source, b, index)
    } else {
        Err(JsonError::new(index))
    }
}

/// Reads an object whose opening brace stands at `index`. Entries are kept
/// sorted by key; a repeated key keeps the value read last.
fn parse_map<'a>(source: &'a str, b: &[u8], index: usize) -> (r: Result<JsonElement<'a>, JsonError>)
    requires
        b@ == text_bytes(source),
        index < b@.len(),
        b@[index as int] == 123,
    ensures
        r is Ok <==> value_end(b@, index as int) is Some,
        r matches Err(e) ==> value_scan(b@, index as int) == Err::<int, int>(e.offset as int),
        r matches Ok(e) ==> read_at(e, source, index as int) && e.slice.beginning == index
            && e.json_type == JsonType::JsonObject,
        r matches Err(e) ==> index <= e.offset <= b@.len(),
    decreases b@.len() - index, 0int,
{
    let len = b.len();
    let mark = index;
    let mut i = index + 1;
    let mut object = JsonObject::new();
    let mut nonempty = false;
    let ghost members: Seq<(int, int, int)> = Seq::empty();
    proof {
        reveal(holds_members);
    }
    assert(members + member_list(b@, i as int, nonempty) =~= member_list(b@, i as int, nonempty));
    loop
        invariant
            b@ == text_bytes(source),
            len == b@.len(),
            mark == index,
            b@[mark as int] == 123,
            mark < i <= len,
            value_scan(b@, mark as int) == members_scan(b@, i as int, nonempty),
            keys_sorted(object.entries@),
            member_list(b@, mark + 1, false) == members + member_list(b@, i as int, nonempty),
            holds_members(object.entries@, b@, members),
            forall|m: int|
                0 <= m < object.entries@.len() ==> inside(
                    (#[trigger] object.entries@[m]).1,
                    source,
                    mark as int,
                    i as int,
                ),
        decreases len - i,
    {
        proof {
            lemma_skip_ws_bounds(b@, i as int);
        }
        let j = match skip_spaces(b, i) {
            Ok(j) => j,
            Err(e) => {
                return Err(e);
            },
        };
        if b[j] == 125 {
            proof {
                lemma_ascii_boundaries(source, mark as int);
                lemma_ascii_boundaries(source, j as int);
                assert(members + member_list(b@, i as int, nonempty) =~= members);
            }
            let e = JsonElement::from_object(object, Slice::new(source, mark, j + 1));
            return Ok(e);
        }
        if b[j] == 44 && !nonempty {
            return Err(JsonError::new(j));
        }
        if b[j] != 44 && nonempty {
            return Err(JsonError::new(j));
        }
        let k = if b[j] == 44 {
            proof {
                lemma_skip_ws_bounds(b@, j + 1);
            }
            match skip_spaces(b, j + 1) {
                Ok(k) => k,
                Err(e) => {
                    return Err(e);
                },
            }
        } else {
            j
        };
        if b[k] != 34 {
            return Err(JsonError::new(k));
        }
        let key = match parse_string(source, b, k) {
            Ok(key) => key,
            Err(e) => {
                return Err(e);
            },
        };
        let c = key.slice.end;
        proof {
            lemma_skip_ws_bounds(b@, c + 1);
        }
        let s = match skip_spaces(b, c + 1) {
            Ok(s) => s,
            Err(e) => {
                return Err(e);
            },
        };
        if b[s] != 58 {
            return Err(JsonError::new(s));
        }
        proof {
            lemma_skip_ws_bounds(b@, s + 1);
        }
        let v = match skip_spaces(b, s + 1) {
            Ok(v) => v,
            Err(e) => {
                return Err(e);
            },
        };
        let item = match parse_unknown(source, b, v) {
            Ok(item) => item,
            Err(e) => {
                return Err(e);
            },
        };
        let next = update_index(&item);
        let name = Key::from(key.slice.as_str().to_owned());
        let ghost before = object.entries@;
        let ghost kv = (name, item);
        object.insert(name, item);
        proof {
            let member = (k + 1, c as int, v as int);
            lemma_holds_after_store(object.entries@, before, kv, b@, members, member);
            assert(member_list(b@, i as int, nonempty) == seq![member] + member_list(b@, next as int, true));
            assert(members + (seq![member] + member_list(b@, next as int, true)) =~= members.push(member)
                + member_list(b@, next as int, true));
            members = members.push(member);
            lemma_inside_after_store(object.entries@, before, kv, source, mark as int, i as int, next as int);
        }
        i = next;
        nonempty = true;
    }
}

/// Reads an array whose opening bracket stands at `index`; elements keep
/// their source order.
fn parse_array<'a>(source: &'a str, b: &[u8], index: usize) -> (r: Result<JsonElement<'a>, JsonError>)
    requires
        b@ == text_bytes(source),
        index < b@.len(),
        b@[index as int] == 91,
    ensures
        r is Ok <==> value_end(b@, index as int) is Some,
        r matches Err(e) ==> value_scan(b@, index as int) == Err::<int, int>(e.offset as int),
        r matches Ok(e) ==> read_at(e, source, index as int) && e.slice.beginning == index
            && e.json_type == JsonType::JsonArray,
        r matches Err(e) ==> index <= e.offset <= b@.len(),
    decreases b@.len() - index, 0int,
{
    let len = b.len();
    let mark = index;
    let mut i = index + 1;
    let mut items: Vec<JsonElement<'a>> = Vec::new();
    let mut nonempty = false;
    let ghost starts: Seq<int> = Seq::empty();
    assert(starts + element_starts(b@, i as int, nonempty) =~= element_starts(b@, i as int, nonempty));
    loop
        invariant
            b@ == text_bytes(source),
            len == b@.len(),
            mark == index,
            b@[mark as int] == 91,
            mark < i <= len,
            value_scan(b@, mark as int) == elements_scan(b@, i as int, nonempty),
            nonempty || items@.len() == 0,
            in_source_order(items@),
            forall|m: int| 0 <= m < items@.len() ==> inside(#[trigger] items@[m], source, mark as int, i as int),
            items@.len() == starts.len(),
            element_starts(b@, mark + 1, false) == starts + element_starts(b@, i as int, nonempty),
            forall|m: int| 0 <= m < items@.len() ==> (#[trigger] items@[m]).read_from(starts[m]),
        decreases len - i,
    {
        proof {
            lemma_skip_ws_bounds(b@, i as int);
        }
        let j = match skip_spaces(b, i) {
            Ok(j) => j,
            Err(e) => {
                return Err(e);
            },
        };
        if b[j] == 93 {
            proof {
                lemma_ascii_boundaries(source, mark as int);
                lemma_ascii_boundaries(source, j as int);
                assert(starts + element_starts(b@, i as int, nonempty) =~= starts);
            }
            let e = JsonElement::from_array(JsonArray { items }, Slice::new(source, mark, j + 1));
            return Ok(e);
        }
        if b[j] == 44 && !nonempty {
            return Err(JsonError::new(j));
        }
        if b[j] != 44 && nonempty {
            return Err(JsonError::new(j));
        }
        let v = if b[j] == 44 {
            proof {
                lemma_skip_ws_bounds(b@, j + 1);
            }
            match skip_spaces(b, j + 1) {
                Ok(v) => v,
                Err(e) => {
                    return Err(e);
                },
            }
        } else {
            j
        };
        let item = match parse_unknown(source, b, v) {
            Ok(item) => item,
            Err(e) => {
                return Err(e);
            },
        };
        let next = update_index(&item);
        let ghost before = items@;
        let ghost old_starts = starts;
        items.push(item);
        proof {
            starts = starts.push(v as int);
            assert(element_starts(b@, i as int, nonempty) == seq![v as int] + element_starts(b@, next as int, true));
            assert(old_starts + (seq![v as int] + element_starts(b@, next as int, true)) =~= starts + element_starts(
                b@,
                next as int,
                true,
            ));
            assert forall|m: int| 0 <= m < items@.len() implies (#[trigger] items@[m]).read_from(starts[m]) by {
                if m < before.len() {
                    assert(items@[m] == before[m]);
                }
            }
            assert forall|m: int, n: int| 0 <= m < n < items@.len() implies (#[trigger] items@[m]).slice.end
                < (#[trigger] items@[n]).slice.beginning by {
                if n < before.len() {
                    assert(items@[m] == before[m] && items@[n] == before[n]);
                } else {
                    assert(items@[m] == before[m]);
                    assert(inside(before[m], source, mark as int, i as int));
                }
            }
            assert forall|m: int| 0 <= m < items@.len() implies inside(
                #[trigger] items@[m],
                source,
                mark as int,
                next as int,
            ) by {
                if m < before.len() {
                    assert(items@[m] == before[m]);
                    assert(inside(before[m], source, mark as int, i as int));
                }
            }
        }
        i = next;
        nonempty = true;
    }
}

/// The offset of the first opening brace or bracket that nests deeper than
/// `MAX_DEPTH`, from `start` on and strings skipped, if any.
fn find_too_deep(b: &[u8], start: usize) -> (r: Option<usize>)
    requires
        start <= b@.len(),
    ensures
        r matches Some(k) ==> too_deep_from(b@, start as int, 0, false) == Some(k as int),
        r is None ==> too_deep_from(b@, start as int, 0, false) is None,
{
    let len = b.len();
    let mut i: usize = start;
    let mut depth: usize = 0;
    let mut in_string = false;
    while i < len
        invariant
            len == b@.len(),
            i <= len,
            depth <= MAX_DEPTH,
            too_deep_from(b@, start as int, 0, false) == too_deep_from(b@, i as int, depth as int, in_string),
        decreases len - i,
    {
        let c = b[i];
        if in_string {
            if c == 92 {
                if len - i <= 2 {
                    assert(too_deep_from(b@, i + 2, depth as int, true) is None);
                    return None;
                }
                i = i + 2;
            } else {
                if c == 34 {
                    in_string = false;
                }
                i = i + 1;
            }
        } else {
            if c == 34 {
                in_string = true;
            } else if c == 123 || c == 91 {
                if depth >= MAX_DEPTH {
                    return Some(i);
                }
                depth = depth + 1;
            } else if c == 125 || c == 93 {
                if depth > 0 {
                    depth = depth - 1;
                }
            }
            i = i + 1;
        }
    }
    None
}

/// Parses a document: after leading whitespace, an object or an array.
pub fn parse<'a>(source: &'a str) -> (r: Result<JsonElement<'a>, JsonError>)
    ensures
        r is Ok <==> document_scan(text_bytes(source)) is Ok && too_deep_from(
            text_bytes(source),
            skip_ws(text_bytes(source), 0),
            0,
            false,
        ) is None,
        r matches Ok(e) ==> {
            &&& e.wf()
            &&& e.slice.source == source
            &&& (e.json_type == JsonType::JsonObject || e.json_type == JsonType::JsonArray)
            &&& e.slice.beginning == skip_ws(text_bytes(source), 0)
            &&& document_scan(text_bytes(source)) == Ok::<int, int>(e.slice.end as int)
        },
        r matches Err(e) ==> ({
            let b = text_bytes(source);
            let j = skip_ws(b, 0);
            if j >= b.len() {
                e.offset == b.len()
            } else if b[j] != 123 && b[j] != 91 {
                e.offset == j
            } else {
                match too_deep_from(b, j, 0, false) {
                    Some(k) => e.offset == k,
                    None => document_scan(b) == Err::<int, int>(e.offset as int),
                }
            }
        }),
        r matches Err(e) ==> e.offset <= text_bytes(source).len(),
{
    let b = source.as_bytes();
    proof {
        lemma_skip_ws_bounds(b@, 0);
    }
    let index = match skip_spaces(b, 0) {
        Ok(index) => index,
        Err(e) => {
            return Err(e);
        },
    };
    if b[index] != 123 && b[index] != 91 {
        return Err(JsonError::new(index));
    }
    match find_too_deep(b, index) {
        Some(k) => {
            proof {
                lemma_too_deep_bounds(b@, index as int, 0, false);
            }
            return Err(JsonError::new(k));
        },
        None => {},
    }
    if b[index] == 123 {
        parse_map(source, b, index)
    } else {
        parse_array(source, b, index)
    }
}

proof fn lemma_too_deep_bounds(b: Seq<u8>, i: int, depth: int, in_string: bool)
    ensures
        too_deep_from(b, i, depth, in_string) matches Some(k) ==> 0 <= k < b.len(),
    decreases b.len() + 1 - i,
{
    if 0 <= i < b.len() {
        lemma_too_deep_bounds(b, i + 1, depth, in_string);
        lemma_too_deep_bounds(b, i + 1, depth, !in_string);
        lemma_too_deep_bounds(b, i + 1, depth + 1, false);
        lemma_too_deep_bounds(b, i + 1, if depth > 0 { depth - 1 } else { 0 }, false);
        lemma_too_deep_bounds(b, i + 2, depth, true);
    }
}

} // verus!
