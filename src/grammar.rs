//! The grammar the parser accepts, as spec functions over the text's bytes:
//! where each value ends and where a scan fails.

use vstd::prelude::*;
use crate::json_number::{is_digit, well_formed_number, number_in_range, number_error};

verus! {

/// Space, line feed, carriage return or tab.
pub open spec fn is_ws(c: u8) -> bool {
    c == 32 || c == 10 || c == 13 || c == 9
}

/// The first index at or after `i` that holds no whitespace (or the length).
pub open spec fn skip_ws(b: Seq<u8>, i: int) -> int
    decreases b.len() - i,
{
    if 0 <= i < b.len() && is_ws(b[i]) {
        skip_ws(b, i + 1)
    } else {
        i
    }
}

/// The index of the quote that closes a string whose content starts at `i`:
/// a backslash always escapes the byte after it.
pub open spec fn string_close(b: Seq<u8>, i: int) -> Option<int>
    decreases b.len() + 1 - i,
{
    if i < 0 || i >= b.len() {
        None
    } else if b[i] == 34 {
        Some(i)
    } else if b[i] == 92 {
        string_close(b, i + 2)
    } else {
        string_close(b, i + 1)
    }
}

/// A byte that may continue a number literal.
pub open spec fn is_number_byte(c: u8) -> bool {
    is_digit(c) || c == 43 || c == 45 || c == 46 || c == 101 || c == 69
}

/// The first index at or after `i` whose byte cannot continue a number (or the length).
pub open spec fn number_scan_end(b: Seq<u8>, i: int) -> int
    decreases b.len() - i,
{
    if 0 <= i < b.len() && is_number_byte(b[i]) {
        number_scan_end(b, i + 1)
    } else {
        i
    }
}

/// `b[i..i + t.len()]` is `t`.
pub open spec fn matches_at(b: Seq<u8>, i: int, t: Seq<u8>) -> bool {
    0 <= i && i + t.len() <= b.len() && b.subrange(i, i + t.len()) == t
}

/// The bytes of `null`, `true` and `false`.
pub open spec fn null_text() -> Seq<u8> {
    seq![110u8, 117, 108, 108]
}

pub open spec fn true_text() -> Seq<u8> {
    seq![116u8, 114, 117, 101]
}

pub open spec fn false_text() -> Seq<u8> {
    seq![102u8, 97, 108, 115, 101]
}

/// Scans the value that starts at `i`: `Ok` with the index where the scan
/// resumes after it, or `Err` with the offset at which the scan fails.
/// A number literal must be followed by at least one more byte of the text;
/// a malformed one fails where its first digit is missing or where it breaks,
/// one whose parts overflow at its first byte.
pub open spec fn value_scan(b: Seq<u8>, i: int) -> Result<int, int>
    decreases b.len() - i, 0int,
{
    if i < 0 || i >= b.len() {
        Err(i)
    } else if b[i] == 110 {
        if i + 3 < b.len() && matches_at(b, i, null_text()) { Ok(i + 4) } else { Err(i) }
    } else if b[i] == 116 {
        if i + 3 < b.len() && matches_at(b, i, true_text()) { Ok(i + 4) } else { Err(i) }
    } else if b[i] == 102 {
        if i + 4 < b.len() && matches_at(b, i, false_text()) { Ok(i + 5) } else { Err(i) }
    } else if b[i] == 45 || is_digit(b[i]) {
        let e = number_scan_end(b, i + 1);
        if e >= b.len() {
            Err(b.len() as int)
        } else if well_formed_number(b, i, e) && number_in_range(b, i, e) {
            Ok(e)
        } else {
            Err(number_error(b, i, e))
        }
    } else if b[i] == 34 {
        match string_close(b, i + 1) {
            Some(c) => Ok(c + 1),
            None => Err(b.len() as int),
        }
    } else if b[i] == 123 {
        members_scan(b, i + 1, false)
    } else if b[i] == 91 {
        elements_scan(b, i + 1, false)
    } else {
        Err(i)
    }
}

/// Scans the rest of an object whose next entry, separator or closing brace
/// is looked for from `i`; `nonempty` tells if an entry came before.
pub open spec fn members_scan(b: Seq<u8>, i: int, nonempty: bool) -> Result<int, int>
    decreases b.len() - i, 1int,
{
    let j = skip_ws(b, i);
    if i < 0 || j < i {
        Err(i)
    } else if j >= b.len() {
        Err(b.len() as int)
    } else if b[j] == 125 {
        Ok(j + 1)
    } else if b[j] == 44 && !nonempty {
        Err(j)
    } else if b[j] != 44 && nonempty {
        Err(j)
    } else {
        let k = if b[j] == 44 { skip_ws(b, j + 1) } else { j };
        if k < j {
            Err(j)
        } else if k >= b.len() {
            Err(b.len() as int)
        } else if b[k] != 34 {
            Err(k)
        } else {
            match string_close(b, k + 1) {
                None => Err(b.len() as int),
                Some(c) => {
                    let s = skip_ws(b, c + 1);
                    if c < k || s < c + 1 {
                        Err(k)
                    } else if s >= b.len() {
                        Err(b.len() as int)
                    } else if b[s] != 58 {
                        Err(s)
                    } else {
                        let v = skip_ws(b, s + 1);
                        if v < s + 1 {
                            Err(s)
                        } else if v >= b.len() {
                            Err(b.len() as int)
                        } else {
                            match value_scan(b, v) {
                                Err(x) => Err(x),
                                Ok(e) => if v < e <= b.len() {
                                    members_scan(b, e, true)
                                } else {
                                    Err(e)
                                },
                            }
                        }
                    }
                },
            }
        }
    }
}

/// Scans the rest of an array whose next element, separator or closing
/// bracket is looked for from `i`; `nonempty` tells if an element came before.
pub open spec fn elements_scan(b: Seq<u8>, i: int, nonempty: bool) -> Result<int, int>
    decreases b.len() - i, 1int,
{
    let j = skip_ws(b, i);
    if i < 0 || j < i {
        Err(i)
    } else if j >= b.len() {
        Err(b.len() as int)
    } else if b[j] == 93 {
        Ok(j + 1)
    } else if b[j] == 44 && !nonempty {
        Err(j)
    } else if b[j] != 44 && nonempty {
        Err(j)
    } else {
        let v = if b[j] == 44 { skip_ws(b, j + 1) } else { j };
        if v < j {
            Err(j)
        } else if v >= b.len() {
            Err(b.len() as int)
        } else {
            match value_scan(b, v) {
                Err(x) => Err(x),
                Ok(e) => if v < e <= b.len() {
                    elements_scan(b, e, true)
                } else {
                    Err(e)
                },
            }
        }
    }
}

/// Where the scan resumes after the value that starts at `i`, if one does.
pub open spec fn value_end(b: Seq<u8>, i: int) -> Option<int> {
    match value_scan(b, i) {
        Ok(e) => Some(e),
        Err(_) => None,
    }
}

/// The indices at which the elements of an array start, in source order, for
/// an array scanned as in `elements_scan`.
pub open spec fn element_starts(b: Seq<u8>, i: int, nonempty: bool) -> Seq<int>
    decreases b.len() - i,
{
    let j = skip_ws(b, i);
    if i < 0 || j < i || j >= b.len() || b[j] == 93 || (b[j] == 44 && !nonempty) || (b[j] != 44
        && nonempty) {
        Seq::empty()
    } else {
        let v = if b[j] == 44 { skip_ws(b, j + 1) } else { j };
        if v < j || v >= b.len() {
            Seq::empty()
        } else {
            match value_end(b, v) {
                None => Seq::empty(),
                Some(e) => if v < e <= b.len() {
                    seq![v] + element_starts(b, e, true)
                } else {
                    Seq::empty()
                },
            }
        }
    }
}

/// The members of an object, in source order, for an object scanned as in
/// `members_scan`: where each key's text starts, where its closing quote
/// stands, and where its value starts.
pub open spec fn member_list(b: Seq<u8>, i: int, nonempty: bool) -> Seq<(int, int, int)>
    decreases b.len() - i,
{
    let j = skip_ws(b, i);
    if i < 0 || j < i || j >= b.len() || b[j] == 125 || (b[j] == 44 && !nonempty) || (b[j] != 44
        && nonempty) {
        Seq::empty()
    } else {
        let k = if b[j] == 44 { skip_ws(b, j + 1) } else { j };
        if k < j || k >= b.len() || b[k] != 34 {
            Seq::empty()
        } else {
            match string_close(b, k + 1) {
                None => Seq::empty(),
                Some(c) => {
                    let s = skip_ws(b, c + 1);
                    if c < k || s < c + 1 || s >= b.len() || b[s] != 58 {
                        Seq::empty()
                    } else {
                        let v = skip_ws(b, s + 1);
                        if v < s + 1 || v >= b.len() {
                            Seq::empty()
                        } else {
                            match value_end(b, v) {
                                None => Seq::empty(),
                                Some(e) => if v < e <= b.len() {
                                    seq![(k + 1, c, v)] + member_list(b, e, true)
                                } else {
                                    Seq::empty()
                                },
                            }
                        }
                    }
                },
            }
        }
    }
}

/// How deeply objects and arrays may nest.
pub const MAX_DEPTH: usize = 256;

/// Scanning from `i` at nesting depth `depth`, inside a string or not: the
/// offset of the first opening brace or bracket, outside strings, that would
/// nest deeper than `MAX_DEPTH`.
pub open spec fn too_deep_from(b: Seq<u8>, i: int, depth: int, in_string: bool) -> Option<int>
    decreases b.len() + 1 - i,
{
    if i < 0 || i >= b.len() {
        None
    } else if in_string {
        if b[i] == 92 {
            too_deep_from(b, i + 2, depth, true)
        } else if b[i] == 34 {
            too_deep_from(b, i + 1, depth, false)
        } else {
            too_deep_from(b, i + 1, depth, true)
        }
    } else if b[i] == 34 {
        too_deep_from(b, i + 1, depth, true)
    } else if b[i] == 123 || b[i] == 91 {
        if depth >= MAX_DEPTH {
            Some(i)
        } else {
            too_deep_from(b, i + 1, depth + 1, false)
        }
    } else if b[i] == 125 || b[i] == 93 {
        too_deep_from(b, i + 1, if depth > 0 { depth - 1 } else { 0 }, false)
    } else {
        too_deep_from(b, i + 1, depth, false)
    }
}

/// Scans a document: after leading whitespace, an object or an array.
pub open spec fn document_scan(b: Seq<u8>) -> Result<int, int> {
    let j = skip_ws(b, 0);
    if j >= b.len() {
        Err(b.len() as int)
    } else if b[j] == 123 || b[j] == 91 {
        value_scan(b, j)
    } else {
        Err(j)
    }
}

} // verus!
