//! Ranges of the source text.

use vstd::prelude::*;
use vstd::string::StringSliceAdditionalSpecFns;
use vstd::utf8::*;

verus! {

broadcast use vstd::string::group_string_axioms;

/// A byte range `[beginning, end)` of the source text. It never owns the bytes.
#[derive(Debug)]
pub struct Slice<'a> {
    pub source: &'a str,
    pub beginning: usize,
    pub end: usize,
}

/// The UTF-8 bytes of a text.
pub open spec fn text_bytes(s: &str) -> Seq<u8> {
    s.spec_bytes()
}

/// A byte that can never stand inside a multi-byte UTF-8 sequence.
pub open spec fn is_ascii_byte(b: u8) -> bool {
    b < 0x80
}

/// Index `i` starts a character of the UTF-8 text `b`, or is its end.
proof fn lemma_boundary_after_ascii(b: Seq<u8>, i: int)
    requires
        valid_utf8(b),
        0 <= i < b.len(),
        is_char_boundary(b, i),
        is_ascii_byte(b[i]),
    ensures
        is_char_boundary(b, i + 1),
    decreases b.len(),
{
    let l = length_of_first_scalar(b);
    let p = pop_first_scalar(b);
    assert(valid_first_scalar(b) && valid_utf8(p));
    if i == 0 {
        assert(l == 1);
        assert(is_char_boundary(p, 0));
    } else {
        assert(l >= 1);
        assert(p[i - l] == b[i]);
        lemma_boundary_after_ascii(p, i - l);
    }
}

/// An ASCII byte of a text starts a character, and so does the byte after it.
pub proof fn lemma_ascii_boundaries(s: &str, i: int)
    requires
        0 <= i < text_bytes(s).len(),
        is_ascii_byte(text_bytes(s)[i]),
    ensures
        is_char_boundary(text_bytes(s), i),
        is_char_boundary(text_bytes(s), i + 1),
{
    let b = text_bytes(s);
    encode_utf8_valid_utf8(s@);
    is_char_boundary_iff_not_is_continuation_byte(b, i);
    lemma_boundary_after_ascii(b, i);
}

proof fn lemma_prefix_boundary(b: Seq<u8>, i: int, j: int)
    requires
        valid_utf8(b),
        0 <= i <= j <= b.len(),
        is_char_boundary(b, i),
        is_char_boundary(b, j),
    ensures
        valid_utf8(b.subrange(0, j)),
        is_char_boundary(b.subrange(0, j), i),
{
    valid_utf8_split(b, j);
    let h = b.subrange(0, j);
    if i == j {
        is_char_boundary_start_end_of_seq(h);
    } else {
        is_char_boundary_iff_not_is_continuation_byte(b, i);
        is_char_boundary_iff_not_is_continuation_byte(h, i);
    }
}

impl<'a> Slice<'a> {
    /// The range lies in the text and cuts it between characters.
    pub open spec fn wf(&self) -> bool {
        &&& self.beginning <= self.end <= text_bytes(self.source).len()
        &&& is_char_boundary(text_bytes(self.source), self.beginning as int)
        &&& is_char_boundary(text_bytes(self.source), self.end as int)
    }

    /// The bytes that the range covers.
    pub open spec fn bytes(&self) -> Seq<u8> {
        text_bytes(self.source).subrange(self.beginning as int, self.end as int)
    }

    pub fn new(source: &'a str, beginning: usize, end: usize) -> (r: Slice<'a>)
        ensures
            r.source == source,
            r.beginning == beginning,
            r.end == end,
    {
        Slice { source, beginning, end }
    }

    /// The covered range as text, without copying.
    pub fn as_str(&self) -> (r: &'a str)
        requires
            self.wf(),
        ensures
            text_bytes(r) == self.bytes(),
    {
        let b = Ghost(text_bytes(self.source));
        proof {
            encode_utf8_valid_utf8(self.source@);
            lemma_prefix_boundary(b@, self.beginning as int, self.end as int);
        }
        let (head, _) = self.source.split_at(self.end);
        proof {
            assert(text_bytes(head) == b@.subrange(0, self.end as int));
        }
        let (_, tail) = head.split_at(self.beginning);
        assert(text_bytes(tail) =~= self.bytes());
        tail
    }
}

} // verus!
