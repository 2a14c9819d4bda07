//! Number literals: their layout, their exact decimal value, and the decoder.

use vstd::prelude::*;

verus! {

pub open spec fn is_digit(c: u8) -> bool {
    48 <= c <= 57
}

/// The first index at or after `i`, and before `end`, that does not hold a digit.
pub open spec fn digit_end(b: Seq<u8>, i: int, end: int) -> int
    decreases end - i,
{
    if 0 <= i < end && i < b.len() && is_digit(b[i]) {
        digit_end(b, i + 1, end)
    } else {
        i
    }
}

/// The value of a run of decimal digits.
pub open spec fn digits_value(d: Seq<u8>) -> nat
    decreases d.len(),
{
    if d.len() == 0 {
        0
    } else {
        digits_value(d.drop_last()) * 10 + (d.last() - 48) as nat
    }
}

/// The layout of a number literal in `b[start..end]`:
/// `-? int (. frac)? ([eE] [+-]? exp)?`.
pub open spec fn int_start(b: Seq<u8>, start: int, end: int) -> int {
    if start < end && b[start] == 45 { start + 1 } else { start }
}

pub open spec fn int_end(b: Seq<u8>, start: int, end: int) -> int {
    digit_end(b, int_start(b, start, end), end)
}

pub open spec fn has_fraction(b: Seq<u8>, start: int, end: int) -> bool {
    int_end(b, start, end) < end && b[int_end(b, start, end)] == 46
}

pub open spec fn frac_start(b: Seq<u8>, start: int, end: int) -> int {
    if has_fraction(b, start, end) { int_end(b, start, end) + 1 } else { int_end(b, start, end) }
}

pub open spec fn frac_end(b: Seq<u8>, start: int, end: int) -> int {
    if has_fraction(b, start, end) {
        digit_end(b, frac_start(b, start, end), end)
    } else {
        int_end(b, start, end)
    }
}

pub open spec fn has_exponent(b: Seq<u8>, start: int, end: int) -> bool {
    let f = frac_end(b, start, end);
    f < end && (b[f] == 101 || b[f] == 69)
}

pub open spec fn exp_negative(b: Seq<u8>, start: int, end: int) -> bool {
    let f = frac_end(b, start, end);
    has_exponent(b, start, end) && f + 1 < end && b[f + 1] == 45
}

pub open spec fn exp_start(b: Seq<u8>, start: int, end: int) -> int {
    let f = frac_end(b, start, end);
    if !has_exponent(b, start, end) {
        f
    } else if f + 1 < end && (b[f + 1] == 43 || b[f + 1] == 45) {
        f + 2
    } else {
        f + 1
    }
}

pub open spec fn exp_end(b: Seq<u8>, start: int, end: int) -> int {
    if has_exponent(b, start, end) {
        digit_end(b, exp_start(b, start, end), end)
    } else {
        frac_end(b, start, end)
    }
}

/// `b[start..end]` is exactly one number literal, every part with at least one digit.
pub open spec fn well_formed_number(b: Seq<u8>, start: int, end: int) -> bool {
    &&& int_end(b, start, end) > int_start(b, start, end)
    &&& (has_fraction(b, start, end) ==> frac_end(b, start, end) > frac_start(b, start, end))
    &&& (has_exponent(b, start, end) ==> exp_end(b, start, end) > exp_start(b, start, end))
    &&& exp_end(b, start, end) == end
}

/// The integer and fractional digits, concatenated.
pub open spec fn mantissa_digits(b: Seq<u8>, start: int, end: int) -> Seq<u8> {
    b.subrange(int_start(b, start, end), int_end(b, start, end)) + b.subrange(
        frac_start(b, start, end),
        frac_end(b, start, end),
    )
}

pub open spec fn exponent_digits(b: Seq<u8>, start: int, end: int) -> Seq<u8> {
    b.subrange(exp_start(b, start, end), exp_end(b, start, end))
}

/// The exact signed digit sequence of the literal, the decimal point ignored.
pub open spec fn mantissa_value(b: Seq<u8>, start: int, end: int) -> int {
    if int_start(b, start, end) > start {
        -digits_value(mantissa_digits(b, start, end))
    } else {
        digits_value(mantissa_digits(b, start, end)) as int
    }
}

/// The power of ten that scales the mantissa to the literal's value.
pub open spec fn exponent_value(b: Seq<u8>, start: int, end: int) -> int {
    let e = digits_value(exponent_digits(b, start, end)) as int;
    let scale = frac_end(b, start, end) - frac_start(b, start, end);
    (if exp_negative(b, start, end) { -e } else { e }) - scale
}

/// The literal's parts fit the machine integers that hold them.
pub open spec fn number_in_range(b: Seq<u8>, start: int, end: int) -> bool {
    &&& digits_value(mantissa_digits(b, start, end)) <= i128::MAX
    &&& digits_value(exponent_digits(b, start, end)) <= i64::MAX
    &&& exponent_value(b, start, end) >= i64::MIN
}

pub proof fn lemma_digits_value_prefix(s: Seq<u8>, k: int)
    requires
        0 <= k <= s.len(),
    ensures
        digits_value(s.subrange(0, k)) <= digits_value(s),
    decreases s.len(),
{
    if k < s.len() {
        assert(s.drop_last().subrange(0, k) =~= s.subrange(0, k));
        lemma_digits_value_prefix(s.drop_last(), k);
    } else {
        assert(s.subrange(0, k) =~= s);
    }
}

proof fn lemma_digit_end_bounds(b: Seq<u8>, i: int, end: int)
    requires
        0 <= i,
    ensures
        i <= digit_end(b, i, end),
        i <= end ==> digit_end(b, i, end) <= end,
        digit_end(b, i, end) <= b.len() || digit_end(b, i, end) == i,
        forall|k: int| i <= k < digit_end(b, i, end) ==> is_digit(#[trigger] b[k]),
    decreases end - i,
{
    if 0 <= i < end && i < b.len() && is_digit(b[i]) {
        lemma_digit_end_bounds(b, i + 1, end);
    }
}

/// A decoded number literal: `mantissa * 10^exponent`.
#[derive(Debug, Clone, Copy, PartialEq, Eq, Structural)]
pub struct JsonNumber {
    pub mantissa: i128,
    pub exponent: i64,
    pub is_integer: bool,
}

impl JsonNumber {
    /// The number read from `b[start..end]`.
    pub open spec fn decodes(self, b: Seq<u8>, start: int, end: int) -> bool {
        &&& self.mantissa == mantissa_value(b, start, end)
        &&& self.exponent == exponent_value(b, start, end)
        &&& self.is_integer == (!has_fraction(b, start, end) && !has_exponent(b, start, end))
    }

    pub fn i128(&self) -> (r: i128)
        ensures
            r == self.mantissa,
    {
        self.mantissa
    }
}

/// Reads a run of digits into `acc`, which already holds the value of the
/// digits `prefix`: on success the value of `prefix` followed by the run.
fn read_digits(b: &[u8], i: usize, end: usize, acc: i128, Ghost(prefix): Ghost<Seq<u8>>) -> (r:
    Result<(i128, usize), usize>)
    requires
        i <= end <= b@.len(),
        0 <= acc == digits_value(prefix),
    ensures
        match r {
            Ok((v, j)) => {
                &&& j == digit_end(b@, i as int, end as int)
                &&& v == digits_value(prefix + b@.subrange(i as int, j as int))
            },
            Err(off) => {
                &&& i <= off <= end
                &&& digits_value(prefix + b@.subrange(
                    i as int,
                    digit_end(b@, i as int, end as int),
                )) > i128::MAX
            },
        },
{
    let mut j = i;
    let mut v = acc;
    assert(prefix + b@.subrange(i as int, i as int) =~= prefix);
    while j < end && b[j] >= 48 && b[j] <= 57
        invariant
            i <= j <= end <= b@.len(),
            digit_end(b@, i as int, end as int) == digit_end(b@, j as int, end as int),
            0 <= v == digits_value(prefix + b@.subrange(i as int, j as int)),
        decreases end - j,
    {
        let d = (b[j] - 48) as i128;
        let ghost next = prefix + b@.subrange(i as int, j + 1);
        assert(next.drop_last() =~= prefix + b@.subrange(i as int, j as int));
        assert(next.last() == b@[j as int]);
        proof {
            let full = prefix + b@.subrange(i as int, digit_end(b@, i as int, end as int));
            lemma_digit_end_bounds(b@, j + 1, end as int);
            assert(digit_end(b@, j as int, end as int) == digit_end(b@, j + 1, end as int));
            assert(full.subrange(0, next.len() as int) =~= next);
            lemma_digits_value_prefix(full, next.len() as int);
        }
        match v.checked_mul(10) {
            Some(t) => match t.checked_add(d) {
                Some(u) => {
                    v = u;
                },
                None => {
                    return Err(j);
                },
            },
            None => {
                return Err(j);
            },
        }
        j = j + 1;
    }
    Ok((v, j))
}

/// Where decoding `b[start..end]` fails: at the first byte where a digit is
/// missing or that breaks the literal; at the literal's start when it is well
/// formed but a part overflows.
pub open spec fn number_error(b: Seq<u8>, start: int, end: int) -> int {
    if int_end(b, start, end) <= int_start(b, start, end) {
        int_end(b, start, end)
    } else if has_fraction(b, start, end) && frac_end(b, start, end) <= frac_start(b, start, end) {
        frac_start(b, start, end)
    } else if has_exponent(b, start, end) && exp_end(b, start, end) <= exp_start(b, start, end) {
        exp_start(b, start, end)
    } else if exp_end(b, start, end) != end {
        exp_end(b, start, end)
    } else {
        start
    }
}

/// The end of the run of digits that starts at `i`.
fn digit_run_end(b: &[u8], i: usize, end: usize) -> (r: usize)
    requires
        i <= end <= b@.len(),
    ensures
        r == digit_end(b@, i as int, end as int),
        i <= r <= end,
{
    let mut j = i;
    while j < end && b[j] >= 48 && b[j] <= 57
        invariant
            i <= j <= end <= b@.len(),
            digit_end(b@, i as int, end as int) == digit_end(b@, j as int, end as int),
        decreases end - j,
    {
        j = j + 1;
    }
    j
}

/// Decodes the number literal `b[start..end]`. It fails exactly when the
/// range is not one literal or its parts overflow, at `number_error`.
#[verifier::rlimit(80)]
pub fn decode_number(b: &[u8], start: usize, end: usize) -> (r: Result<JsonNumber, usize>)
    requires
        start <= end <= b@.len(),
    ensures
        r is Ok <==> well_formed_number(b@, start as int, end as int) && number_in_range(
            b@,
            start as int,
            end as int,
        ),
        r matches Ok(n) ==> n.decodes(b@, start as int, end as int),
        r matches Err(off) ==> off == number_error(b@, start as int, end as int),
        r matches Err(off) ==> start <= off <= end,
{
    let ghost bs = b@;
    let ghost (st, en) = (start as int, end as int);
    let mut i = start;
    let negative = start < end && b[start] == 45;
    if negative {
        i = i + 1;
    }
    assert(i == int_start(bs, st, en));
    let ie = digit_run_end(b, i, end);
    if ie == i {
        return Err(ie);
    }
    let mut fs = ie;
    let mut fe = ie;
    if ie < end && b[ie] == 46 {
        fs = ie + 1;
        fe = digit_run_end(b, fs, end);
        if fe == fs {
            return Err(fs);
        }
    }
    assert(fs == frac_start(bs, st, en));
    assert(fe == frac_end(bs, st, en));
    let mut es = fe;
    let mut ee = fe;
    let mut eneg = false;
    if fe < end && (b[fe] == 101 || b[fe] == 69) {
        es = fe + 1;
        if es < end && (b[es] == 43 || b[es] == 45) {
            eneg = b[es] == 45;
            es = es + 1;
        }
        ee = digit_run_end(b, es, end);
        if ee == es {
            return Err(es);
        }
    }
    assert(es == exp_start(bs, st, en));
    assert(ee == exp_end(bs, st, en));
    if ee != end {
        return Err(ee);
    }
    assert(well_formed_number(bs, st, en));
    assert(Seq::<u8>::empty() + bs.subrange(i as int, ie as int) =~= bs.subrange(i as int, ie as int));
    let m0 = match read_digits(b, i, end, 0, Ghost(Seq::<u8>::empty())) {
        Ok((v, _)) => v,
        Err(_) => {
            proof {
                let md = mantissa_digits(bs, st, en);
                let pre = bs.subrange(i as int, ie as int);
                assert(md.subrange(0, pre.len() as int) =~= pre);
                lemma_digits_value_prefix(md, pre.len() as int);
            }
            return Err(start);
        },
    };
    let mut m = m0;
    if fs != ie {
        match read_digits(b, fs, end, m, Ghost(bs.subrange(i as int, ie as int))) {
            Ok((m2, _)) => {
                m = m2;
            },
            Err(_) => {
                return Err(start);
            },
        }
    } else {
        assert(bs.subrange(i as int, ie as int) + bs.subrange(ie as int, ie as int) =~= bs.subrange(
            i as int,
            ie as int,
        ));
    }
    assert(m == digits_value(mantissa_digits(bs, st, en)));
    let mut e: i128 = 0;
    if es != fe {
        assert(Seq::<u8>::empty() + bs.subrange(es as int, ee as int) =~= bs.subrange(es as int, ee as int));
        match read_digits(b, es, end, 0, Ghost(Seq::<u8>::empty())) {
            Ok((v, _)) => {
                if v > 0x7fff_ffff_ffff_ffff {
                    return Err(start);
                }
                e = v;
            },
            Err(_) => {
                return Err(start);
            },
        }
    } else {
        assert(exponent_digits(bs, st, en) =~= Seq::<u8>::empty());
    }
    assert(e == digits_value(exponent_digits(bs, st, en)));
    let signed: i128 = if eneg { -e } else { e };
    let scale: i128 = (fe - fs) as i128;
    let exponent = signed - scale;
    if exponent < -0x8000_0000_0000_0000 {
        return Err(start);
    }
    let mantissa = if negative { -m } else { m };
    Ok(JsonNumber { mantissa, exponent: exponent as i64, is_integer: fs == ie && ee == fe })
}

} // verus!
