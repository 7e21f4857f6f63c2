//! The message codec: between raw text frames (UTF-8 bytes) and typed values.
//!
//! Inbound, a frame either matches the transition wire schema — one of the
//! literal tags `Add`, `Subtract`, `Reset`, the first two carrying one signed
//! 64-bit integer — or it is reported as "not a transition". Outbound, the
//! application state is encoded canonically as an object with one signed
//! integer field, `{"value":N}`.
//!
//! The grammar is the JSON fragment these shapes need: optional ASCII
//! whitespace between tokens, decimal integers with no leading zeros, an
//! optional leading minus sign, and nothing after the closing token. A text
//! whose integer does not fit in 64 signed bits does not decode.

use vstd::prelude::*;
use crate::state_machine::CounterTransition;

verus! {

/// ASCII whitespace as the grammar accepts it between tokens.
pub open spec fn is_ws(b: u8) -> bool {
    b == 32u8 || b == 9u8 || b == 10u8 || b == 13u8
}

/// An ASCII decimal digit.
pub open spec fn is_digit(b: u8) -> bool {
    48u8 <= b <= 57u8
}

/// The first position at or after `i` holding a non-whitespace byte, or the
/// end of the text.
pub open spec fn skip_ws(s: Seq<u8>, i: int) -> int
    recommends
        0 <= i <= s.len(),
    decreases s.len() - i when 0 <= i <= s.len()
{
    if i < s.len() && is_ws(s[i]) {
        skip_ws(s, i + 1)
    } else {
        i
    }
}

/// The first position at or after `i` holding a non-digit byte, or the end
/// of the text.
pub open spec fn digits_end(s: Seq<u8>, i: int) -> int
    recommends
        0 <= i <= s.len(),
    decreases s.len() - i when 0 <= i <= s.len()
{
    if i < s.len() && is_digit(s[i]) {
        digits_end(s, i + 1)
    } else {
        i
    }
}

/// The number a sequence of decimal digit bytes denotes.
pub open spec fn dec_val(ds: Seq<u8>) -> nat
    decreases ds.len(),
{
    if ds.len() == 0 {
        0
    } else {
        dec_val(ds.drop_last()) * 10 + (ds.last() - 48u8) as nat
    }
}

/// The literal `l` stands in `s` at position `i`.
pub open spec fn has_lit(s: Seq<u8>, i: int, l: Seq<u8>) -> bool {
    0 <= i && i + l.len() <= s.len() && s.subrange(i, i + l.len()) == l
}

/// The bytes of `"Add"`, quotes included.
pub open spec fn tag_add() -> Seq<u8> {
    seq![34u8, 65u8, 100u8, 100u8, 34u8]
}

/// The bytes of `"Subtract"`, quotes included.
pub open spec fn tag_subtract() -> Seq<u8> {
    seq![34u8, 83u8, 117u8, 98u8, 116u8, 114u8, 97u8, 99u8, 116u8, 34u8]
}

/// The bytes of `"Reset"`, quotes included.
pub open spec fn tag_reset() -> Seq<u8> {
    seq![34u8, 82u8, 101u8, 115u8, 101u8, 116u8, 34u8]
}

/// The bytes of `"value"`, quotes included.
pub open spec fn tag_value() -> Seq<u8> {
    seq![34u8, 118u8, 97u8, 108u8, 117u8, 101u8, 34u8]
}

/// A signed decimal integer starting exactly at `i`: an optional minus sign,
/// then digits with no leading zero. Yields the value and the position just
/// past the digits.
pub open spec fn spec_parse_int(s: Seq<u8>, i: int) -> Option<(int, int)>
    recommends
        0 <= i <= s.len(),
{
    let neg = i < s.len() && s[i] == 45u8;
    let d0 = if neg { i + 1 } else { i };
    let j = digits_end(s, d0);
    if j == d0 {
        None
    } else if s[d0] == 48u8 && j > d0 + 1 {
        None
    } else {
        let m = dec_val(s.subrange(d0, j)) as int;
        Some((if neg { -m } else { m }, j))
    }
}

/// The value fits a signed 64-bit integer.
pub open spec fn in_i64(v: int) -> bool {
    i64::MIN <= v <= i64::MAX
}

/// After an opening brace and a tag: a colon, an integer, a closing brace,
/// and the end of the text, each preceded by optional whitespace. `k` is the
/// position just past the tag.
pub open spec fn spec_tail_int(s: Seq<u8>, k: int) -> Option<int>
    recommends
        0 <= k <= s.len(),
{
    let i2 = skip_ws(s, k);
    if !(i2 < s.len() && s[i2] == 58u8) {
        None
    } else {
        let i3 = skip_ws(s, i2 + 1);
        match spec_parse_int(s, i3) {
            None => None,
            Some((v, j)) => {
                let i4 = skip_ws(s, j);
                if i4 < s.len() && s[i4] == 125u8 && skip_ws(s, i4 + 1) == s.len() {
                    Some(v)
                } else {
                    None
                }
            },
        }
    }
}

/// The whole text is `{ "TAG" : INT }` with optional whitespace between
/// tokens, for the given quoted tag; yields the integer.
pub open spec fn spec_parse_tagged_int(s: Seq<u8>, tag: Seq<u8>) -> Option<int> {
    let i0 = skip_ws(s, 0);
    if !(i0 < s.len() && s[i0] == 123u8) {
        None
    } else {
        let i1 = skip_ws(s, i0 + 1);
        if !has_lit(s, i1, tag) {
            None
        } else {
            spec_tail_int(s, i1 + tag.len())
        }
    }
}

/// The whole text is the quoted literal `"Reset"`, with optional whitespace
/// around it.
pub open spec fn spec_is_reset(s: Seq<u8>) -> bool {
    let i0 = skip_ws(s, 0);
    has_lit(s, i0, tag_reset()) && skip_ws(s, i0 + tag_reset().len()) == s.len()
}

/// What a raw inbound text denotes: a transition, if it matches the wire
/// schema and its amount fits 64 signed bits; nothing otherwise.
pub open spec fn spec_decode_transition(s: Seq<u8>) -> Option<CounterTransition> {
    let a = spec_parse_tagged_int(s, tag_add());
    let b = spec_parse_tagged_int(s, tag_subtract());
    if spec_is_reset(s) {
        Some(CounterTransition::Reset)
    } else if a is Some && in_i64(a->Some_0) {
        Some(CounterTransition::Add(a->Some_0 as i64))
    } else if b is Some && in_i64(b->Some_0) {
        Some(CounterTransition::Subtract(b->Some_0 as i64))
    } else {
        None
    }
}

/// What a state text denotes: the counter value, if the text matches the
/// state wire schema and the value fits 64 signed bits.
pub open spec fn spec_decode_state(s: Seq<u8>) -> Option<i64> {
    let v = spec_parse_tagged_int(s, tag_value());
    if v is Some && in_i64(v->Some_0) {
        Some(v->Some_0 as i64)
    } else {
        None
    }
}

/// The canonical decimal digits of `n`, most significant first.
pub open spec fn dec_digits(n: nat) -> Seq<u8>
    decreases n,
{
    if n < 10 {
        seq![(48 + n) as u8]
    } else {
        dec_digits(n / 10).push((48 + n % 10) as u8)
    }
}

/// The canonical text of a signed integer.
pub open spec fn int_text(v: int) -> Seq<u8> {
    if v < 0 {
        seq![45u8] + dec_digits((-v) as nat)
    } else {
        dec_digits(v as nat)
    }
}

/// The canonical encoding of the application state: `{"value":N}`.
pub open spec fn spec_encode_state(v: i64) -> Seq<u8> {
    seq![123u8] + tag_value() + seq![58u8] + int_text(v as int) + seq![125u8]
}

/// The canonical encoding of a transition: `{"Add":N}`, `{"Subtract":N}` or
/// `"Reset"`.
pub open spec fn spec_encode_transition(t: CounterTransition) -> Seq<u8> {
    match t {
        CounterTransition::Add(n) => seq![123u8] + tag_add() + seq![58u8] + int_text(n as int)
            + seq![125u8],
        CounterTransition::Subtract(n) => seq![123u8] + tag_subtract() + seq![58u8] + int_text(
            n as int,
        ) + seq![125u8],
        CounterTransition::Reset => tag_reset(),
    }
}

/// Powers of ten, for digit-count bounds.
pub open spec fn pow10(e: nat) -> nat
    decreases e,
{
    if e == 0 {
        1
    } else {
        10 * pow10((e - 1) as nat)
    }
}

proof fn lemma_pow10_values()
    ensures
        pow10(18) == 1_000_000_000_000_000_000,
        pow10(19) == 10_000_000_000_000_000_000,
{
    reveal_with_fuel(pow10, 21);
}

proof fn lemma_pow10_mono(a: nat, b: nat)
    requires
        a <= b,
    ensures
        pow10(a) <= pow10(b),
    decreases b,
{
    if a < b {
        lemma_pow10_mono(a, (b - 1) as nat);
    }
}

proof fn lemma_skip_ws(s: Seq<u8>, i: int)
    requires
        0 <= i <= s.len(),
    ensures
        i <= skip_ws(s, i) <= s.len(),
        skip_ws(s, i) < s.len() ==> !is_ws(s[skip_ws(s, i)]),
        forall|k: int| i <= k < skip_ws(s, i) ==> is_ws(s[k]),
    decreases s.len() - i,
{
    if i < s.len() && is_ws(s[i]) {
        lemma_skip_ws(s, i + 1);
    }
}

/// `skip_ws` stops exactly where whitespace stops.
proof fn lemma_skip_ws_is(s: Seq<u8>, i: int, j: int)
    requires
        0 <= i <= j <= s.len(),
        forall|k: int| i <= k < j ==> is_ws(s[k]),
        j < s.len() ==> !is_ws(s[j]),
    ensures
        skip_ws(s, i) == j,
    decreases j - i,
{
    if i < j {
        lemma_skip_ws_is(s, i + 1, j);
    }
}

proof fn lemma_digits_end(s: Seq<u8>, i: int)
    requires
        0 <= i <= s.len(),
    ensures
        i <= digits_end(s, i) <= s.len(),
        digits_end(s, i) < s.len() ==> !is_digit(s[digits_end(s, i)]),
        forall|k: int| i <= k < digits_end(s, i) ==> is_digit(s[k]),
    decreases s.len() - i,
{
    if i < s.len() && is_digit(s[i]) {
        lemma_digits_end(s, i + 1);
    }
}

/// `digits_end` stops exactly where the digits stop.
proof fn lemma_digits_end_is(s: Seq<u8>, i: int, j: int)
    requires
        0 <= i <= j <= s.len(),
        forall|k: int| i <= k < j ==> is_digit(s[k]),
        j < s.len() ==> !is_digit(s[j]),
    ensures
        digits_end(s, i) == j,
    decreases j - i,
{
    if i < j {
        lemma_digits_end_is(s, i + 1, j);
    }
}

/// A digit sequence without a leading zero denotes at least `pow10(len - 1)`.
proof fn lemma_dec_val_lower(ds: Seq<u8>)
    requires
        ds.len() >= 1,
        forall|k: int| 0 <= k < ds.len() ==> is_digit(ds[k]),
        ds[0] != 48u8,
    ensures
        dec_val(ds) >= pow10((ds.len() - 1) as nat),
    decreases ds.len(),
{
    if ds.len() == 1 {
        assert(ds.drop_last().len() == 0);
        assert(dec_val(ds.drop_last()) == 0);
        assert(dec_val(ds) == (ds[0] - 48u8) as nat);
    } else {
        let head = ds.drop_last();
        assert(forall|k: int| 0 <= k < head.len() ==> is_digit(#[trigger] head[k]));
        lemma_dec_val_lower(head);
        assert(pow10((ds.len() - 1) as nat) == 10 * pow10((ds.len() - 2) as nat));
    }
}

fn skip_ws_at(s: &[u8], i: usize) -> (r: usize)
    requires
        i <= s@.len(),
    ensures
        r == skip_ws(s@, i as int),
        i <= r <= s@.len(),
{
    proof {
        lemma_skip_ws(s@, i as int);
    }
    let mut cur: usize = i;
    while cur < s.len() && is_ws_byte(s[cur])
        invariant
            i <= cur <= s@.len(),
            skip_ws(s@, i as int) == skip_ws(s@, cur as int),
        decreases s@.len() - cur,
    {
        cur = cur + 1;
    }
    cur
}

fn is_ws_byte(b: u8) -> (r: bool)
    ensures
        r == is_ws(b),
{
    b == 32 || b == 9 || b == 10 || b == 13
}

fn is_digit_byte(b: u8) -> (r: bool)
    ensures
        r == is_digit(b),
{
    48 <= b && b <= 57
}

fn digits_end_at(s: &[u8], i: usize) -> (r: usize)
    requires
        i <= s@.len(),
    ensures
        r == digits_end(s@, i as int),
        i <= r <= s@.len(),
{
    proof {
        lemma_digits_end(s@, i as int);
    }
    let mut cur: usize = i;
    while cur < s.len() && is_digit_byte(s[cur])
        invariant
            i <= cur <= s@.len(),
            digits_end(s@, i as int) == digits_end(s@, cur as int),
        decreases s@.len() - cur,
    {
        cur = cur + 1;
    }
    cur
}

/// Parses a signed decimal integer starting exactly at `i`, yielding it and
/// the position just past its digits; `None` where the grammar fails or the
/// value does not fit 64 signed bits.
fn parse_int_at(s: &[u8], i: usize) -> (r: Option<(i64, usize)>)
    requires
        i <= s@.len(),
    ensures
        match spec_parse_int(s@, i as int) {
            Some((v, j)) => if in_i64(v) {
                r == Some((v as i64, j as usize))
            } else {
                r is None
            },
            None => r is None,
        },
        spec_parse_int(s@, i as int) is Some ==> i <= spec_parse_int(s@, i as int)->Some_0.1
            <= s@.len(),
{
    let n: usize = s.len();
    let neg: bool = i < n && s[i] == 45;
    let d0: usize = if neg { i + 1 } else { i };
    let j: usize = digits_end_at(s, d0);
    proof {
        lemma_digits_end(s@, d0 as int);
    }
    if j == d0 {
        return None;
    }
    if s[d0] == 48 && j > d0 + 1 {
        return None;
    }
    let ghost ds = s@.subrange(d0 as int, j as int);
    if j - d0 > 19 {
        proof {
            assert(ds[0] == s@[d0 as int]);
            assert(forall|k: int| 0 <= k < ds.len() ==> is_digit(#[trigger] ds[k]));
            lemma_dec_val_lower(ds);
            lemma_pow10_mono(19, (ds.len() - 1) as nat);
            lemma_pow10_values();
        }
        return None;
    }
    let mut acc: u64 = 0;
    let mut k: usize = d0;
    proof {
        assert(s@.subrange(d0 as int, d0 as int) =~= Seq::<u8>::empty());
        lemma_pow10_values();
    }
    while k < j
        invariant
            d0 <= k <= j <= s@.len(),
            j - d0 <= 19,
            forall|m: int| d0 <= m < j ==> is_digit(#[trigger] s@[m]),
            acc == dec_val(s@.subrange(d0 as int, k as int)),
            acc < pow10((k - d0) as nat),
            pow10(18) == 1_000_000_000_000_000_000,
            pow10(19) == 10_000_000_000_000_000_000,
        decreases j - k,
    {
        let d: u8 = s[k] - 48;
        proof {
            lemma_pow10_mono((k - d0) as nat, 18);
            assert(pow10((k - d0 + 1) as nat) == 10 * pow10((k - d0) as nat));
            let pre = s@.subrange(d0 as int, k as int);
            let ext = s@.subrange(d0 as int, k as int + 1);
            assert(ext.drop_last() =~= pre);
            assert(ext.last() == s@[k as int]);
        }
        acc = acc * 10 + (d as u64);
        k = k + 1;
    }
    proof {
        assert(acc == dec_val(ds));
    }
    if neg {
        if acc > 9223372036854775808u64 {
            return None;
        }
        if acc == 9223372036854775808u64 {
            Some((i64::MIN, j))
        } else {
            Some((-(acc as i64), j))
        }
    } else {
        if acc > 9223372036854775807u64 {
            return None;
        }
        Some((acc as i64, j))
    }
}

fn match_add(s: &[u8], i: usize) -> (r: bool)
    requires
        i <= s@.len(),
    ensures
        r == has_lit(s@, i as int, tag_add()),
{
    let r = s.len() - i >= 5 && s[i] == 34 && s[i + 1] == 65 && s[i + 2] == 100 && s[i + 3] == 100
        && s[i + 4] == 34;
    proof {
        if r {
            assert(s@.subrange(i as int, i as int + 5) =~= tag_add());
        } else if i + 5 <= s@.len() && s@.subrange(i as int, i as int + 5) == tag_add() {
            assert(forall|k: int|
                0 <= k < 5 ==> #[trigger] s@.subrange(i as int, i as int + 5)[k] == tag_add()[k]);
            assert(false);
        }
    }
    r
}

fn match_subtract(s: &[u8], i: usize) -> (r: bool)
    requires
        i <= s@.len(),
    ensures
        r == has_lit(s@, i as int, tag_subtract()),
{
    let r = s.len() - i >= 10 && s[i] == 34 && s[i + 1] == 83 && s[i + 2] == 117 && s[i + 3] == 98
        && s[i + 4] == 116 && s[i + 5] == 114 && s[i + 6] == 97 && s[i + 7] == 99 && s[i + 8]
        == 116 && s[i + 9] == 34;
    proof {
        if r {
            assert(s@.subrange(i as int, i as int + 10) =~= tag_subtract());
        } else if i + 10 <= s@.len() && s@.subrange(i as int, i as int + 10) == tag_subtract() {
            assert(forall|k: int|
                0 <= k < 10 ==> #[trigger] s@.subrange(i as int, i as int + 10)[k]
                    == tag_subtract()[k]);
            assert(false);
        }
    }
    r
}

fn match_reset(s: &[u8], i: usize) -> (r: bool)
    requires
        i <= s@.len(),
    ensures
        r == has_lit(s@, i as int, tag_reset()),
{
    let r = s.len() - i >= 7 && s[i] == 34 && s[i + 1] == 82 && s[i + 2] == 101 && s[i + 3] == 115
        && s[i + 4] == 101 && s[i + 5] == 116 && s[i + 6] == 34;
    proof {
        if r {
            assert(s@.subrange(i as int, i as int + 7) =~= tag_reset());
        } else if i + 7 <= s@.len() && s@.subrange(i as int, i as int + 7) == tag_reset() {
            assert(forall|k: int|
                0 <= k < 7 ==> #[trigger] s@.subrange(i as int, i as int + 7)[k] == tag_reset()[k]);
            assert(false);
        }
    }
    r
}

fn match_value(s: &[u8], i: usize) -> (r: bool)
    requires
        i <= s@.len(),
    ensures
        r == has_lit(s@, i as int, tag_value()),
{
    let r = s.len() - i >= 7 && s[i] == 34 && s[i + 1] == 118 && s[i + 2] == 97 && s[i + 3] == 108
        && s[i + 4] == 117 && s[i + 5] == 101 && s[i + 6] == 34;
    proof {
        if r {
            assert(s@.subrange(i as int, i as int + 7) =~= tag_value());
        } else if i + 7 <= s@.len() && s@.subrange(i as int, i as int + 7) == tag_value() {
            assert(forall|k: int|
                0 <= k < 7 ==> #[trigger] s@.subrange(i as int, i as int + 7)[k] == tag_value()[k]);
            assert(false);
        }
    }
    r
}

/// Parses `: INT }` with optional whitespace and nothing after, starting just
/// past a tag; `None` also where the integer does not fit 64 signed bits.
fn finish_tagged_int(s: &[u8], k: usize) -> (r: Option<i64>)
    requires
        k <= s@.len(),
    ensures
        match spec_tail_int(s@, k as int) {
            Some(v) => if in_i64(v) {
                r == Some(v as i64)
            } else {
                r is None
            },
            None => r is None,
        },
{
    let n: usize = s.len();
    let i2: usize = skip_ws_at(s, k);
    if !(i2 < n && s[i2] == 58) {
        return None;
    }
    let i3: usize = skip_ws_at(s, i2 + 1);
    match parse_int_at(s, i3) {
        None => None,
        Some((v, j)) => {
            let i4: usize = skip_ws_at(s, j);
            if i4 < n && s[i4] == 125 {
                let i5: usize = skip_ws_at(s, i4 + 1);
                if i5 == n {
                    Some(v)
                } else {
                    None
                }
            } else {
                None
            }
        },
    }
}

/// Decodes a raw inbound text frame as a transition; `None` reports "not a
/// transition" (the text is then treated as a plain informational message).
pub fn decode_transition(s: &[u8]) -> (r: Option<CounterTransition>)
    ensures
        r == spec_decode_transition(s@),
{
    let n: usize = s.len();
    let i0: usize = skip_ws_at(s, 0);
    proof {
        lemma_skip_ws(s@, 0);
        if i0 < n && s@[i0 as int] != 34u8 && spec_is_reset(s@) {
            assert(s@.subrange(i0 as int, i0 as int + 7)[0] == tag_reset()[0]);
            assert(false);
        }
        if (i0 >= n || s@[i0 as int] != 123u8) {
            assert(spec_parse_tagged_int(s@, tag_add()) is None);
            assert(spec_parse_tagged_int(s@, tag_subtract()) is None);
        }
        if i0 >= n && spec_is_reset(s@) {
            assert(i0 + tag_reset().len() <= s@.len());
            assert(false);
        }
    }
    if i0 < n && s[i0] == 34 {
        // a quoted literal can only be the `Reset` form
        if match_reset(s, i0) {
            let after: usize = skip_ws_at(s, i0 + 7);
            if after == n {
                Some(CounterTransition::Reset)
            } else {
                None
            }
        } else {
            None
        }
    } else if i0 < n && s[i0] == 123 {
        proof {
            if spec_is_reset(s@) {
                assert(s@.subrange(i0 as int, i0 as int + 7)[0] == tag_reset()[0]);
                assert(false);
            }
        }
        let i1: usize = skip_ws_at(s, i0 + 1);
        if match_add(s, i1) {
            proof {
                if has_lit(s@, i1 as int, tag_subtract()) {
                    assert(s@.subrange(i1 as int, i1 as int + 5)[1] == tag_add()[1]);
                    assert(s@.subrange(i1 as int, i1 as int + 10)[1] == tag_subtract()[1]);
                    assert(false);
                }
            }
            match finish_tagged_int(s, i1 + 5) {
                Some(v) => Some(CounterTransition::Add(v)),
                None => None,
            }
        } else if match_subtract(s, i1) {
            match finish_tagged_int(s, i1 + 10) {
                Some(v) => Some(CounterTransition::Subtract(v)),
                None => None,
            }
        } else {
            None
        }
    } else {
        None
    }
}

/// Decodes a state text as the counter value it carries; `None` where the
/// text does not match the state wire schema.
pub fn decode_state(s: &[u8]) -> (r: Option<i64>)
    ensures
        r == spec_decode_state(s@),
{
    let n: usize = s.len();
    let i0: usize = skip_ws_at(s, 0);
    proof {
        lemma_skip_ws(s@, 0);
    }
    if i0 < n && s[i0] == 123 {
        let i1: usize = skip_ws_at(s, i0 + 1);
        if match_value(s, i1) {
            finish_tagged_int(s, i1 + 7)
        } else {
            None
        }
    } else {
        None
    }
}

/// Appends the canonical decimal digits of `m`.
fn push_digits(out: &mut Vec<u8>, m: u64)
    ensures
        final(out)@ == old(out)@ + dec_digits(m as nat),
    decreases m,
{
    if m < 10 {
        out.push(48 + m as u8);
        proof {
            assert(final(out)@ =~= old(out)@ + dec_digits(m as nat));
        }
    } else {
        push_digits(out, m / 10);
        out.push(48 + (m % 10) as u8);
        proof {
            assert(final(out)@ =~= old(out)@ + dec_digits(m as nat));
        }
    }
}

/// Appends the canonical text of a signed 64-bit integer.
fn push_int(out: &mut Vec<u8>, v: i64)
    ensures
        final(out)@ == old(out)@ + int_text(v as int),
{
    if v < 0 {
        out.push(45);
        let m: u64 = (-(v as i128)) as u64;
        push_digits(out, m);
        proof {
            assert(final(out)@ =~= old(out)@ + int_text(v as int));
        }
    } else {
        push_digits(out, v as u64);
    }
}

/// Encodes a counter value as the canonical state text `{"value":N}`.
pub fn encode_state_value(v: i64) -> (out: Vec<u8>)
    ensures
        out@ == spec_encode_state(v),
{
    let mut out: Vec<u8> = Vec::new();
    out.push(123);
    out.push(34);
    out.push(118);
    out.push(97);
    out.push(108);
    out.push(117);
    out.push(101);
    out.push(34);
    out.push(58);
    push_int(&mut out, v);
    out.push(125);
    proof {
        assert(out@ =~= spec_encode_state(v));
    }
    out
}

/// Encodes a transition as its canonical text, the form a well-formed client
/// sends on the wire.
pub fn encode_transition(t: &CounterTransition) -> (out: Vec<u8>)
    ensures
        out@ == spec_encode_transition(*t),
{
    let mut out: Vec<u8> = Vec::new();
    match t {
        CounterTransition::Add(n) => {
            out.push(123);
            out.push(34);
            out.push(65);
            out.push(100);
            out.push(100);
            out.push(34);
            out.push(58);
            push_int(&mut out, *n);
            out.push(125);
        },
        CounterTransition::Subtract(n) => {
            out.push(123);
            out.push(34);
            out.push(83);
            out.push(117);
            out.push(98);
            out.push(116);
            out.push(114);
            out.push(97);
            out.push(99);
            out.push(116);
            out.push(34);
            out.push(58);
            push_int(&mut out, *n);
            out.push(125);
        },
        CounterTransition::Reset => {
            out.push(34);
            out.push(82);
            out.push(101);
            out.push(115);
            out.push(101);
            out.push(116);
            out.push(34);
        },
    }
    proof {
        assert(out@ =~= spec_encode_transition(*t));
    }
    out
}

/// Canonical digits denote their number: at least one byte, all digits, no
/// leading zero (except for zero itself).
proof fn lemma_dec_digits(n: nat)
    ensures
        dec_digits(n).len() >= 1,
        forall|k: int| 0 <= k < dec_digits(n).len() ==> is_digit(#[trigger] dec_digits(n)[k]),
        n >= 1 ==> dec_digits(n)[0] != 48u8,
        n == 0 ==> dec_digits(n).len() == 1,
        dec_val(dec_digits(n)) == n,
    decreases n,
{
    if n < 10 {
        let ds = dec_digits(n);
        assert(ds.drop_last().len() == 0);
        assert(dec_val(ds.drop_last()) == 0);
        assert(dec_val(ds) == n);
    } else {
        lemma_dec_digits(n / 10);
        let head = dec_digits(n / 10);
        let ds = dec_digits(n);
        assert(ds == head.push((48 + n % 10) as u8));
        assert(ds.drop_last() =~= head);
        assert(ds.last() == (48 + n % 10) as u8);
        assert(dec_val(ds) == dec_val(head) * 10 + n % 10);
        assert(ds[0] == head[0]);
    }
}

/// The canonical encoding `{ TAG : INT }` parses back to its integer, for any
/// quoted tag.
proof fn lemma_parse_tagged_int_of_encoding(tag: Seq<u8>, v: i64)
    requires
        tag.len() >= 2,
        tag[0] == 34u8,
    ensures
        spec_parse_tagged_int(
            seq![123u8] + tag + seq![58u8] + int_text(v as int) + seq![125u8],
            tag,
        ) == Some(v as int),
{
    let s = seq![123u8] + tag + seq![58u8] + int_text(v as int) + seq![125u8];
    let lt = tag.len() as int;
    let m: nat = if v < 0 { (-(v as int)) as nat } else { v as nat };
    let digits = dec_digits(m);
    let dl = digits.len() as int;
    lemma_dec_digits(m);
    let it = int_text(v as int);
    assert(s.len() == 3 + lt + it.len());
    assert(s[0] == 123u8);
    lemma_skip_ws_is(s, 0, 0);
    assert(s[1] == tag[0]);
    lemma_skip_ws_is(s, 1, 1);
    assert(s.subrange(1, 1 + lt) =~= tag);
    assert(has_lit(s, 1, tag));
    assert(s[1 + lt] == 58u8);
    lemma_skip_ws_is(s, 1 + lt, 1 + lt);
    let d0 = if v < 0 { 3 + lt } else { 2 + lt };
    assert(forall|k: int| 0 <= k < dl ==> s[d0 + k] == digits[k]);
    if v < 0 {
        assert(s[2 + lt] == 45u8);
    } else {
        assert(s[2 + lt] == digits[0]);
        assert(is_digit(s[2 + lt]));
        assert(s[2 + lt] != 45u8);
    }
    lemma_skip_ws_is(s, 2 + lt, 2 + lt);
    // the digit run is exactly [d0, d0 + dl)
    assert(s[d0 + dl] == 125u8);
    assert(forall|k: int| d0 <= k < d0 + dl ==> is_digit(#[trigger] s[k]));
    lemma_digits_end_is(s, d0, d0 + dl);
    assert(s.subrange(d0, d0 + dl) =~= digits);
    if v < 0 {
        assert(m >= 1) by {
            assert(v as int <= -1);
        }
        assert(s[d0] != 48u8);
    } else {
        if m >= 1 {
            assert(s[d0] != 48u8);
        } else {
            assert(dl == 1);
        }
    }
    assert(spec_parse_int(s, 2 + lt) == Some((v as int, d0 + dl)));
    lemma_skip_ws_is(s, d0 + dl, d0 + dl);
    assert(s.len() == d0 + dl + 1);
    lemma_skip_ws_is(s, d0 + dl + 1, d0 + dl + 1);
    assert(spec_tail_int(s, 1 + lt) == Some(v as int));
}

/// Decoding an encoded state text reconstructs the encoded value: the state
/// representation round-trips.
pub proof fn lemma_state_round_trip(v: i64)
    ensures
        spec_decode_state(spec_encode_state(v)) == Some(v),
{
    lemma_parse_tagged_int_of_encoding(tag_value(), v);
}

/// Decoding an encoded transition text reconstructs the encoded transition:
/// the transition representation round-trips.
pub proof fn lemma_transition_round_trip(t: CounterTransition)
    ensures
        spec_decode_transition(spec_encode_transition(t)) == Some(t),
{
    let s = spec_encode_transition(t);
    match t {
        CounterTransition::Add(n) => {
            lemma_parse_tagged_int_of_encoding(tag_add(), n);
            assert(s[0] == 123u8);
            lemma_skip_ws_is(s, 0, 0);
            if spec_is_reset(s) {
                assert(s.subrange(0, 7)[0] == tag_reset()[0]);
                assert(false);
            }
        },
        CounterTransition::Subtract(n) => {
            lemma_parse_tagged_int_of_encoding(tag_subtract(), n);
            assert(s[0] == 123u8);
            lemma_skip_ws_is(s, 0, 0);
            if spec_is_reset(s) {
                assert(s.subrange(0, 7)[0] == tag_reset()[0]);
                assert(false);
            }
            lemma_skip_ws_is(s, 1, 1);
            if has_lit(s, 1, tag_add()) {
                assert(s.subrange(1, 6)[1] == tag_add()[1]);
                assert(s[2] == tag_subtract()[1]);
                assert(false);
            }
        },
        CounterTransition::Reset => {
            assert(s == tag_reset());
            assert(s[0] == 34u8);
            lemma_skip_ws_is(s, 0, 0);
            assert(s.subrange(0, 7) =~= tag_reset());
            assert(has_lit(s, 0, tag_reset()));
            lemma_skip_ws_is(s, 7, 7);
            assert(spec_is_reset(s));
        },
    }
}

/// Re-encoding what a well-formed transition text decodes to is stable: the
/// canonical text decodes to the same transition.
pub proof fn lemma_reencode_transition(s: Seq<u8>)
    requires
        spec_decode_transition(s) is Some,
    ensures
        spec_decode_transition(spec_encode_transition(spec_decode_transition(s)->Some_0))
            == spec_decode_transition(s),
{
    lemma_transition_round_trip(spec_decode_transition(s)->Some_0);
}

} // verus!
