//! The reference decoder: symbolic character references in a payload become
//! the characters they denote; everything else is copied through.
use vstd::prelude::*;
use vstd::string::StrSliceExecFns;
use crate::entity::{decoded_contents, spans_of, DecodedEntity, Entity};
use crate::laws::lemma_decode_without_references;

verus! {

/// The name of the reference for `&`: `&amp;`.
pub open spec fn ref_amp() -> Seq<char> {
    seq!['&', 'a', 'm', 'p', ';']
}

/// The name of the reference for `<`: `&lt;`.
pub open spec fn ref_lt() -> Seq<char> {
    seq!['&', 'l', 't', ';']
}

/// The name of the reference for `>`: `&gt;`.
pub open spec fn ref_gt() -> Seq<char> {
    seq!['&', 'g', 't', ';']
}

/// The name of the reference for `"`: `&quot;`.
pub open spec fn ref_quot() -> Seq<char> {
    seq!['&', 'q', 'u', 'o', 't', ';']
}

/// The name of the reference for `'`: `&apos;`.
pub open spec fn ref_apos() -> Seq<char> {
    seq!['&', 'a', 'p', 'o', 's', ';']
}

/// Whether `name` stands in `s` at position `i`.
pub open spec fn occurs_at(s: Seq<char>, i: int, name: Seq<char>) -> bool {
    0 <= i && i + name.len() <= s.len() && s.subrange(i, i + name.len()) == name
}

/// The value of `c` as a digit: decimal, or hexadecimal where `hex`.
pub open spec fn digit_of(c: char, hex: bool) -> Option<int> {
    if '0' as u32 <= c as u32 <= '9' as u32 {
        Some(c as u32 - '0' as u32)
    } else if hex && 'a' as u32 <= c as u32 <= 'f' as u32 {
        Some(c as u32 - 'a' as u32 + 10)
    } else if hex && 'A' as u32 <= c as u32 <= 'F' as u32 {
        Some(c as u32 - 'A' as u32 + 10)
    } else {
        None
    }
}

/// The first position at or after `j` of `s` that holds no digit.
pub open spec fn digits_end(s: Seq<char>, j: int, hex: bool) -> int
    decreases s.len() - j,
{
    if 0 <= j < s.len() && digit_of(s[j], hex) is Some {
        digits_end(s, j + 1, hex)
    } else {
        j
    }
}

/// The number that the digits at the positions `[from, to)` of `s` spell.
pub open spec fn digits_value(s: Seq<char>, from: int, to: int, hex: bool) -> int
    decreases to - from,
{
    if to <= from {
        0
    } else {
        let head = digits_value(s, from, to - 1, hex);
        let digit = digit_of(s[to - 1], hex)->0;
        if hex {
            head * 16 + digit
        } else {
            head * 10 + digit
        }
    }
}

/// Whether a number is a Unicode scalar value: a code point that is no
/// surrogate.
pub open spec fn is_scalar_value(v: int) -> bool {
    0 <= v <= 0xD7FF || 0xE000 <= v <= 0x10FFFF
}

/// The numeric reference that begins at position `i` of `s`, if any: `&#`,
/// decimal digits and `;`, or `&#x` (or `&#X`), hexadecimal digits and `;`,
/// where the digits spell a scalar value. It denotes the character of that
/// value.
pub open spec fn numeric_reference_at(s: Seq<char>, i: int) -> Option<(char, int)> {
    if 0 <= i && i + 2 < s.len() && s[i] == '&' && s[i + 1] == '#' {
        let hex = s[i + 2] == 'x' || s[i + 2] == 'X';
        let from = if hex {
            i + 3
        } else {
            i + 2
        };
        let to = digits_end(s, from, hex);
        let value = digits_value(s, from, to, hex);
        if from < to && to < s.len() && s[to] == ';' && is_scalar_value(value) {
            Some(((value as u32) as char, to + 1 - i))
        } else {
            None
        }
    } else {
        None
    }
}

/// The recognized reference that begins at position `i` of `s`, if any: the
/// character it denotes and the number of characters it takes up.
pub open spec fn reference_at(s: Seq<char>, i: int) -> Option<(char, int)> {
    if occurs_at(s, i, ref_amp()) {
        Some(('&', 5))
    } else if occurs_at(s, i, ref_lt()) {
        Some(('<', 4))
    } else if occurs_at(s, i, ref_gt()) {
        Some(('>', 4))
    } else if occurs_at(s, i, ref_quot()) {
        Some(('"', 6))
    } else if occurs_at(s, i, ref_apos()) {
        Some(('\'', 6))
    } else {
        numeric_reference_at(s, i)
    }
}

/// The decoding of `s` from position `i` on: each recognized reference gives
/// the character it denotes, every other character gives itself.
pub open spec fn decode_from(s: Seq<char>, i: int) -> Seq<char>
    decreases s.len() - i,
{
    if i < 0 || i >= s.len() {
        Seq::empty()
    } else {
        match reference_at(s, i) {
            Some((c, n)) => if n > 0 {
                seq![c] + decode_from(s, i + n)
            } else {
                Seq::empty()
            },
            None => seq![s[i]] + decode_from(s, i + 1),
        }
    }
}

/// The decoding of a payload.
pub open spec fn decode_chars(s: Seq<char>) -> Seq<char> {
    decode_from(s, 0)
}

/// The decoded payloads of a list of entities, in the list's order.
pub open spec fn decoded_payloads(entities: Seq<Entity>) -> Seq<Seq<char>> {
    Seq::new(entities.len(), |i: int| decode_chars(entities[i].html@))
}

/// The characters of a string.
pub fn to_chars(s: &str) -> (chars: Vec<char>)
    ensures
        chars@ == s@,
{
    let n = s.unicode_len();
    let mut chars: Vec<char> = Vec::new();
    let mut i: usize = 0;
    while i < n
        invariant
            n == s@.len(),
            0 <= i <= n,
            chars@ == s@.subrange(0, i as int),
        decreases n - i,
    {
        chars.push(s.get_char(i));
        assert(chars@ =~= s@.subrange(0, i + 1));
        i += 1;
    }
    assert(chars@ =~= s@);
    chars
}

/// Whether `name` stands in `s` at position `i`.
fn matches_at(s: &Vec<char>, i: usize, name: &[char]) -> (b: bool)
    ensures
        b == occurs_at(s@, i as int, name@),
{
    let m = name.len();
    if m > s.len() || i > s.len() - m {
        return false;
    }
    let mut j: usize = 0;
    while j < m
        invariant
            m == name@.len(),
            i + m <= s.len(),
            0 <= j <= m,
            forall|t: int| 0 <= t < j ==> s@[i + t] == name@[t],
        decreases m - j,
    {
        if s[i + j] != name[j] {
            assert(s@.subrange(i as int, i + m)[j as int] != name@[j as int]);
            return false;
        }
        j += 1;
    }
    assert(s@.subrange(i as int, i + m) =~= name@);
    true
}

/// `char::from_u32`: the character of a scalar value, and `None` for a
/// number that is no scalar value (a surrogate, or above `0x10FFFF`).
#[verifier::external_body]
fn char_from_scalar(v: u32) -> (c: Option<char>)
    ensures
        c == if is_scalar_value(v as int) {
            Some(v as char)
        } else {
            None::<char>
        },
{
    char::from_u32(v)
}

/// The value of a character as a digit.
fn digit_value(c: char, hex: bool) -> (d: Option<u32>)
    ensures
        match d {
            Some(v) => digit_of(c, hex) == Some(v as int),
            None => digit_of(c, hex) is None,
        },
{
    let v = c as u32;
    if v >= '0' as u32 && v <= '9' as u32 {
        Some(v - '0' as u32)
    } else if hex && v >= 'a' as u32 && v <= 'f' as u32 {
        Some(v - 'a' as u32 + 10)
    } else if hex && v >= 'A' as u32 && v <= 'F' as u32 {
        Some(v - 'A' as u32 + 10)
    } else {
        None
    }
}

/// The numeric reference at position `i`, if any.
fn match_numeric(s: &Vec<char>, i: usize) -> (r: Option<(char, usize)>)
    ensures
        match r {
            Some((c, n)) => numeric_reference_at(s@, i as int) == Some((c, n as int)),
            None => numeric_reference_at(s@, i as int) is None,
        },
{
    let n = s.len();
    if n < 3 || i >= n - 2 {
        return None;
    }
    if s[i] != '&' || s[i + 1] != '#' {
        return None;
    }
    let hex = s[i + 2] == 'x' || s[i + 2] == 'X';
    let from = if hex {
        i + 3
    } else {
        i + 2
    };
    let mut j: usize = from;
    let mut value: u32 = 0;
    let mut too_large = false;
    while j < n && digit_value(s[j], hex).is_some()
        invariant
            n == s.len(),
            from <= j <= n,
            digits_end(s@, from as int, hex) == digits_end(s@, j as int, hex),
            !too_large ==> value == digits_value(s@, from as int, j as int, hex) && value
                <= 0x10FFFF,
            too_large ==> digits_value(s@, from as int, j as int, hex) > 0x10FFFF,
        decreases n - j,
    {
        let digit = digit_value(s[j], hex).unwrap();
        if !too_large {
            let next = if hex {
                value * 16 + digit
            } else {
                value * 10 + digit
            };
            if next > 0x10FFFF {
                too_large = true;
            } else {
                value = next;
            }
        }
        j += 1;
    }
    if j == from || j >= n || too_large {
        return None;
    }
    if s[j] != ';' {
        return None;
    }
    match char_from_scalar(value) {
        Some(c) => Some((c, j + 1 - i)),
        None => None,
    }
}

/// The recognized reference at position `i`, if any.
fn match_reference(s: &Vec<char>, i: usize) -> (r: Option<(char, usize)>)
    ensures
        match r {
            Some((c, n)) => reference_at(s@, i as int) == Some((c, n as int)),
            None => reference_at(s@, i as int) is None,
        },
{
    let amp = ['&', 'a', 'm', 'p', ';'];
    let lt = ['&', 'l', 't', ';'];
    let gt = ['&', 'g', 't', ';'];
    let quot = ['&', 'q', 'u', 'o', 't', ';'];
    let apos = ['&', 'a', 'p', 'o', 's', ';'];
    assert(amp@ =~= ref_amp());
    assert(lt@ =~= ref_lt());
    assert(gt@ =~= ref_gt());
    assert(quot@ =~= ref_quot());
    assert(apos@ =~= ref_apos());
    if matches_at(s, i, amp.as_slice()) {
        Some(('&', 5))
    } else if matches_at(s, i, lt.as_slice()) {
        Some(('<', 4))
    } else if matches_at(s, i, gt.as_slice()) {
        Some(('>', 4))
    } else if matches_at(s, i, quot.as_slice()) {
        Some(('"', 6))
    } else if matches_at(s, i, apos.as_slice()) {
        Some(('\'', 6))
    } else {
        match_numeric(s, i)
    }
}

/// Decodes one payload: `&amp;`, `&lt;`, `&gt;`, `&quot;` and `&apos;`, and
/// the numeric references `&#..;` and `&#x..;` of a scalar value, become the
/// characters they denote, and everything else, an unrecognized or malformed
/// reference included, is copied through.
pub fn decode_payload(payload: &str) -> (decoded: Vec<char>)
    ensures
        decoded@ == decode_chars(payload@),
{
    let s = to_chars(payload);
    let n = s.len();
    let mut out: Vec<char> = Vec::new();
    let mut i: usize = 0;
    while i < n
        invariant
            n == s.len(),
            s@ == payload@,
            0 <= i <= n,
            out@ + decode_from(s@, i as int) == decode_chars(s@),
        decreases n - i,
    {
        let ghost before = out@;
        match match_reference(&s, i) {
            Some((c, len)) => {
                out.push(c);
                assert(out@ + decode_from(s@, i + len) =~= before + decode_from(s@, i as int));
                i += len;
            },
            None => {
                out.push(s[i]);
                assert(out@ + decode_from(s@, i + 1) =~= before + decode_from(s@, i as int));
                i += 1;
            },
        }
    }
    assert(out@ =~= out@ + decode_from(s@, i as int));
    out
}

/// Decodes the payload of every entity: the result has one decoded entity for
/// each entity, in the same order and with the same span.
pub fn decode(entities: &Vec<Entity>) -> (decoded: Vec<DecodedEntity>)
    ensures
        decoded.len() == entities.len(),
        spans_of(decoded@) == spans_of(entities@),
        decoded_contents(decoded@) == decoded_payloads(entities@),
{
    let mut decoded: Vec<DecodedEntity> = Vec::new();
    let mut i: usize = 0;
    while i < entities.len()
        invariant
            0 <= i <= entities.len(),
            decoded.len() == i,
            forall|j: int|
                0 <= j < i ==> (#[trigger] decoded[j]).start == entities[j].start && decoded[j].end
                    == entities[j].end && decoded[j].html@ == decode_chars(entities[j].html@),
        decreases entities.len() - i,
    {
        let e = &entities[i];
        decoded.push(
            DecodedEntity { start: e.start, end: e.end, html: decode_payload(e.html.as_str()) },
        );
        i += 1;
    }
    assert(spans_of(decoded@) =~= spans_of(entities@));
    assert(decoded_contents(decoded@) =~= decoded_payloads(entities@));
    decoded
}


/// A recognized reference begins with `&`.
pub proof fn lemma_reference_begins_with_ampersand(s: Seq<char>, i: int)
    requires
        0 <= i < s.len(),
        s[i] != '&',
    ensures
        reference_at(s, i) is None,
{
    assert forall|name: Seq<char>| name.len() > 0 && name[0] == '&' implies !occurs_at(s, i, name) by {
        if occurs_at(s, i, name) {
            assert(s.subrange(i, i + name.len())[0] == name[0]);
        }
    }
    assert(ref_amp()[0] == '&' && ref_lt()[0] == '&' && ref_gt()[0] == '&' && ref_quot()[0] == '&'
        && ref_apos()[0] == '&');
}

/// Decoding leaves a payload without `&` as it is.
pub proof fn lemma_decode_plain(s: Seq<char>)
    requires
        forall|t: int| 0 <= t < s.len() ==> s[t] != '&',
    ensures
        decode_chars(s) == s,
{
    assert forall|t: int| 0 <= t < s.len() implies reference_at(s, t) is None by {
        lemma_reference_begins_with_ampersand(s, t);
    }
    lemma_decode_without_references(s);
}

} // verus!
