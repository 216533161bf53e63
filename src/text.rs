//! UTF-16 text as the format stores it: little-endian code units closed by a
//! zero unit.

use vstd::prelude::*;
use crate::bytes::{le16, u16_bytes, read_u16, put_u16};

verus! {

/// The UTF-16 code units of one character.
pub open spec fn char_units(c: char) -> Seq<u16> {
    let v = c as u32 as int;
    if v < 0x10000 {
        seq![v as u16]
    } else {
        seq![(0xD800 + (v - 0x10000) / 0x400) as u16, (0xDC00 + (v - 0x10000) % 0x400) as u16]
    }
}

/// The UTF-16 encoding of a text.
pub open spec fn utf16_of(s: Seq<char>) -> Seq<u16>
    decreases s.len(),
{
    if s.len() == 0 {
        seq![]
    } else {
        char_units(s[0]) + utf16_of(s.drop_first())
    }
}

/// The little-endian bytes of a sequence of code units.
pub open spec fn units_bytes(u: Seq<u16>) -> Seq<u8>
    decreases u.len(),
{
    if u.len() == 0 {
        seq![]
    } else {
        units_bytes(u.drop_last()) + u16_bytes(u.last())
    }
}

/// The bytes of a text closed by a zero unit, as the format stores keys and
/// string values.
pub open spec fn text_z_bytes(s: Seq<char>) -> Seq<u8> {
    units_bytes(utf16_of(s).push(0u16))
}

/// The code units read from `pos` up to the first zero unit (which is not
/// included), or `None` when the data ends before a zero unit.
pub open spec fn units_z(d: Seq<u8>, pos: int) -> Option<Seq<u16>>
    decreases d.len() - pos,
{
    if pos < 0 || pos + 2 > d.len() {
        None
    } else if le16(d, pos) == 0 {
        Some(seq![])
    } else {
        match units_z(d, pos + 2) {
            Some(t) => Some(seq![le16(d, pos)] + t),
            None => None,
        }
    }
}

/// Whether `u` encodes some text in UTF-16.
pub open spec fn is_utf16(u: Seq<u16>) -> bool {
    exists|s: Seq<char>| #[trigger] utf16_of(s) == u
}

/// The text whose UTF-16 encoding is `u`, where there is one.
pub open spec fn text_of(u: Seq<u16>) -> Seq<char> {
    choose|s: Seq<char>| #[trigger] utf16_of(s) == u
}

/// The units of one character: one unit outside the surrogate range, or a
/// high surrogate followed by a low one.
pub proof fn lemma_char_units(c: char)
    ensures
        char_units(c).len() == 1 ==> !(0xD800 <= char_units(c)[0] <= 0xDFFF),
        char_units(c).len() == 2 ==> 0xD800 <= char_units(c)[0] <= 0xDBFF,
        char_units(c).len() == 1 || char_units(c).len() == 2,
        char_units(c)[0] == 0 <==> c as u32 == 0,
{
    broadcast use vstd::utf8::char_is_scalar;

    let v = c as u32 as int;
    if v >= 0x10000 {
        assert((v - 0x10000) / 0x400 <= 0x3FF);
    }
}

/// Two characters with the same units are the same character.
pub proof fn lemma_char_units_injective(a: char, b: char)
    requires
        char_units(a) == char_units(b),
    ensures
        a == b,
{
    broadcast use vstd::utf8::char_is_scalar;

    let va = a as u32;
    let vb = b as u32;
    lemma_char_units(a);
    lemma_char_units(b);
    if va < 0x10000 && vb < 0x10000 {
        assert(char_units(a)[0] == char_units(b)[0]);
        assert(va == vb);
    } else if va >= 0x10000 && vb >= 0x10000 {
        let xa = va as int - 0x10000;
        let xb = vb as int - 0x10000;
        assert(char_units(a)[0] == char_units(b)[0]);
        assert(char_units(a)[1] == char_units(b)[1]);
        vstd::arithmetic::div_mod::lemma_fundamental_div_mod(xa, 0x400);
        vstd::arithmetic::div_mod::lemma_fundamental_div_mod(xb, 0x400);
        assert(xa / 0x400 == xb / 0x400);
        assert(xa % 0x400 == xb % 0x400);
        assert(xa == xb);
    } else {
        assert(char_units(a).len() != char_units(b).len());
    }
    vstd::utf8::char_u32_cast(a, va);
    vstd::utf8::char_u32_cast(b, vb);
}

/// A text has at least as many units as characters.
pub proof fn lemma_utf16_len(s: Seq<char>)
    ensures
        utf16_of(s).len() >= s.len(),
    decreases s.len(),
{
    if s.len() > 0 {
        lemma_char_units(s[0]);
        lemma_utf16_len(s.drop_first());
    }
}

/// Two texts with the same UTF-16 encoding are the same text.
pub proof fn lemma_utf16_injective(a: Seq<char>, b: Seq<char>)
    requires
        utf16_of(a) == utf16_of(b),
    ensures
        a == b,
    decreases a.len(),
{
    if a.len() == 0 {
        lemma_utf16_len(b);
        assert(b =~= a);
    } else {
        lemma_utf16_len(a);
        if b.len() == 0 {
            assert(false);
        }
        let ua = char_units(a[0]);
        let ub = char_units(b[0]);
        let u = utf16_of(a);
        lemma_char_units(a[0]);
        lemma_char_units(b[0]);
        assert(u == ua + utf16_of(a.drop_first()));
        assert(u == ub + utf16_of(b.drop_first()));
        assert(u[0] == ua[0] && u[0] == ub[0]);
        assert(ua.len() == ub.len());
        assert(ua =~= u.subrange(0, ua.len() as int));
        assert(ub =~= u.subrange(0, ub.len() as int));
        lemma_char_units_injective(a[0], b[0]);
        assert(utf16_of(a.drop_first()) =~= u.subrange(ua.len() as int, u.len() as int));
        assert(utf16_of(b.drop_first()) =~= u.subrange(ub.len() as int, u.len() as int));
        lemma_utf16_injective(a.drop_first(), b.drop_first());
        assert(a =~= seq![a[0]] + a.drop_first());
        assert(b =~= seq![b[0]] + b.drop_first());
    }
}

/// Decoding the units of a text gives that text back.
pub proof fn lemma_text_of_utf16(s: Seq<char>)
    ensures
        is_utf16(utf16_of(s)),
        text_of(utf16_of(s)) == s,
{
    let t = text_of(utf16_of(s));
    assert(utf16_of(t) == utf16_of(s));
    lemma_utf16_injective(t, s);
}

/// Relies on str::encode_utf16: the UTF-16 code units of the text.
#[verifier::external_body]
fn utf16_units(s: &str) -> (r: Vec<u16>)
    ensures
        r@ == utf16_of(s@),
{
    s.encode_utf16().collect()
}

/// Relies on String::from_utf16: decodes the code units, and fails exactly
/// when they are not the UTF-16 encoding of a text.
#[verifier::external_body]
fn string_from_utf16(u: &[u16]) -> (r: Option<String>)
    ensures
        r is Some <==> is_utf16(u@),
        r is Some ==> utf16_of(r->0@) == u@,
{
    String::from_utf16(u).ok()
}

/// Reads the code units from `pos` up to the first zero unit; returns them
/// and the position after the zero unit.
pub fn read_units_z(data: &[u8], pos: usize) -> (r: Option<(Vec<u16>, usize)>)
    ensures
        match r {
            Some((u, e)) => units_z(data@, pos as int) == Some(u@) && e == pos + 2 * u@.len() + 2,
            None => units_z(data@, pos as int) is None,
        },
{
    let n = data.len();
    if pos > n {
        return None;
    }
    let mut acc: Vec<u16> = Vec::new();
    let mut p: usize = pos;
    loop
        invariant
            n == data@.len(),
            p == pos + 2 * acc@.len(),
            p <= n,
            units_z(data@, pos as int) == match units_z(data@, p as int) {
                Some(t) => Some(acc@ + t),
                None => None::<Seq<u16>>,
            },
        decreases n - p,
    {
        match read_u16(data, p) {
            None => {
                return None;
            },
            Some(v) => {
                if v == 0 {
                    assert(acc@ + seq![] =~= acc@);
                    return Some((acc, p + 2));
                }
                proof {
                    let t = units_z(data@, p + 2);
                    if t is Some {
                        assert(acc@.push(v) + t->0 =~= acc@ + (seq![v] + t->0));
                    }
                }
                acc.push(v);
                p = p + 2;
            },
        }
    }
}

/// Decodes UTF-16 code units into a text; `None` when they are not valid UTF-16.
pub fn text_from_units(u: &Vec<u16>) -> (r: Option<String>)
    ensures
        r is Some <==> is_utf16(u@),
        r is Some ==> utf16_of(r->0@) == u@,
{
    string_from_utf16(u.as_slice())
}

/// Appends the little-endian bytes of the code units `u`.
pub fn put_units(out: &mut Vec<u8>, u: &Vec<u16>)
    ensures
        final(out)@ == old(out)@ + units_bytes(u@),
{
    let mut i: usize = 0;
    while i < u.len()
        invariant
            0 <= i <= u@.len(),
            out@ == old(out)@ + units_bytes(u@.subrange(0, i as int)),
        decreases u@.len() - i,
    {
        put_u16(out, u[i]);
        proof {
            let s = u@.subrange(0, i + 1);
            assert(s.drop_last() =~= u@.subrange(0, i as int));
            assert(out@ =~= old(out)@ + units_bytes(s));
        }
        i = i + 1;
    }
    assert(u@.subrange(0, u@.len() as int) =~= u@);
}

/// The UTF-16 code units of `s` followed by a zero unit.
pub fn units_z_of(s: &str) -> (r: Vec<u16>)
    ensures
        r@ == utf16_of(s@).push(0u16),
{
    let mut u = utf16_units(s);
    u.push(0u16);
    u
}

/// Appends `s` in UTF-16, closed by a zero unit.
pub fn put_text_z(out: &mut Vec<u8>, s: &str)
    ensures
        final(out)@ == old(out)@ + text_z_bytes(s@),
{
    let u = units_z_of(s);
    put_units(out, &u);
}

} // verus!
