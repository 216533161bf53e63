//! Reading back what was written: the bytes of a well-formed version
//! resource decode to that resource.

use vstd::prelude::*;
use crate::bytes::{le16, le32, u16_bytes, u32_bytes, pad4, zeros};
use crate::text::{units_bytes, utf16_of, text_z_bytes, units_z, char_units, is_utf16, text_of, lemma_char_units, lemma_text_of_utf16};
use crate::header::{DataType, HeaderView, parse_header, block_len, block_bytes, type_code};
use crate::encode::{join_opt, entry_enc, entry_parts, table_enc, table_parts, var_enc, var_parts, words_bytes, child_enc, child_parts};
use crate::decode::{parse_value, parse_entries, parse_tables, parse_words, parse_vars, parse_child, string_file_info_key, var_file_info_key};
use crate::child::{DataView, ChildView};
use crate::fixed::{FileInfo, Version, SIGNATURE, file_info_bytes, file_info_at, file_info_error, version_ms, version_ls, word};
use crate::version::{VersionInfoView, parse_children, parse_version_info, version_info_enc, version_info_key};
use crate::table::{has_key, keys_unique, upsert};

verus! {

broadcast use crate::bytes::lemma_pad4_bounds;

/// A `u16` written little-endian reads back.
pub proof fn lemma_le16_at(d: Seq<u8>, p: int, v: u16)
    requires
        0 <= p,
        p + 2 <= d.len(),
        d.subrange(p, p + 2) == u16_bytes(v),
    ensures
        le16(d, p) == v,
{
    assert(d[p] == u16_bytes(v)[0]);
    assert(d[p + 1] == u16_bytes(v)[1]);
}

/// A `u32` written little-endian reads back.
pub proof fn lemma_le32_at(d: Seq<u8>, p: int, v: u32)
    requires
        0 <= p,
        p + 4 <= d.len(),
        d.subrange(p, p + 4) == u32_bytes(v),
    ensures
        le32(d, p) == v,
{
    assert(d[p] == u32_bytes(v)[0]);
    assert(d[p + 1] == u32_bytes(v)[1]);
    assert(d[p + 2] == u32_bytes(v)[2]);
    assert(d[p + 3] == u32_bytes(v)[3]);
}

/// The bytes of code units: two per unit, in order.
pub proof fn lemma_units_bytes(u: Seq<u16>)
    ensures
        units_bytes(u).len() == 2 * u.len(),
        forall|i: int| 0 <= i < u.len() ==> #[trigger] units_bytes(u).subrange(2 * i, 2 * i + 2) == u16_bytes(u[i]),
    decreases u.len(),
{
    if u.len() > 0 {
        let init = u.drop_last();
        lemma_units_bytes(init);
        let b = units_bytes(u);
        assert(b == units_bytes(init) + u16_bytes(u.last()));
        assert forall|i: int| 0 <= i < u.len() implies #[trigger] b.subrange(2 * i, 2 * i + 2) == u16_bytes(u[i]) by {
            if i < u.len() - 1 {
                assert(b.subrange(2 * i, 2 * i + 2) =~= units_bytes(init).subrange(2 * i, 2 * i + 2));
                assert(init[i] == u[i]);
            } else {
                assert(b.subrange(2 * i, 2 * i + 2) =~= u16_bytes(u.last()));
            }
        }
    }
}

/// Reading units up to a zero unit gives back units written with a zero unit
/// after them, where none of them is zero.
pub proof fn lemma_units_z_read(d: Seq<u8>, p: int, u: Seq<u16>)
    requires
        0 <= p,
        p + 2 * u.len() + 2 <= d.len(),
        d.subrange(p, p + 2 * u.len() + 2) == units_bytes(u.push(0u16)),
        forall|i: int| 0 <= i < u.len() ==> #[trigger] u[i] != 0,
    ensures
        units_z(d, p) == Some(u),
    decreases u.len(),
{
    let w = u.push(0u16);
    lemma_units_bytes(w);
    let z: int = 0;
    assert(units_bytes(w).subrange(2 * z, 2 * z + 2) == u16_bytes(w[z]));
    assert(d.subrange(p, p + 2) =~= units_bytes(w).subrange(2 * z, 2 * z + 2));
    lemma_le16_at(d, p, w[0]);
    if u.len() > 0 {
        let rest = u.drop_first();
        lemma_units_bytes(rest.push(0u16));
        assert forall|i: int| 0 <= i < rest.push(0u16).len() implies #[trigger] d.subrange(p + 2 + 2 * i, p + 2 + 2 * i + 2) == units_bytes(rest.push(0u16)).subrange(2 * i, 2 * i + 2) by {
            assert(units_bytes(w).subrange(2 * (i + 1), 2 * (i + 1) + 2) == u16_bytes(w[i + 1]));
            assert(d.subrange(p + 2 + 2 * i, p + 2 + 2 * i + 2) =~= units_bytes(w).subrange(2 * (i + 1), 2 * (i + 1) + 2));
            assert(w[i + 1] == rest.push(0u16)[i]);
        }
        assert(d.subrange(p + 2, p + 2 + 2 * rest.len() + 2) =~= units_bytes(rest.push(0u16))) by {
            let a = d.subrange(p + 2, p + 2 + 2 * rest.len() + 2);
            let b = units_bytes(rest.push(0u16));
            assert forall|k: int| 0 <= k < a.len() implies a[k] == b[k] by {
                let i = k / 2;
                assert(d.subrange(p + 2 + 2 * i, p + 2 + 2 * i + 2) == b.subrange(2 * i, 2 * i + 2));
                assert(a[k] == d.subrange(p + 2 + 2 * i, p + 2 + 2 * i + 2)[k - 2 * i]);
            }
        }
        lemma_units_z_read(d, p + 2, rest);
        assert(seq![u[0]] + rest =~= u);
    }
}

/// The units of a text without a zero character hold no zero unit.
pub proof fn lemma_utf16_nonzero(s: Seq<char>)
    requires
        forall|i: int| 0 <= i < s.len() ==> #[trigger] s[i] != '\0',
    ensures
        forall|i: int| 0 <= i < utf16_of(s).len() ==> #[trigger] utf16_of(s)[i] != 0,
    decreases s.len(),
{
    if s.len() > 0 {
        let rest = s.drop_first();
        assert forall|i: int| 0 <= i < rest.len() implies #[trigger] rest[i] != '\0' by {
            assert(rest[i] == s[i + 1]);
        }
        lemma_utf16_nonzero(rest);
        lemma_char_units(s[0]);
        let c = char_units(s[0]);
        if c.len() == 1 {
            vstd::utf8::char_u32_cast(s[0], s[0] as u32);
            assert(s[0] as u32 != 0) by {
                if s[0] as u32 == 0 {
                    assert((0u32 as char) == '\0');
                }
            }
        }
        let u = utf16_of(s);
        assert(u == c + utf16_of(rest));
        assert forall|i: int| 0 <= i < u.len() implies #[trigger] u[i] != 0 by {
            if i >= c.len() {
                assert(u[i] == utf16_of(rest)[i - c.len()]);
            }
        }
    }
}

/// Whether a key or a text can be stored closed by a zero unit and read back.
pub open spec fn no_nul(s: Seq<char>) -> bool {
    forall|i: int| 0 <= i < s.len() ==> #[trigger] s[i] != '\0'
}

/// The length of the header of a block with key `key`, with its alignment gap.
pub open spec fn head_len(key: Seq<char>) -> int {
    6 + text_z_bytes(key).len() + pad4(6 + text_z_bytes(key).len() as int)
}

/// A text closed by a zero unit reads back from where it was written.
pub proof fn lemma_text_z_read(d: Seq<u8>, p: int, s: Seq<char>)
    requires
        no_nul(s),
        0 <= p,
        p + text_z_bytes(s).len() <= d.len(),
        d.subrange(p, p + text_z_bytes(s).len()) == text_z_bytes(s),
    ensures
        text_z_bytes(s).len() == 2 * utf16_of(s).len() + 2,
        units_z(d, p) == Some(utf16_of(s)),
        is_utf16(utf16_of(s)),
        text_of(utf16_of(s)) == s,
{
    lemma_units_bytes(utf16_of(s).push(0u16));
    lemma_utf16_nonzero(s);
    lemma_units_z_read(d, p, utf16_of(s));
    lemma_text_of_utf16(s);
}

/// A block written at a multiple of 4 reads back as its header; its payload
/// starts at a multiple of 4 after the header.
pub proof fn lemma_header_read(d: Seq<u8>, p: int, key: Seq<char>, data_type: DataType, value_len: int, payload: Seq<u8>)
    requires
        no_nul(key),
        0 <= p,
        p % 4 == 0,
        block_len(key, payload) <= 0xFFFF,
        0 <= value_len <= 0xFFFF,
        p + block_len(key, payload) <= d.len(),
        d.len() <= usize::MAX,
        d.subrange(p, p + block_len(key, payload)) == block_bytes(key, data_type, value_len, payload),
    ensures
        parse_header(d, p) == Ok::<(HeaderView, int), crate::error::ErrorView>(
            (
                HeaderView {
                    length: block_len(key, payload),
                    value_length: value_len,
                    data_type,
                    key,
                    last: p + block_len(key, payload),
                },
                p + head_len(key),
            ),
        ),
        (p + head_len(key)) % 4 == 0,
        head_len(key) + payload.len() == block_len(key, payload),
        d.subrange(p + head_len(key), p + block_len(key, payload)) == payload,
{
    reveal(parse_header);
    reveal(pad4);
    let b = block_bytes(key, data_type, value_len, payload);
    let t = text_z_bytes(key);
    let h = 6 + t.len();
    assert(pad4(p) == 0);
    assert(d.subrange(p, p + 2) =~= b.subrange(0, 2));
    assert(b.subrange(0, 2) =~= u16_bytes(block_len(key, payload) as u16));
    lemma_le16_at(d, p, block_len(key, payload) as u16);
    assert(d.subrange(p + 2, p + 4) =~= b.subrange(2, 4));
    assert(b.subrange(2, 4) =~= u16_bytes(value_len as u16));
    lemma_le16_at(d, p + 2, value_len as u16);
    assert(d.subrange(p + 4, p + 6) =~= b.subrange(4, 6));
    assert(b.subrange(4, 6) =~= u16_bytes(type_code(data_type)));
    lemma_le16_at(d, p + 4, type_code(data_type));
    assert(d.subrange(p + 6, p + 6 + t.len()) =~= b.subrange(6, 6 + t.len() as int));
    assert(b.subrange(6, 6 + t.len() as int) =~= t);
    lemma_text_z_read(d, p + 6, key);
    assert(d.subrange(p + head_len(key), p + block_len(key, payload)) =~= b.subrange(head_len(key), b.len() as int));
    assert(b.subrange(head_len(key), b.len() as int) =~= payload);
}

/// The length of the first `i` parts joined.
pub open spec fn joined_len(parts: Seq<Option<Seq<u8>>>, i: int) -> int {
    join_opt(parts.subrange(0, i))->0.len() as int
}

/// Where all parts join, every prefix of the parts joins to a prefix of
/// the whole.
pub proof fn lemma_join_prefix(parts: Seq<Option<Seq<u8>>>, i: int)
    requires
        join_opt(parts) is Some,
        0 <= i <= parts.len(),
    ensures
        join_opt(parts.subrange(0, i)) is Some,
        joined_len(parts, i) <= join_opt(parts)->0.len(),
        join_opt(parts)->0.subrange(0, joined_len(parts, i)) == join_opt(parts.subrange(0, i))->0,
    decreases parts.len(),
{
    reveal(join_opt);
    let n = parts.len() as int;
    if i == n {
        assert(parts.subrange(0, n) =~= parts);
        assert(join_opt(parts)->0.subrange(0, joined_len(parts, i)) =~= join_opt(parts)->0);
    } else {
        let init = parts.drop_last();
        lemma_join_prefix(init, i);
        assert(parts.subrange(0, i) =~= init.subrange(0, i));
        let j = join_opt(init)->0;
        let whole = join_opt(parts)->0;
        assert(whole == j + zeros(pad4(j.len() as int)) + parts.last()->0);
        assert(whole.subrange(0, joined_len(parts, i)) =~= j.subrange(0, joined_len(init, i)));
    }
}

/// Where all parts join, part `i` is there, and stands after the first `i`
/// parts and the gap that aligns it.
pub proof fn lemma_join_part(parts: Seq<Option<Seq<u8>>>, i: int)
    requires
        join_opt(parts) is Some,
        0 <= i < parts.len(),
    ensures
        parts[i] is Some,
        joined_len(parts, i + 1) == joined_len(parts, i) + pad4(joined_len(parts, i)) + parts[i]->0.len(),
        joined_len(parts, i + 1) <= join_opt(parts)->0.len(),
        join_opt(parts)->0.subrange(joined_len(parts, i) + pad4(joined_len(parts, i)), joined_len(parts, i + 1)) == parts[i]->0,
{
    reveal(join_opt);
    lemma_join_prefix(parts, i + 1);
    lemma_join_prefix(parts, i);
    let p = parts.subrange(0, i + 1);
    assert(p.drop_last() =~= parts.subrange(0, i));
    assert(p.last() == parts[i]);
    let whole = join_opt(parts)->0;
    let ji = join_opt(parts.subrange(0, i))->0;
    let a = joined_len(parts, i);
    assert(a == ji.len());
    assert(join_opt(p) == match (join_opt(p.drop_last()), p.last()) {
        (Some(j), Some(q)) => Some(j + zeros(pad4(j.len() as int)) + q),
        _ => None::<Seq<u8>>,
    });
    assert(parts[i] is Some);
    let jp = join_opt(p)->0;
    assert(jp == ji + zeros(pad4(a)) + parts[i]->0);
    assert(whole.subrange(a + pad4(a), joined_len(parts, i + 1)) =~= jp.subrange(a + pad4(a), jp.len() as int));
    assert(jp.subrange(a + pad4(a), jp.len() as int) =~= parts[i]->0);
}

/// The joined length of all parts is the length of the whole.
pub proof fn lemma_join_all(parts: Seq<Option<Seq<u8>>>)
    ensures
        joined_len(parts, parts.len() as int) == join_opt(parts)->0.len(),
{
    assert(parts.subrange(0, parts.len() as int) =~= parts);
}

/// Alignment is kept when shifted by a multiple of 4.
pub proof fn lemma_pad4_shift(p0: int, a: int)
    requires
        p0 % 4 == 0,
        0 <= p0,
        0 <= a,
    ensures
        pad4(p0 + a) == pad4(a),
        (p0 + a + pad4(a)) % 4 == 0,
{
    reveal(pad4);
    assert((p0 + a) % 4 == a % 4);
}

/// A part of bytes that stand at `p0` in the data stands in the data too.
pub proof fn lemma_sub_in_data(d: Seq<u8>, p0: int, whole: Seq<u8>, lo: int, hi: int)
    requires
        0 <= p0,
        0 <= lo <= hi <= whole.len(),
        p0 + whole.len() <= d.len(),
        d.subrange(p0, p0 + whole.len()) == whole,
    ensures
        d.subrange(p0 + lo, p0 + hi) == whole.subrange(lo, hi),
{
    assert(d.subrange(p0 + lo, p0 + hi) =~= whole.subrange(lo, hi)) by {
        assert forall|k: int| 0 <= k < hi - lo implies d.subrange(p0 + lo, p0 + hi)[k] == whole.subrange(lo, hi)[k] by {
            assert(d.subrange(p0, p0 + whole.len())[lo + k] == whole[lo + k]);
        }
    }
}

/// Reading a header from a position is reading it from the next multiple of 4.
pub proof fn lemma_header_from_gap(d: Seq<u8>, pos: int)
    ensures
        parse_header(d, pos) == parse_header(d, pos + pad4(pos)),
{
    reveal(parse_header);
    reveal(pad4);
    assert(pad4(pos + pad4(pos)) == 0);
}

/// Whether an entry reads back as it was written: its key and a text value
/// hold no zero character, and binary data has an even length.
pub open spec fn entry_ok(e: (Seq<char>, DataView)) -> bool {
    &&& no_nul(e.0)
    &&& match e.1 {
        DataView::Text(t) => no_nul(t),
        DataView::Binary(b) => b.len() % 2 == 0,
    }
}

/// An entry written at a multiple of 4 reads back.
pub proof fn lemma_entry_read(d: Seq<u8>, p: int, e: (Seq<char>, DataView))
    requires
        entry_ok(e),
        entry_enc(e) is Some,
        0 <= p,
        p % 4 == 0,
        p + entry_enc(e)->0.len() <= d.len(),
        d.len() <= usize::MAX,
        d.subrange(p, p + entry_enc(e)->0.len()) == entry_enc(e)->0,
    ensures
        parse_header(d, p) matches Ok((h, p1)) && h.key == e.0 && h.last == p + entry_enc(e)->0.len()
            && parse_value(d, p1, h) == Ok::<(DataView, int), crate::error::ErrorView>((e.1, p + entry_enc(e)->0.len())),
{
    match e.1 {
        DataView::Text(t) => {
            let pl = text_z_bytes(t);
            lemma_header_read(d, p, e.0, DataType::Text, utf16_of(t).len() as int + 1, pl);
            let p1 = p + head_len(e.0);
            lemma_text_z_read(d, p1, t);
        },
        DataView::Binary(b) => {
            lemma_header_read(d, p, e.0, DataType::Binary, b.len() as int / 2, b);
        },
    }
}

/// One step of reading entries: where the header and the value at `pos`
/// read back, reading goes on after them with the entry set.
proof fn lemma_entries_step(d: Seq<u8>, pos: int, s: int, last: int, acc: Seq<(Seq<char>, DataView)>, e: (Seq<char>, DataView), next: int)
    requires
        pos < last,
        s == pos + pad4(pos),
        parse_header(d, pos) == parse_header(d, s),
        parse_header(d, s) matches Ok((h, p1)) && h.key == e.0 && parse_value(d, p1, h) == Ok::<(DataView, int), crate::error::ErrorView>((e.1, next)),
    ensures
        parse_entries(d, pos, last, acc) == parse_entries(d, next, last, upsert(acc, e.0, e.1)),
{
}

/// The entries of a table, written one after the other from a multiple of
/// 4, read back from the `i`-th on.
pub proof fn lemma_entries_read(d: Seq<u8>, p0: int, es: Seq<(Seq<char>, DataView)>, i: int)
    requires
        keys_unique(es),
        forall|k: int| 0 <= k < es.len() ==> entry_ok(#[trigger] es[k]),
        join_opt(entry_parts(es)) is Some,
        0 <= p0,
        p0 % 4 == 0,
        0 <= i <= es.len(),
        p0 + join_opt(entry_parts(es))->0.len() <= d.len(),
        d.len() <= usize::MAX,
        d.subrange(p0, p0 + join_opt(entry_parts(es))->0.len()) == join_opt(entry_parts(es))->0,
    ensures
        parse_entries(
            d,
            p0 + joined_len(entry_parts(es), i),
            p0 + join_opt(entry_parts(es))->0.len(),
            es.subrange(0, i),
        ) == Ok::<(Seq<(Seq<char>, DataView)>, int), crate::error::ErrorView>(
            (es, p0 + join_opt(entry_parts(es))->0.len()),
        ),
    decreases es.len() - i,
{
    let parts = entry_parts(es);
    let whole = join_opt(parts)->0;
    let last = p0 + whole.len();
    lemma_join_all(parts);
    if i == es.len() {
        assert(es.subrange(0, i) =~= es);
    } else {
        lemma_join_part(parts, i);
        let a = joined_len(parts, i);
        let pos = p0 + a;
        lemma_pad4_shift(p0, a);
        let s = pos + pad4(pos);
        let e = es[i];
        assert(parts[i] == entry_enc(e));
        let b = entry_enc(e)->0;
        let nxt = joined_len(parts, i + 1);
        lemma_sub_in_data(d, p0, whole, a + pad4(a), nxt);
        assert(b.len() > 0);
        lemma_entry_read(d, s, e);
        lemma_header_from_gap(d, pos);
        let acc = es.subrange(0, i);
        lemma_entries_step(d, pos, s, last, acc, e, s + b.len());
        assert(!has_key(acc, e.0)) by {
            if has_key(acc, e.0) {
                let k = choose|k: int| 0 <= k < acc.len() && #[trigger] acc[k].0 == e.0;
                assert(es[k].0 == es[i].0);
            }
        }
        assert(upsert(acc, e.0, e.1) =~= es.subrange(0, i + 1));
        lemma_entries_read(d, p0, es, i + 1);
    }
}

/// Whether a string table reads back as it was written.
pub open spec fn table_ok(t: (Seq<char>, Seq<(Seq<char>, DataView)>)) -> bool {
    &&& no_nul(t.0)
    &&& keys_unique(t.1)
    &&& forall|k: int| 0 <= k < t.1.len() ==> entry_ok(#[trigger] t.1[k])
}

/// The joined parts of nothing are empty.
proof fn lemma_joined_len_zero(parts: Seq<Option<Seq<u8>>>)
    ensures
        joined_len(parts, 0) == 0,
{
    reveal(join_opt);
    assert(parts.subrange(0, 0) =~= Seq::<Option<Seq<u8>>>::empty());
}

/// A string table written at a multiple of 4 reads back.
pub proof fn lemma_table_read(d: Seq<u8>, p: int, t: (Seq<char>, Seq<(Seq<char>, DataView)>))
    requires
        table_ok(t),
        table_enc(t) is Some,
        0 <= p,
        p % 4 == 0,
        p + table_enc(t)->0.len() <= d.len(),
        d.len() <= usize::MAX,
        d.subrange(p, p + table_enc(t)->0.len()) == table_enc(t)->0,
    ensures
        parse_header(d, p) matches Ok((h, p1)) && h.key == t.0 && parse_entries(d, p1, h.last, seq![])
            == Ok::<(Seq<(Seq<char>, DataView)>, int), crate::error::ErrorView>((t.1, p + table_enc(t)->0.len())),
{
    let j = join_opt(entry_parts(t.1))->0;
    lemma_header_read(d, p, t.0, DataType::Binary, 0, j);
    let p1 = p + head_len(t.0);
    lemma_joined_len_zero(entry_parts(t.1));
    assert(t.1.subrange(0, 0) =~= Seq::<(Seq<char>, DataView)>::empty());
    lemma_entries_read(d, p1, t.1, 0);
}

/// One step of reading string tables.
proof fn lemma_tables_step(d: Seq<u8>, pos: int, s: int, last: int, acc: Seq<(Seq<char>, Seq<(Seq<char>, DataView)>)>, t: (Seq<char>, Seq<(Seq<char>, DataView)>), next: int)
    requires
        pos < last,
        parse_header(d, pos) == parse_header(d, s),
        parse_header(d, s) matches Ok((h, p1)) && h.key == t.0 && parse_entries(d, p1, h.last, seq![]) == Ok::<(Seq<(Seq<char>, DataView)>, int), crate::error::ErrorView>((t.1, next)),
    ensures
        parse_tables(d, pos, last, acc) == parse_tables(d, next, last, upsert(acc, t.0, t.1)),
{
}

/// The string tables, written one after the other from a multiple of 4,
/// read back from the `i`-th on.
pub proof fn lemma_tables_read(d: Seq<u8>, p0: int, ts: Seq<(Seq<char>, Seq<(Seq<char>, DataView)>)>, i: int)
    requires
        keys_unique(ts),
        forall|k: int| 0 <= k < ts.len() ==> table_ok(#[trigger] ts[k]),
        join_opt(table_parts(ts)) is Some,
        0 <= p0,
        p0 % 4 == 0,
        0 <= i <= ts.len(),
        p0 + join_opt(table_parts(ts))->0.len() <= d.len(),
        d.len() <= usize::MAX,
        d.subrange(p0, p0 + join_opt(table_parts(ts))->0.len()) == join_opt(table_parts(ts))->0,
    ensures
        parse_tables(
            d,
            p0 + joined_len(table_parts(ts), i),
            p0 + join_opt(table_parts(ts))->0.len(),
            ts.subrange(0, i),
        ) == Ok::<(Seq<(Seq<char>, Seq<(Seq<char>, DataView)>)>, int), crate::error::ErrorView>(
            (ts, p0 + join_opt(table_parts(ts))->0.len()),
        ),
    decreases ts.len() - i,
{
    let parts = table_parts(ts);
    let whole = join_opt(parts)->0;
    let last = p0 + whole.len();
    lemma_join_all(parts);
    if i == ts.len() {
        assert(ts.subrange(0, i) =~= ts);
    } else {
        lemma_join_part(parts, i);
        let a = joined_len(parts, i);
        let pos = p0 + a;
        lemma_pad4_shift(p0, a);
        let s = pos + pad4(pos);
        let t = ts[i];
        assert(parts[i] == table_enc(t));
        let b = table_enc(t)->0;
        let nxt = joined_len(parts, i + 1);
        lemma_sub_in_data(d, p0, whole, a + pad4(a), nxt);
        lemma_table_read(d, s, t);
        lemma_header_from_gap(d, pos);
        let acc = ts.subrange(0, i);
        lemma_tables_step(d, pos, s, last, acc, t, s + b.len());
        assert(!has_key(acc, t.0)) by {
            if has_key(acc, t.0) {
                let k = choose|k: int| 0 <= k < acc.len() && #[trigger] acc[k].0 == t.0;
                assert(ts[k].0 == ts[i].0);
            }
        }
        assert(upsert(acc, t.0, t.1) =~= ts.subrange(0, i + 1));
        lemma_tables_read(d, p0, ts, i + 1);
    }
}

/// The bytes of words: four per word, in order.
pub proof fn lemma_words_bytes(ws: Seq<u32>)
    ensures
        words_bytes(ws).len() == 4 * ws.len(),
        forall|i: int| 0 <= i < ws.len() ==> #[trigger] words_bytes(ws).subrange(4 * i, 4 * i + 4) == u32_bytes(ws[i]),
    decreases ws.len(),
{
    if ws.len() > 0 {
        let init = ws.drop_last();
        lemma_words_bytes(init);
        let b = words_bytes(ws);
        assert(b == words_bytes(init) + u32_bytes(ws.last()));
        assert forall|i: int| 0 <= i < ws.len() implies #[trigger] b.subrange(4 * i, 4 * i + 4) == u32_bytes(ws[i]) by {
            if i < ws.len() - 1 {
                assert(b.subrange(4 * i, 4 * i + 4) =~= words_bytes(init).subrange(4 * i, 4 * i + 4));
                assert(init[i] == ws[i]);
            } else {
                assert(b.subrange(4 * i, 4 * i + 4) =~= u32_bytes(ws.last()));
            }
        }
    }
}

/// Words written at `p` read back from the `i`-th on.
pub proof fn lemma_words_read(d: Seq<u8>, p: int, ws: Seq<u32>, i: int)
    requires
        0 <= p,
        0 <= i <= ws.len(),
        p + words_bytes(ws).len() <= d.len(),
        d.subrange(p, p + words_bytes(ws).len()) == words_bytes(ws),
    ensures
        parse_words(d, p + 4 * i, p + words_bytes(ws).len(), ws.subrange(0, i)) == Ok::<(Seq<u32>, int), crate::error::ErrorView>((ws, p + words_bytes(ws).len())),
    decreases ws.len() - i,
{
    lemma_words_bytes(ws);
    if i == ws.len() {
        assert(ws.subrange(0, i) =~= ws);
    } else {
        lemma_sub_in_data(d, p, words_bytes(ws), 4 * i, 4 * i + 4);
        lemma_le32_at(d, p + 4 * i, ws[i]);
        assert(ws.subrange(0, i).push(ws[i]) =~= ws.subrange(0, i + 1));
        lemma_words_read(d, p, ws, i + 1);
    }
}

/// A word array written at a multiple of 4 reads back.
pub proof fn lemma_var_read(d: Seq<u8>, p: int, v: (Seq<char>, Seq<u32>))
    requires
        no_nul(v.0),
        var_enc(v) is Some,
        0 <= p,
        p % 4 == 0,
        p + var_enc(v)->0.len() <= d.len(),
        d.len() <= usize::MAX,
        d.subrange(p, p + var_enc(v)->0.len()) == var_enc(v)->0,
    ensures
        parse_header(d, p) matches Ok((h, p1)) && h.key == v.0 && parse_words(d, p1, h.last, seq![])
            == Ok::<(Seq<u32>, int), crate::error::ErrorView>((v.1, p + var_enc(v)->0.len())),
{
    let w = words_bytes(v.1);
    lemma_header_read(d, p, v.0, DataType::Binary, v.1.len() as int, w);
    let p1 = p + head_len(v.0);
    assert(v.1.subrange(0, 0) =~= Seq::<u32>::empty());
    lemma_words_read(d, p1, v.1, 0);
}

/// One step of reading word arrays.
proof fn lemma_vars_step(d: Seq<u8>, pos: int, s: int, last: int, acc: Seq<(Seq<char>, Seq<u32>)>, v: (Seq<char>, Seq<u32>), next: int)
    requires
        pos < last,
        parse_header(d, pos) == parse_header(d, s),
        parse_header(d, s) matches Ok((h, p1)) && h.key == v.0 && parse_words(d, p1, h.last, seq![]) == Ok::<(Seq<u32>, int), crate::error::ErrorView>((v.1, next)),
    ensures
        parse_vars(d, pos, last, acc) == parse_vars(d, next, last, upsert(acc, v.0, v.1)),
{
}

/// The word arrays, written one after the other from a multiple of 4, read
/// back from the `i`-th on.
pub proof fn lemma_vars_read(d: Seq<u8>, p0: int, vs: Seq<(Seq<char>, Seq<u32>)>, i: int)
    requires
        keys_unique(vs),
        forall|k: int| 0 <= k < vs.len() ==> no_nul((#[trigger] vs[k]).0),
        join_opt(var_parts(vs)) is Some,
        0 <= p0,
        p0 % 4 == 0,
        0 <= i <= vs.len(),
        p0 + join_opt(var_parts(vs))->0.len() <= d.len(),
        d.len() <= usize::MAX,
        d.subrange(p0, p0 + join_opt(var_parts(vs))->0.len()) == join_opt(var_parts(vs))->0,
    ensures
        parse_vars(
            d,
            p0 + joined_len(var_parts(vs), i),
            p0 + join_opt(var_parts(vs))->0.len(),
            vs.subrange(0, i),
        ) == Ok::<(Seq<(Seq<char>, Seq<u32>)>, int), crate::error::ErrorView>(
            (vs, p0 + join_opt(var_parts(vs))->0.len()),
        ),
    decreases vs.len() - i,
{
    let parts = var_parts(vs);
    let whole = join_opt(parts)->0;
    let last = p0 + whole.len();
    lemma_join_all(parts);
    if i == vs.len() {
        assert(vs.subrange(0, i) =~= vs);
    } else {
        lemma_join_part(parts, i);
        let a = joined_len(parts, i);
        let pos = p0 + a;
        lemma_pad4_shift(p0, a);
        let s = pos + pad4(pos);
        let v = vs[i];
        assert(parts[i] == var_enc(v));
        let b = var_enc(v)->0;
        let nxt = joined_len(parts, i + 1);
        lemma_sub_in_data(d, p0, whole, a + pad4(a), nxt);
        lemma_var_read(d, s, v);
        lemma_header_from_gap(d, pos);
        let acc = vs.subrange(0, i);
        lemma_vars_step(d, pos, s, last, acc, v, s + b.len());
        assert(!has_key(acc, v.0)) by {
            if has_key(acc, v.0) {
                let k = choose|k: int| 0 <= k < acc.len() && #[trigger] acc[k].0 == v.0;
                assert(vs[k].0 == vs[i].0);
            }
        }
        assert(upsert(acc, v.0, v.1) =~= vs.subrange(0, i + 1));
        lemma_vars_read(d, p0, vs, i + 1);
    }
}

/// Whether a child reads back as it was written: keys distinct at each
/// level, and every key and text free of zero characters.
pub open spec fn child_ok(c: ChildView) -> bool {
    match c {
        ChildView::Strings(ts) => keys_unique(ts) && forall|k: int| 0 <= k < ts.len() ==> table_ok(#[trigger] ts[k]),
        ChildView::Vars(vs) => keys_unique(vs) && forall|k: int| 0 <= k < vs.len() ==> no_nul((#[trigger] vs[k]).0),
    }
}

/// A child written at a multiple of 4 reads back.
pub proof fn lemma_child_read(d: Seq<u8>, p: int, c: ChildView)
    requires
        child_ok(c),
        child_enc(c) is Some,
        0 <= p,
        p % 4 == 0,
        p + child_enc(c)->0.len() <= d.len(),
        d.len() <= usize::MAX,
        d.subrange(p, p + child_enc(c)->0.len()) == child_enc(c)->0,
    ensures
        parse_child(d, p) == Ok::<(ChildView, int), crate::error::ErrorView>((c, p + child_enc(c)->0.len())),
{
    reveal_strlit("StringFileInfo");
    reveal_strlit("VarFileInfo");
    match c {
        ChildView::Strings(ts) => {
            let j = join_opt(table_parts(ts))->0;
            lemma_header_read(d, p, string_file_info_key(), DataType::Binary, 0, j);
            let p1 = p + head_len(string_file_info_key());
            lemma_joined_len_zero(table_parts(ts));
            assert(ts.subrange(0, 0) =~= Seq::<(Seq<char>, Seq<(Seq<char>, DataView)>)>::empty());
            lemma_tables_read(d, p1, ts, 0);
        },
        ChildView::Vars(vs) => {
            let j = join_opt(var_parts(vs))->0;
            lemma_header_read(d, p, var_file_info_key(), DataType::Binary, 0, j);
            let p1 = p + head_len(var_file_info_key());
            lemma_joined_len_zero(var_parts(vs));
            assert(vs.subrange(0, 0) =~= Seq::<(Seq<char>, Seq<u32>)>::empty());
            lemma_vars_read(d, p1, vs, 0);
            assert(var_file_info_key().len() != string_file_info_key().len());
        },
    }
}

/// Reading a child from a position is reading it from the next multiple of 4.
proof fn lemma_child_from_gap(d: Seq<u8>, pos: int)
    ensures
        parse_child(d, pos) == parse_child(d, pos + pad4(pos)),
{
    lemma_header_from_gap(d, pos);
}

/// One step of reading children.
proof fn lemma_children_step(d: Seq<u8>, pos: int, acc: Seq<ChildView>, c: ChildView, next: int)
    requires
        pos < d.len(),
        parse_child(d, pos) == Ok::<(ChildView, int), crate::error::ErrorView>((c, next)),
    ensures
        parse_children(d, pos, acc) == parse_children(d, next, acc.push(c)),
{
}

/// A written child is not empty.
proof fn lemma_child_enc_len(c: ChildView)
    requires
        child_enc(c) is Some,
    ensures
        child_enc(c)->0.len() > 0,
{
}

/// The children, written one after the other from a multiple of 4 up to the
/// end of the data, read back from the `i`-th on.
pub proof fn lemma_children_read(d: Seq<u8>, p0: int, cs: Seq<ChildView>, i: int)
    requires
        forall|k: int| 0 <= k < cs.len() ==> child_ok(#[trigger] cs[k]),
        join_opt(child_parts(cs)) is Some,
        0 <= p0,
        p0 % 4 == 0,
        0 <= i <= cs.len(),
        p0 + join_opt(child_parts(cs))->0.len() == d.len(),
        d.len() <= usize::MAX,
        d.subrange(p0, p0 + join_opt(child_parts(cs))->0.len()) == join_opt(child_parts(cs))->0,
    ensures
        parse_children(d, p0 + joined_len(child_parts(cs), i), cs.subrange(0, i)) == Ok::<Seq<ChildView>, crate::error::ErrorView>(cs),
    decreases cs.len() - i,
{
    let parts = child_parts(cs);
    let whole = join_opt(parts)->0;
    lemma_join_all(parts);
    if i == cs.len() {
        assert(cs.subrange(0, i) =~= cs);
    } else {
        lemma_join_part(parts, i);
        let a = joined_len(parts, i);
        let pos = p0 + a;
        lemma_pad4_shift(p0, a);
        let s = pos + pad4(pos);
        let c = cs[i];
        assert(parts[i] == child_enc(c));
        let b = child_enc(c)->0;
        let nxt = joined_len(parts, i + 1);
        lemma_sub_in_data(d, p0, whole, a + pad4(a), nxt);
        lemma_child_read(d, s, c);
        lemma_child_from_gap(d, pos);
        lemma_child_enc_len(c);
        lemma_children_step(d, pos, cs.subrange(0, i), c, s + b.len());
        assert(cs.subrange(0, i).push(c) =~= cs.subrange(0, i + 1));
        lemma_children_read(d, p0, cs, i + 1);
    }
}

/// A word of the fixed file record reads back.
proof fn lemma_word_read(d: Seq<u8>, p: int, fb: Seq<u8>, k: int, w: u32)
    requires
        0 <= p,
        0 <= k < 13,
        fb.len() == 52,
        p + 52 <= d.len(),
        d.subrange(p, p + 52) == fb,
        fb.subrange(4 * k, 4 * k + 4) == u32_bytes(w),
    ensures
        word(d, p, k) == w,
{
    lemma_sub_in_data(d, p, fb, 4 * k, 4 * k + 4);
    lemma_le32_at(d, p + 4 * k, w);
}

/// The two words of a version split back into its four parts.
proof fn lemma_version_words(v: Version)
    ensures
        (version_ms(v) / 65536) as u16 == v.0[0],
        (version_ms(v) % 65536) as u16 == v.0[1],
        (version_ls(v) / 65536) as u16 == v.0[2],
        (version_ls(v) % 65536) as u16 == v.0[3],
{
    let a = v.0[0] as int;
    let b = v.0[1] as int;
    let c = v.0[2] as int;
    let e = v.0[3] as int;
    assert(0 <= a * 65536 + b < 0x1_0000_0000) by (nonlinear_arith)
        requires 0 <= a < 65536, 0 <= b < 65536;
    assert(0 <= c * 65536 + e < 0x1_0000_0000) by (nonlinear_arith)
        requires 0 <= c < 65536, 0 <= e < 65536;
    assert((a * 65536 + b) / 65536 == a && (a * 65536 + b) % 65536 == b) by (nonlinear_arith)
        requires 0 <= a < 65536, 0 <= b < 65536;
    assert((c * 65536 + e) / 65536 == c && (c * 65536 + e) % 65536 == e) by (nonlinear_arith)
        requires 0 <= c < 65536, 0 <= e < 65536;
}

/// The two words of a date join back into it.
proof fn lemma_date_words(x: u64)
    ensures
        (((x / 0x1_0000_0000) as u32) as int * 0x1_0000_0000 + ((x % 0x1_0000_0000) as u32) as int) as u64 == x,
{
    let q = x as int / 0x1_0000_0000;
    let r = x as int % 0x1_0000_0000;
    assert(q * 0x1_0000_0000 + r == x as int && 0 <= q < 0x1_0000_0000 && 0 <= r < 0x1_0000_0000) by (nonlinear_arith)
        requires q == x as int / 0x1_0000_0000, r == x as int % 0x1_0000_0000, 0 <= x < 0x1_0000_0000_0000_0000;
}

/// A fixed file record with the valid signature reads back.
pub proof fn lemma_file_info_read(d: Seq<u8>, p: int, fi: FileInfo)
    requires
        fi.signature == SIGNATURE,
        0 <= p,
        p + 52 <= d.len(),
        d.subrange(p, p + 52) == file_info_bytes(fi),
    ensures
        file_info_error(d, p) is None,
        file_info_at(d, p) == fi,
{
    let fb = file_info_bytes(fi);
    let dms = (fi.file_date.0 / 0x1_0000_0000) as u32;
    let dls = (fi.file_date.0 % 0x1_0000_0000) as u32;
    assert(fb.len() == 52);
    assert(fb.subrange(0, 4) =~= u32_bytes(SIGNATURE));
    assert(fb.subrange(4, 8) =~= u32_bytes(fi.struc_version));
    assert(fb.subrange(8, 12) =~= u32_bytes(version_ms(fi.file_version)));
    assert(fb.subrange(12, 16) =~= u32_bytes(version_ls(fi.file_version)));
    assert(fb.subrange(16, 20) =~= u32_bytes(version_ms(fi.product_version)));
    assert(fb.subrange(20, 24) =~= u32_bytes(version_ls(fi.product_version)));
    assert(fb.subrange(24, 28) =~= u32_bytes(fi.file_flags_mask));
    assert(fb.subrange(28, 32) =~= u32_bytes(fi.file_flags));
    assert(fb.subrange(32, 36) =~= u32_bytes(fi.file_os));
    assert(fb.subrange(36, 40) =~= u32_bytes(fi.file_type));
    assert(fb.subrange(40, 44) =~= u32_bytes(fi.file_subtype));
    assert(fb.subrange(44, 48) =~= u32_bytes(dms));
    assert(fb.subrange(48, 52) =~= u32_bytes(dls));
    lemma_word_read(d, p, fb, 0, SIGNATURE);
    lemma_word_read(d, p, fb, 1, fi.struc_version);
    lemma_word_read(d, p, fb, 2, version_ms(fi.file_version));
    lemma_word_read(d, p, fb, 3, version_ls(fi.file_version));
    lemma_word_read(d, p, fb, 4, version_ms(fi.product_version));
    lemma_word_read(d, p, fb, 5, version_ls(fi.product_version));
    lemma_word_read(d, p, fb, 6, fi.file_flags_mask);
    lemma_word_read(d, p, fb, 7, fi.file_flags);
    lemma_word_read(d, p, fb, 8, fi.file_os);
    lemma_word_read(d, p, fb, 9, fi.file_type);
    lemma_word_read(d, p, fb, 10, fi.file_subtype);
    lemma_word_read(d, p, fb, 11, dms);
    lemma_word_read(d, p, fb, 12, dls);
    lemma_version_words(fi.file_version);
    lemma_version_words(fi.product_version);
    lemma_date_words(fi.file_date.0);
    reveal(file_info_at);
    let r = file_info_at(d, p);
    assert(r.file_version.0 =~= fi.file_version.0);
    assert(r.product_version.0 =~= fi.product_version.0);
}

/// Whether a version resource reads back exactly as it was written: the
/// top block is binary and keyed `VS_VERSION_INFO`, the fixed file record
/// carries the signature, keys are distinct in every table and list, and no
/// key or text holds a zero character.
pub open spec fn well_formed(v: VersionInfoView) -> bool {
    &&& v.data_type == DataType::Binary
    &&& v.key == version_info_key()
    &&& v.info.signature == SIGNATURE
    &&& forall|k: int| 0 <= k < v.children.len() ==> child_ok(#[trigger] v.children[k])
}

/// Reading a whole version resource, from what its parts read back as.
proof fn lemma_version_info_steps(d: Seq<u8>, h: HeaderView, p1: int, info: FileInfo, cs: Seq<ChildView>)
    requires
        parse_header(d, 0) == Ok::<(HeaderView, int), crate::error::ErrorView>((h, p1)),
        file_info_error(d, p1) is None,
        file_info_at(d, p1) == info,
        pad4(p1 + 52) == 0,
        p1 + 52 <= d.len(),
        parse_children(d, p1 + 52, seq![]) == Ok::<Seq<ChildView>, crate::error::ErrorView>(cs),
    ensures
        parse_version_info(d) == Ok::<VersionInfoView, crate::error::ErrorView>(
            VersionInfoView { data_type: h.data_type, key: h.key, info, children: cs },
        ),
{
    reveal(parse_version_info);
}

/// The bytes of a version resource are one block around the fixed file
/// record and the joined children.
proof fn lemma_version_info_shape(v: VersionInfoView)
    requires
        version_info_enc(v) is Some,
    ensures
        join_opt(child_parts(v.children)) is Some,
        version_info_enc(v)->0 == block_bytes(
            version_info_key(),
            DataType::Binary,
            52,
            file_info_bytes(v.info) + join_opt(child_parts(v.children))->0,
        ),
        block_len(version_info_key(), file_info_bytes(v.info) + join_opt(child_parts(v.children))->0) <= 0xFFFF,
{
    reveal(version_info_enc);
}

/// The header and the fixed file record of a written version resource
/// read back, and its children stand after them at a multiple of 4.
proof fn lemma_top_read(v: VersionInfoView, d: Seq<u8>)
    requires
        v.info.signature == SIGNATURE,
        version_info_enc(v) is Some,
        d == version_info_enc(v)->0,
    ensures
        ({
            let p1 = head_len(version_info_key());
            let j = join_opt(child_parts(v.children))->0;
            &&& parse_header(d, 0) == Ok::<(HeaderView, int), crate::error::ErrorView>(
                (
                    HeaderView {
                        length: d.len() as int,
                        value_length: 52,
                        data_type: DataType::Binary,
                        key: version_info_key(),
                        last: d.len() as int,
                    },
                    p1,
                ),
            )
            &&& file_info_error(d, p1) is None
            &&& file_info_at(d, p1) == v.info
            &&& pad4(p1 + 52) == 0
            &&& (p1 + 52) % 4 == 0
            &&& join_opt(child_parts(v.children)) is Some
            &&& p1 + 52 + j.len() == d.len()
            &&& d.len() <= 0xFFFF
            &&& d.subrange(p1 + 52, p1 + 52 + j.len()) == j
        }),
{
    reveal_strlit("VS_VERSION_INFO");
    lemma_version_info_shape(v);
    let parts = child_parts(v.children);
    let j = join_opt(parts)->0;
    let f = file_info_bytes(v.info);
    let payload = f + j;
    assert(f.len() == 52);
    assert(d.subrange(0, d.len() as int) =~= d);
    lemma_header_read(d, 0, version_info_key(), DataType::Binary, 52, payload);
    let p1 = head_len(version_info_key());
    lemma_sub_in_data(d, p1, payload, 0, 52);
    assert(payload.subrange(0, 52) =~= f);
    lemma_file_info_read(d, p1, v.info);
    let p2 = p1 + 52;
    lemma_pad4_shift(p2, 0);
    assert(pad4(0) == 0) by {
        reveal(pad4);
    }
    lemma_sub_in_data(d, p1, payload, 52, payload.len() as int);
    assert(payload.subrange(52, payload.len() as int) =~= j);
}

/// Decoding the bytes that encoding a well-formed version resource produces
/// gives that version resource back.
pub proof fn lemma_round_trip(v: VersionInfoView)
    requires
        well_formed(v),
        version_info_enc(v) is Some,
    ensures
        parse_version_info(version_info_enc(v)->0) == Ok::<VersionInfoView, crate::error::ErrorView>(v),
{
    let d = version_info_enc(v)->0;
    lemma_top_read(v, d);
    let p1 = head_len(version_info_key());
    let parts = child_parts(v.children);
    lemma_joined_len_zero(parts);
    assert(v.children.subrange(0, 0) =~= Seq::<ChildView>::empty());
    lemma_children_read(d, p1 + 52, v.children, 0);
    let h = HeaderView {
        length: d.len() as int,
        value_length: 52,
        data_type: DataType::Binary,
        key: version_info_key(),
        last: d.len() as int,
    };
    lemma_version_info_steps(d, h, p1, v.info, v.children);
}

} // verus!
