//! Reading the children of a version resource. Each level loops while the
//! position is before the end of the enclosing block.

use vstd::prelude::*;
use crate::bytes::{le32, pad4, read_u32, read_bytes};
use crate::error::{Error, ErrorView};
use crate::header::{DataType, Header, HeaderView, parse_header};
use crate::text::{units_z, is_utf16, text_of, utf16_of, read_units_z, text_from_units, lemma_utf16_injective};
use crate::table::{upsert, keys_unique, lemma_upsert_unique};
use crate::child::{
    Data, DataView, StringEntry, StringTable, Var, VersionInfoChild, ChildView, entries_view,
    tables_view, vars_view, set_entry, set_table, set_var,
};

verus! {

broadcast use crate::bytes::lemma_pad4_bounds;

/// The value of a string entry with header `h`, read from `pos`: for binary
/// data twice `value_length` bytes, for text the units up to a zero unit.
pub open spec fn parse_value(d: Seq<u8>, pos: int, h: HeaderView) -> Result<(DataView, int), ErrorView> {
    match h.data_type {
        DataType::Binary => {
            let n = 2 * h.value_length;
            if pos + n > d.len() {
                Err(ErrorView::Underrun)
            } else {
                Ok((DataView::Binary(d.subrange(pos, pos + n)), pos + n))
            }
        },
        DataType::Text => match units_z(d, pos) {
            None => Err(ErrorView::Underrun),
            Some(u) => if !is_utf16(u) {
                Err(ErrorView::InvalidUtf16)
            } else {
                Ok((DataView::Text(text_of(u)), pos + 2 * u.len() + 2))
            },
        },
    }
}

/// The units read up to a zero unit end within the data.
pub proof fn lemma_units_z_bound(d: Seq<u8>, pos: int)
    requires
        units_z(d, pos) is Some,
    ensures
        pos + 2 * units_z(d, pos)->0.len() + 2 <= d.len(),
    decreases d.len() - pos,
{
    if pos >= 0 && pos + 2 <= d.len() && crate::bytes::le16(d, pos) != 0 {
        lemma_units_z_bound(d, pos + 2);
    }
}

/// A header ends after its start and within the data; so does a value.
pub proof fn lemma_value_bound(d: Seq<u8>, pos: int)
    ensures
        parse_header(d, pos) matches Ok((h, p1)) ==> pos < p1 <= d.len() && 0 <= h.value_length <= 0xFFFF && (parse_value(d, p1, h) matches Ok((v, p2)) ==> p1 <= p2 <= d.len()),
{
    reveal(parse_header);
    reveal(pad4);
    if let Ok((h, p1)) = parse_header(d, pos) {
        if h.data_type == DataType::Text {
            if units_z(d, p1) is Some {
                lemma_units_z_bound(d, p1);
            }
        }
    }
}

/// The entries of a string table from `pos` up to `last`, set one after
/// the other into `acc`.
pub open spec fn parse_entries(d: Seq<u8>, pos: int, last: int, acc: Seq<(Seq<char>, DataView)>) -> Result<(Seq<(Seq<char>, DataView)>, int), ErrorView>
    decreases d.len() - pos,
    via parse_entries_decreases
{
    if pos >= last {
        Ok((acc, pos))
    } else {
        match parse_header(d, pos) {
            Err(e) => Err(e),
            Ok((h, p1)) => match parse_value(d, p1, h) {
                Err(e) => Err(e),
                Ok((v, p2)) => parse_entries(d, p2, last, upsert(acc, h.key, v)),
            },
        }
    }
}

#[via_fn]
proof fn parse_entries_decreases(d: Seq<u8>, pos: int, last: int, acc: Seq<(Seq<char>, DataView)>) {
    lemma_value_bound(d, pos);
}

/// Where the entries of a table end: not before `pos`, nor past the data.
pub proof fn lemma_entries_bound(d: Seq<u8>, pos: int, last: int, acc: Seq<(Seq<char>, DataView)>)
    requires
        pos <= d.len(),
    ensures
        parse_entries(d, pos, last, acc) matches Ok((_, q)) ==> pos <= q <= d.len(),
    decreases d.len() - pos,
{
    lemma_value_bound(d, pos);
    if pos < last {
        if let Ok((h, p1)) = parse_header(d, pos) {
            if let Ok((v, p2)) = parse_value(d, p1, h) {
                lemma_entries_bound(d, p2, last, upsert(acc, h.key, v));
            }
        }
    }
}

/// The string tables from `pos` up to `last`, set one after the other into `acc`.
pub open spec fn parse_tables(d: Seq<u8>, pos: int, last: int, acc: Seq<(Seq<char>, Seq<(Seq<char>, DataView)>)>) -> Result<(Seq<(Seq<char>, Seq<(Seq<char>, DataView)>)>, int), ErrorView>
    decreases d.len() - pos,
    via parse_tables_decreases
{
    if pos >= last {
        Ok((acc, pos))
    } else {
        match parse_header(d, pos) {
            Err(e) => Err(e),
            Ok((h, p1)) => match parse_entries(d, p1, h.last, seq![]) {
                Err(e) => Err(e),
                Ok((es, p2)) => parse_tables(d, p2, last, upsert(acc, h.key, es)),
            },
        }
    }
}

#[via_fn]
proof fn parse_tables_decreases(d: Seq<u8>, pos: int, last: int, acc: Seq<(Seq<char>, Seq<(Seq<char>, DataView)>)>) {
    lemma_value_bound(d, pos);
    if let Ok((h, p1)) = parse_header(d, pos) {
        lemma_entries_bound(d, p1, h.last, seq![]);
    }
}

/// The words from `pos` up to `last`, appended to `acc`.
pub open spec fn parse_words(d: Seq<u8>, pos: int, last: int, acc: Seq<u32>) -> Result<(Seq<u32>, int), ErrorView>
    decreases d.len() - pos,
{
    if pos >= last {
        Ok((acc, pos))
    } else if pos + 4 > d.len() {
        Err(ErrorView::Underrun)
    } else {
        parse_words(d, pos + 4, last, acc.push(le32(d, pos)))
    }
}

/// Where the words end: not before `pos`, nor past the data.
pub proof fn lemma_words_bound(d: Seq<u8>, pos: int, last: int, acc: Seq<u32>)
    requires
        pos <= d.len(),
    ensures
        parse_words(d, pos, last, acc) matches Ok((_, q)) ==> pos <= q <= d.len(),
    decreases d.len() - pos,
{
    if pos < last && pos + 4 <= d.len() {
        lemma_words_bound(d, pos + 4, last, acc.push(le32(d, pos)));
    }
}

/// The word arrays from `pos` up to `last`, set one after the other into `acc`.
pub open spec fn parse_vars(d: Seq<u8>, pos: int, last: int, acc: Seq<(Seq<char>, Seq<u32>)>) -> Result<(Seq<(Seq<char>, Seq<u32>)>, int), ErrorView>
    decreases d.len() - pos,
    via parse_vars_decreases
{
    if pos >= last {
        Ok((acc, pos))
    } else {
        match parse_header(d, pos) {
            Err(e) => Err(e),
            Ok((h, p1)) => match parse_words(d, p1, h.last, seq![]) {
                Err(e) => Err(e),
                Ok((ws, p2)) => parse_vars(d, p2, last, upsert(acc, h.key, ws)),
            },
        }
    }
}

#[via_fn]
proof fn parse_vars_decreases(d: Seq<u8>, pos: int, last: int, acc: Seq<(Seq<char>, Seq<u32>)>) {
    lemma_value_bound(d, pos);
    if let Ok((h, p1)) = parse_header(d, pos) {
        lemma_words_bound(d, p1, h.last, seq![]);
    }
}

/// The key of a string file info block.
pub open spec fn string_file_info_key() -> Seq<char> {
    "StringFileInfo"@
}

/// The key of a var file info block.
pub open spec fn var_file_info_key() -> Seq<char> {
    "VarFileInfo"@
}

/// The child that starts at the first multiple of 4 from `pos`, and where it ends.
pub open spec fn parse_child(d: Seq<u8>, pos: int) -> Result<(ChildView, int), ErrorView> {
    match parse_header(d, pos) {
        Err(e) => Err(e),
        Ok((h, p1)) => if h.key == string_file_info_key() {
            match parse_tables(d, p1, h.last, seq![]) {
                Err(e) => Err(e),
                Ok((ts, p2)) => Ok((ChildView::Strings(ts), p2)),
            }
        } else if h.key == var_file_info_key() {
            match parse_vars(d, p1, h.last, seq![]) {
                Err(e) => Err(e),
                Ok((vs, p2)) => Ok((ChildView::Vars(vs), p2)),
            }
        } else {
            Err(ErrorView::UnknownChild(h.key))
        },
    }
}

/// Reads the value of a string entry with header `h` from `pos`.
fn decode_value(data: &[u8], pos: usize, h: &Header) -> (r: Result<(Data, usize), Error>)
    requires
        h.value_length <= 0xFFFF,
    ensures
        match (r, parse_value(data@, pos as int, h@)) {
            (Ok((v, e)), Ok((vv, ev))) => v@ == vv && e == ev,
            (Err(x), Err(y)) => x@ == y,
            _ => false,
        },
{
    let _size = data.len();
    let _size = data.len();
    match h.data_type {
        DataType::Binary => {
            let n = 2 * h.value_length;
            match read_bytes(data, pos, n) {
                Some(b) => Ok((Data::Binary(b), pos + n)),
                None => Err(Error::Underrun),
            }
        },
        DataType::Text => match read_units_z(data, pos) {
            None => Err(Error::Underrun),
            Some((u, e)) => match text_from_units(&u) {
                None => Err(Error::InvalidUtf16),
                Some(t) => {
                    proof {
                        let w = text_of(u@);
                        assert(utf16_of(w) == u@);
                        lemma_utf16_injective(w, t@);
                    }
                    Ok((Data::Text(t), e))
                },
            },
        },
    }
}

/// Reads the entries of a string table from `pos` up to `last`.
fn decode_entries(data: &[u8], pos: usize, last: usize) -> (r: Result<(Vec<StringEntry>, usize), Error>)
    requires
        pos <= data@.len(),
    ensures
        match (r, parse_entries(data@, pos as int, last as int, seq![])) {
            (Ok((v, e)), Ok((vv, ev))) => entries_view(v@) == vv && e == ev,
            (Err(x), Err(y)) => x@ == y,
            _ => false,
        },
{
    let mut acc: Vec<StringEntry> = Vec::new();
    let mut p = pos;
    assert(entries_view(acc@) =~= seq![]);
    while p < last
        invariant
            p <= data@.len(),
            parse_entries(data@, pos as int, last as int, seq![]) == parse_entries(
                data@,
                p as int,
                last as int,
                entries_view(acc@),
            ),
        decreases data@.len() - p,
    {
        proof {
            lemma_value_bound(data@, p as int);
        }
        let (h, p1) = match Header::decode(data, p) {
            Ok(x) => x,
            Err(e) => {
                return Err(e);
            },
        };
        let (v, p2) = match decode_value(data, p1, &h) {
            Ok(x) => x,
            Err(e) => {
                return Err(e);
            },
        };
        set_entry(&mut acc, h.key.as_str(), v);
        p = p2;
    }
    Ok((acc, p))
}

/// Reads the string tables from `pos` up to `last`.
fn decode_tables(data: &[u8], pos: usize, last: usize) -> (r: Result<(Vec<StringTable>, usize), Error>)
    requires
        pos <= data@.len(),
    ensures
        match (r, parse_tables(data@, pos as int, last as int, seq![])) {
            (Ok((v, e)), Ok((vv, ev))) => tables_view(v@) == vv && e == ev,
            (Err(x), Err(y)) => x@ == y,
            _ => false,
        },
{
    let mut acc: Vec<StringTable> = Vec::new();
    let mut p = pos;
    assert(tables_view(acc@) =~= seq![]);
    while p < last
        invariant
            p <= data@.len(),
            parse_tables(data@, pos as int, last as int, seq![]) == parse_tables(
                data@,
                p as int,
                last as int,
                tables_view(acc@),
            ),
        decreases data@.len() - p,
    {
        proof {
            lemma_value_bound(data@, p as int);
        }
        let (h, p1) = match Header::decode(data, p) {
            Ok(x) => x,
            Err(e) => {
                return Err(e);
            },
        };
        proof {
            lemma_entries_bound(data@, p1 as int, h.last as int, seq![]);
        }
        let (es, p2) = match decode_entries(data, p1, h.last) {
            Ok(x) => x,
            Err(e) => {
                return Err(e);
            },
        };
        set_table(&mut acc, h.key, es);
        p = p2;
    }
    Ok((acc, p))
}

/// Reads the words from `pos` up to `last`.
fn decode_words(data: &[u8], pos: usize, last: usize) -> (r: Result<(Vec<u32>, usize), Error>)
    requires
        pos <= data@.len(),
    ensures
        match (r, parse_words(data@, pos as int, last as int, seq![])) {
            (Ok((v, e)), Ok((vv, ev))) => v@ == vv && e == ev,
            (Err(x), Err(y)) => x@ == y,
            _ => false,
        },
{
    let mut acc: Vec<u32> = Vec::new();
    let mut p = pos;
    let size = data.len();
    while p < last
        invariant
            size == data@.len(),
            p <= data@.len(),
            parse_words(data@, pos as int, last as int, seq![]) == parse_words(
                data@,
                p as int,
                last as int,
                acc@,
            ),
        decreases data@.len() - p,
    {
        match read_u32(data, p) {
            Some(w) => {
                acc.push(w);
                p = p + 4;
            },
            None => {
                return Err(Error::Underrun);
            },
        }
    }
    Ok((acc, p))
}

/// Reads the word arrays from `pos` up to `last`.
fn decode_vars(data: &[u8], pos: usize, last: usize) -> (r: Result<(Vec<Var>, usize), Error>)
    requires
        pos <= data@.len(),
    ensures
        match (r, parse_vars(data@, pos as int, last as int, seq![])) {
            (Ok((v, e)), Ok((vv, ev))) => vars_view(v@) == vv && e == ev,
            (Err(x), Err(y)) => x@ == y,
            _ => false,
        },
{
    let mut acc: Vec<Var> = Vec::new();
    let mut p = pos;
    assert(vars_view(acc@) =~= seq![]);
    while p < last
        invariant
            p <= data@.len(),
            parse_vars(data@, pos as int, last as int, seq![]) == parse_vars(
                data@,
                p as int,
                last as int,
                vars_view(acc@),
            ),
        decreases data@.len() - p,
    {
        proof {
            lemma_value_bound(data@, p as int);
        }
        let (h, p1) = match Header::decode(data, p) {
            Ok(x) => x,
            Err(e) => {
                return Err(e);
            },
        };
        proof {
            lemma_words_bound(data@, p1 as int, h.last as int, seq![]);
        }
        let (ws, p2) = match decode_words(data, p1, h.last) {
            Ok(x) => x,
            Err(e) => {
                return Err(e);
            },
        };
        set_var(&mut acc, h.key, ws);
        p = p2;
    }
    Ok((acc, p))
}

impl VersionInfoChild {
    /// Reads the child that starts at the first multiple of 4 from `pos`;
    /// returns it and the position where it ends.
    pub fn decode(data: &[u8], pos: usize) -> (r: Result<(VersionInfoChild, usize), Error>)
        ensures
            match (r, parse_child(data@, pos as int)) {
                (Ok((c, e)), Ok((cv, ev))) => c@ == cv && e == ev,
                (Err(x), Err(y)) => x@ == y,
                _ => false,
            },
    {
        proof {
            lemma_value_bound(data@, pos as int);
        }
        let (h, p1) = match Header::decode(data, pos) {
            Ok(x) => x,
            Err(e) => {
                return Err(e);
            },
        };
        let sfi = "StringFileInfo".to_string();
        let vfi = "VarFileInfo".to_string();
        if h.key == sfi {
            match decode_tables(data, p1, h.last) {
                Ok((tables, p2)) => Ok((VersionInfoChild::StringFileInfo { tables }, p2)),
                Err(e) => Err(e),
            }
        } else if h.key == vfi {
            match decode_vars(data, p1, h.last) {
                Ok((vars, p2)) => Ok((VersionInfoChild::VarFileInfo { vars }, p2)),
                Err(e) => Err(e),
            }
        } else {
            Err(Error::UnknownChild(h.key))
        }
    }
}

/// Where the string tables end: not before `pos`, nor past the data.
pub proof fn lemma_tables_bound(d: Seq<u8>, pos: int, last: int, acc: Seq<(Seq<char>, Seq<(Seq<char>, DataView)>)>)
    requires
        pos <= d.len(),
    ensures
        parse_tables(d, pos, last, acc) matches Ok((_, q)) ==> pos <= q <= d.len(),
    decreases d.len() - pos,
{
    lemma_value_bound(d, pos);
    if pos < last {
        if let Ok((h, p1)) = parse_header(d, pos) {
            lemma_entries_bound(d, p1, h.last, seq![]);
            if let Ok((es, p2)) = parse_entries(d, p1, h.last, seq![]) {
                lemma_tables_bound(d, p2, last, upsert(acc, h.key, es));
            }
        }
    }
}

/// Where the word arrays end: not before `pos`, nor past the data.
pub proof fn lemma_vars_bound(d: Seq<u8>, pos: int, last: int, acc: Seq<(Seq<char>, Seq<u32>)>)
    requires
        pos <= d.len(),
    ensures
        parse_vars(d, pos, last, acc) matches Ok((_, q)) ==> pos <= q <= d.len(),
    decreases d.len() - pos,
{
    lemma_value_bound(d, pos);
    if pos < last {
        if let Ok((h, p1)) = parse_header(d, pos) {
            lemma_words_bound(d, p1, h.last, seq![]);
            if let Ok((ws, p2)) = parse_words(d, p1, h.last, seq![]) {
                lemma_vars_bound(d, p2, last, upsert(acc, h.key, ws));
            }
        }
    }
}

/// A child ends after the position it is read from, and within the data.
pub proof fn lemma_child_bound(d: Seq<u8>, pos: int)
    ensures
        parse_child(d, pos) matches Ok((_, q)) ==> pos < q <= d.len(),
{
    lemma_value_bound(d, pos);
    if let Ok((h, p1)) = parse_header(d, pos) {
        lemma_tables_bound(d, p1, h.last, seq![]);
        lemma_vars_bound(d, p1, h.last, seq![]);
    }
}

/// Whether every key list of a child holds each key once.
pub open spec fn child_keys_distinct(c: ChildView) -> bool {
    match c {
        ChildView::Strings(ts) => keys_unique(ts) && forall|k: int| 0 <= k < ts.len() ==> keys_unique(#[trigger] ts[k].1),
        ChildView::Vars(vs) => keys_unique(vs),
    }
}

/// The entries read hold each key once.
pub proof fn lemma_entries_unique(d: Seq<u8>, pos: int, last: int, acc: Seq<(Seq<char>, DataView)>)
    requires
        keys_unique(acc),
    ensures
        parse_entries(d, pos, last, acc) matches Ok((es, _)) ==> keys_unique(es),
    decreases d.len() - pos,
{
    lemma_value_bound(d, pos);
    if pos < last {
        if let Ok((h, p1)) = parse_header(d, pos) {
            if let Ok((v, p2)) = parse_value(d, p1, h) {
                lemma_upsert_unique(acc, h.key, v);
                lemma_entries_unique(d, p2, last, upsert(acc, h.key, v));
            }
        }
    }
}

/// The string tables read hold each language once, and each table each key once.
pub proof fn lemma_tables_unique(d: Seq<u8>, pos: int, last: int, acc: Seq<(Seq<char>, Seq<(Seq<char>, DataView)>)>)
    requires
        keys_unique(acc),
        forall|k: int| 0 <= k < acc.len() ==> keys_unique(#[trigger] acc[k].1),
    ensures
        parse_tables(d, pos, last, acc) matches Ok((ts, _)) ==> keys_unique(ts) && forall|k: int|
            0 <= k < ts.len() ==> keys_unique(#[trigger] ts[k].1),
    decreases d.len() - pos,
{
    lemma_value_bound(d, pos);
    if pos < last {
        if let Ok((h, p1)) = parse_header(d, pos) {
            lemma_entries_bound(d, p1, h.last, seq![]);
            lemma_entries_unique(d, p1, h.last, seq![]);
            if let Ok((es, p2)) = parse_entries(d, p1, h.last, seq![]) {
                let next = upsert(acc, h.key, es);
                lemma_upsert_unique(acc, h.key, es);
                assert forall|k: int| 0 <= k < next.len() implies keys_unique(#[trigger] next[k].1) by {
                    if k < acc.len() && next[k] == acc[k] {
                    } else {
                        assert(next[k].1 == es);
                    }
                }
                lemma_tables_unique(d, p2, last, next);
            }
        }
    }
}

/// The word arrays read hold each name once.
pub proof fn lemma_vars_unique(d: Seq<u8>, pos: int, last: int, acc: Seq<(Seq<char>, Seq<u32>)>)
    requires
        keys_unique(acc),
    ensures
        parse_vars(d, pos, last, acc) matches Ok((vs, _)) ==> keys_unique(vs),
    decreases d.len() - pos,
{
    lemma_value_bound(d, pos);
    if pos < last {
        if let Ok((h, p1)) = parse_header(d, pos) {
            lemma_words_bound(d, p1, h.last, seq![]);
            if let Ok((ws, p2)) = parse_words(d, p1, h.last, seq![]) {
                lemma_upsert_unique(acc, h.key, ws);
                lemma_vars_unique(d, p2, last, upsert(acc, h.key, ws));
            }
        }
    }
}

/// A child read holds each key once in each of its lists.
pub proof fn lemma_child_unique(d: Seq<u8>, pos: int)
    ensures
        parse_child(d, pos) matches Ok((c, _)) ==> child_keys_distinct(c),
{
    if let Ok((h, p1)) = parse_header(d, pos) {
        lemma_tables_unique(d, p1, h.last, seq![]);
        lemma_vars_unique(d, p1, h.last, seq![]);
    }
}

} // verus!
