//! Writing the children of a version resource: each level is a block whose
//! payload is its parts, each part started on a multiple of 4.

use vstd::prelude::*;
use crate::bytes::{u32_bytes, pad4, zeros, put_u32, put_bytes, put_align};
use crate::error::{Error, ErrorView};
use crate::header::{DataType, block_len, block_bytes, build_block};
use crate::text::{utf16_of, text_z_bytes, units_z_of, put_units};
use crate::child::{
    Data, DataView, StringEntry, StringTable, Var, VersionInfoChild, ChildView, entries_view,
    tables_view, vars_view,
};
use crate::decode::{string_file_info_key, var_file_info_key};

verus! {

broadcast use crate::bytes::lemma_pad4_bounds;

/// A block around `payload`, or `None` where the payload is missing or a
/// length does not fit its 16-bit field.
pub open spec fn block_opt(key: Seq<char>, data_type: DataType, value_len: int, payload: Option<Seq<u8>>) -> Option<Seq<u8>> {
    match payload {
        None => None,
        Some(p) => if block_len(key, p) <= 0xFFFF && 0 <= value_len <= 0xFFFF {
            Some(block_bytes(key, data_type, value_len, p))
        } else {
            None
        },
    }
}

/// The parts one after the other, each started on a multiple of 4; `None`
/// where a part is missing.
#[verifier::opaque]
pub open spec fn join_opt(parts: Seq<Option<Seq<u8>>>) -> Option<Seq<u8>>
    decreases parts.len(),
{
    if parts.len() == 0 {
        Some(seq![])
    } else {
        match (join_opt(parts.drop_last()), parts.last()) {
            (Some(j), Some(p)) => Some(j + zeros(pad4(j.len() as int)) + p),
            _ => None,
        }
    }
}

/// The little-endian bytes of the words.
pub open spec fn words_bytes(ws: Seq<u32>) -> Seq<u8>
    decreases ws.len(),
{
    if ws.len() == 0 {
        seq![]
    } else {
        words_bytes(ws.drop_last()) + u32_bytes(ws.last())
    }
}

/// The block of one string entry. Binary data counts its value length in
/// pairs of bytes; text in code units with the closing zero unit.
pub open spec fn entry_enc(e: (Seq<char>, DataView)) -> Option<Seq<u8>> {
    match e.1 {
        DataView::Binary(b) => block_opt(e.0, DataType::Binary, b.len() as int / 2, Some(b)),
        DataView::Text(t) => block_opt(e.0, DataType::Text, utf16_of(t).len() as int + 1, Some(text_z_bytes(t))),
    }
}

/// The blocks of the entries of a table.
pub open spec fn entry_parts(es: Seq<(Seq<char>, DataView)>) -> Seq<Option<Seq<u8>>> {
    es.map_values(|e: (Seq<char>, DataView)| entry_enc(e))
}

/// The block of one string table.
pub open spec fn table_enc(t: (Seq<char>, Seq<(Seq<char>, DataView)>)) -> Option<Seq<u8>> {
    block_opt(t.0, DataType::Binary, 0, join_opt(entry_parts(t.1)))
}

/// The blocks of string tables.
pub open spec fn table_parts(ts: Seq<(Seq<char>, Seq<(Seq<char>, DataView)>)>) -> Seq<Option<Seq<u8>>> {
    ts.map_values(|t: (Seq<char>, Seq<(Seq<char>, DataView)>)| table_enc(t))
}

/// The block of one word array; its value length counts the words.
pub open spec fn var_enc(v: (Seq<char>, Seq<u32>)) -> Option<Seq<u8>> {
    block_opt(v.0, DataType::Binary, v.1.len() as int, Some(words_bytes(v.1)))
}

/// The blocks of word arrays.
pub open spec fn var_parts(vs: Seq<(Seq<char>, Seq<u32>)>) -> Seq<Option<Seq<u8>>> {
    vs.map_values(|v: (Seq<char>, Seq<u32>)| var_enc(v))
}

/// The block of one child.
pub open spec fn child_enc(c: ChildView) -> Option<Seq<u8>> {
    match c {
        ChildView::Strings(ts) => block_opt(
            string_file_info_key(),
            DataType::Binary,
            0,
            join_opt(table_parts(ts)),
        ),
        ChildView::Vars(vs) => block_opt(
            var_file_info_key(),
            DataType::Binary,
            0,
            join_opt(var_parts(vs)),
        ),
    }
}

/// The blocks of children.
pub open spec fn child_parts(cs: Seq<ChildView>) -> Seq<Option<Seq<u8>>> {
    cs.map_values(|c: ChildView| child_enc(c))
}

/// Where one part is missing, the joined parts are missing.
pub proof fn lemma_join_missing(parts: Seq<Option<Seq<u8>>>, i: int)
    requires
        0 <= i < parts.len(),
        parts[i] is None,
    ensures
        join_opt(parts) is None,
    decreases parts.len(),
{
    reveal(join_opt);
    if i < parts.len() - 1 {
        lemma_join_missing(parts.drop_last(), i);
    }
}

/// Joining one more part.
proof fn lemma_join_step(parts: Seq<Option<Seq<u8>>>, i: int)
    requires
        0 <= i < parts.len(),
    ensures
        join_opt(parts.subrange(0, i + 1)) == match (join_opt(parts.subrange(0, i)), parts[i]) {
            (Some(j), Some(p)) => Some(j + zeros(pad4(j.len() as int)) + p),
            _ => None::<Seq<u8>>,
        },
{
    reveal(join_opt);
    let s = parts.subrange(0, i + 1);
    assert(s.drop_last() =~= parts.subrange(0, i));
}

/// Builds a block around `payload`.
fn block_of(key: &str, data_type: DataType, value_len: usize, payload: &Vec<u8>) -> (r: Result<Vec<u8>, Error>)
    ensures
        match (r, block_opt(key@, data_type, value_len as int, Some(payload@))) {
            (Ok(b), Some(sb)) => b@ == sb,
            (Err(e), None) => e@ == ErrorView::TooLarge,
            _ => false,
        },
{
    build_block(key, data_type, value_len, payload.as_slice())
}

/// Appends the little-endian bytes of the words.
fn put_words(out: &mut Vec<u8>, ws: &Vec<u32>)
    ensures
        final(out)@ == old(out)@ + words_bytes(ws@),
{
    let mut i: usize = 0;
    while i < ws.len()
        invariant
            0 <= i <= ws@.len(),
            out@ == old(out)@ + words_bytes(ws@.subrange(0, i as int)),
        decreases ws@.len() - i,
    {
        put_u32(out, ws[i]);
        proof {
            let s = ws@.subrange(0, i + 1);
            assert(s.drop_last() =~= ws@.subrange(0, i as int));
            assert(out@ =~= old(out)@ + words_bytes(s));
        }
        i = i + 1;
    }
    assert(ws@.subrange(0, ws@.len() as int) =~= ws@);
}

/// The block of one string entry.
fn encode_entry(e: &StringEntry) -> (r: Result<Vec<u8>, Error>)
    ensures
        match (r, entry_enc(e@)) {
            (Ok(b), Some(sb)) => b@ == sb,
            (Err(x), None) => x@ == ErrorView::TooLarge,
            _ => false,
        },
{
    match &e.value {
        Data::Binary(b) => block_of(e.key.as_str(), DataType::Binary, b.len() / 2, b),
        Data::Text(t) => {
            let u = units_z_of(t.as_str());
            let mut payload: Vec<u8> = Vec::new();
            put_units(&mut payload, &u);
            assert(payload@ =~= text_z_bytes(t@));
            block_of(e.key.as_str(), DataType::Text, u.len(), &payload)
        },
    }
}

/// The block of one string table.
fn encode_table(t: &StringTable) -> (r: Result<Vec<u8>, Error>)
    ensures
        match (r, table_enc(t@)) {
            (Ok(b), Some(sb)) => b@ == sb,
            (Err(x), None) => x@ == ErrorView::TooLarge,
            _ => false,
        },
{
    let ghost parts = entry_parts(entries_view(t.entries@));
    let mut payload: Vec<u8> = Vec::new();
    let mut i: usize = 0;
    assert(parts.subrange(0, 0) =~= seq![]);
    proof {
        reveal(join_opt);
    }
    while i < t.entries.len()
        invariant
            0 <= i <= t.entries@.len(),
            parts == entry_parts(entries_view(t.entries@)),
            join_opt(parts.subrange(0, i as int)) == Some(payload@),
        decreases t.entries@.len() - i,
    {
        proof {
            lemma_join_step(parts, i as int);
        }
        match encode_entry(&t.entries[i]) {
            Ok(b) => {
                put_align(&mut payload);
                put_bytes(&mut payload, b.as_slice());
            },
            Err(e) => {
                proof {
                    lemma_join_missing(parts, i as int);
                }
                return Err(e);
            },
        }
        i = i + 1;
    }
    assert(parts.subrange(0, parts.len() as int) =~= parts);
    block_of(t.lang.as_str(), DataType::Binary, 0, &payload)
}

/// The block of one word array.
fn encode_var(v: &Var) -> (r: Result<Vec<u8>, Error>)
    ensures
        match (r, var_enc(v@)) {
            (Ok(b), Some(sb)) => b@ == sb,
            (Err(x), None) => x@ == ErrorView::TooLarge,
            _ => false,
        },
{
    let mut payload: Vec<u8> = Vec::new();
    put_words(&mut payload, &v.values);
    assert(payload@ =~= words_bytes(v.values@));
    block_of(v.key.as_str(), DataType::Binary, v.values.len(), &payload)
}

/// The joined blocks of the string tables.
fn encode_tables(tables: &Vec<StringTable>) -> (r: Result<Vec<u8>, Error>)
    ensures
        match (r, join_opt(table_parts(tables_view(tables@)))) {
            (Ok(b), Some(sb)) => b@ == sb,
            (Err(x), None) => x@ == ErrorView::TooLarge,
            _ => false,
        },
{
    let ghost parts = table_parts(tables_view(tables@));
    let mut payload: Vec<u8> = Vec::new();
    let mut i: usize = 0;
    assert(parts.subrange(0, 0) =~= seq![]);
    proof {
        reveal(join_opt);
    }
    while i < tables.len()
        invariant
            0 <= i <= tables@.len(),
            parts == table_parts(tables_view(tables@)),
            join_opt(parts.subrange(0, i as int)) == Some(payload@),
        decreases tables@.len() - i,
    {
        proof {
            lemma_join_step(parts, i as int);
        }
        match encode_table(&tables[i]) {
            Ok(b) => {
                put_align(&mut payload);
                put_bytes(&mut payload, b.as_slice());
            },
            Err(e) => {
                proof {
                    lemma_join_missing(parts, i as int);
                }
                return Err(e);
            },
        }
        i = i + 1;
    }
    assert(parts.subrange(0, parts.len() as int) =~= parts);
    Ok(payload)
}

/// The joined blocks of the word arrays.
fn encode_vars(vars: &Vec<Var>) -> (r: Result<Vec<u8>, Error>)
    ensures
        match (r, join_opt(var_parts(vars_view(vars@)))) {
            (Ok(b), Some(sb)) => b@ == sb,
            (Err(x), None) => x@ == ErrorView::TooLarge,
            _ => false,
        },
{
    let ghost parts = var_parts(vars_view(vars@));
    let mut payload: Vec<u8> = Vec::new();
    let mut i: usize = 0;
    assert(parts.subrange(0, 0) =~= seq![]);
    proof {
        reveal(join_opt);
    }
    while i < vars.len()
        invariant
            0 <= i <= vars@.len(),
            parts == var_parts(vars_view(vars@)),
            join_opt(parts.subrange(0, i as int)) == Some(payload@),
        decreases vars@.len() - i,
    {
        proof {
            lemma_join_step(parts, i as int);
        }
        match encode_var(&vars[i]) {
            Ok(b) => {
                put_align(&mut payload);
                put_bytes(&mut payload, b.as_slice());
            },
            Err(e) => {
                proof {
                    lemma_join_missing(parts, i as int);
                }
                return Err(e);
            },
        }
        i = i + 1;
    }
    assert(parts.subrange(0, parts.len() as int) =~= parts);
    Ok(payload)
}

impl VersionInfoChild {
    /// The block of the child; fails where a block would be longer than its
    /// 16-bit length field can state.
    pub fn encode(&self) -> (r: Result<Vec<u8>, Error>)
        ensures
            match (r, child_enc(self@)) {
                (Ok(b), Some(sb)) => b@ == sb,
                (Err(x), None) => x@ == ErrorView::TooLarge,
                _ => false,
            },
    {
        match self {
            VersionInfoChild::StringFileInfo { tables } => match encode_tables(tables) {
                Ok(payload) => block_of("StringFileInfo", DataType::Binary, 0, &payload),
                Err(e) => Err(e),
            },
            VersionInfoChild::VarFileInfo { vars } => match encode_vars(vars) {
                Ok(payload) => block_of("VarFileInfo", DataType::Binary, 0, &payload),
                Err(e) => Err(e),
            },
        }
    }
}

} // verus!
