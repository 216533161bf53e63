//! The version resource as a whole: header, fixed file record and children;
//! reading, writing, and the edits of its string tables.

use vstd::prelude::*;
use crate::bytes::{pad4, put_align, put_bytes};
use crate::error::{Error, ErrorView};
use crate::header::{DataType, Header, parse_header, build_block};
use crate::fixed::{FileInfo, FIXED_INFO_LEN, file_info_error, file_info_at, file_info_bytes};
use crate::child::{VersionInfoChild, ChildView};
use crate::decode::{parse_child, lemma_child_bound, child_keys_distinct, lemma_child_unique};
use crate::encode::{block_opt, join_opt, child_parts};

verus! {

broadcast use crate::bytes::lemma_pad4_bounds;

/// A version resource.
#[derive(Debug, Clone)]
pub struct VersionInfo {
    /// The data type of the top block.
    pub data_type: DataType,
    /// The key of the top block, `VS_VERSION_INFO` in a valid resource.
    pub key: String,
    /// The fixed file record.
    pub info: FileInfo,
    /// The string and var file infos, in order.
    pub children: Vec<VersionInfoChild>,
}

/// What a [`VersionInfo`] holds, for contracts.
pub struct VersionInfoView {
    pub data_type: DataType,
    pub key: Seq<char>,
    pub info: FileInfo,
    pub children: Seq<ChildView>,
}

/// The views of a list of children.
pub open spec fn children_view(v: Seq<VersionInfoChild>) -> Seq<ChildView> {
    v.map_values(|c: VersionInfoChild| c@)
}

impl View for VersionInfo {
    type V = VersionInfoView;

    open spec fn view(&self) -> VersionInfoView {
        VersionInfoView {
            data_type: self.data_type,
            key: self.key@,
            info: self.info,
            children: children_view(self.children@),
        }
    }
}

/// The key of the top block.
pub open spec fn version_info_key() -> Seq<char> {
    "VS_VERSION_INFO"@
}

/// The children from `pos` to the end of the data, appended to `acc`.
pub open spec fn parse_children(d: Seq<u8>, pos: int, acc: Seq<ChildView>) -> Result<Seq<ChildView>, ErrorView>
    decreases d.len() - pos,
    via parse_children_decreases
{
    if pos >= d.len() {
        Ok(acc)
    } else {
        match parse_child(d, pos) {
            Err(e) => Err(e),
            Ok((c, p)) => parse_children(d, p, acc.push(c)),
        }
    }
}

#[via_fn]
proof fn parse_children_decreases(d: Seq<u8>, pos: int, acc: Seq<ChildView>) {
    lemma_child_bound(d, pos);
}

/// The version resource held by `d`: the top header, the fixed file record,
/// then children until the data is used up.
#[verifier::opaque]
pub open spec fn parse_version_info(d: Seq<u8>) -> Result<VersionInfoView, ErrorView> {
    match parse_header(d, 0) {
        Err(e) => Err(e),
        Ok((h, p1)) => match file_info_error(d, p1) {
            Some(e) => Err(e),
            None => {
                let p2 = p1 + 52;
                if p2 + pad4(p2) > d.len() {
                    Err(ErrorView::Underrun)
                } else {
                    match parse_children(d, p2 + pad4(p2), seq![]) {
                        Err(e) => Err(e),
                        Ok(cs) => Ok(
                            VersionInfoView {
                                data_type: h.data_type,
                                key: h.key,
                                info: file_info_at(d, p1),
                                children: cs,
                            },
                        ),
                    }
                }
            },
        },
    }
}

/// The bytes of a version resource: one block keyed `VS_VERSION_INFO` whose
/// value length is the size of the fixed file record, holding that record
/// and then the children, each started on a multiple of 4; `None` where a
/// block does not fit its 16-bit length field.
#[verifier::opaque]
pub open spec fn version_info_enc(v: VersionInfoView) -> Option<Seq<u8>> {
    block_opt(
        version_info_key(),
        DataType::Binary,
        52,
        match join_opt(child_parts(v.children)) {
            Some(j) => Some(file_info_bytes(v.info) + j),
            None => None,
        },
    )
}

/// Reads children from `pos` until the data is used up.
fn decode_children(data: &[u8], pos: usize) -> (r: Result<Vec<VersionInfoChild>, Error>)
    requires
        pos <= data@.len(),
    ensures
        match (r, parse_children(data@, pos as int, seq![])) {
            (Ok(v), Ok(vv)) => children_view(v@) == vv,
            (Err(x), Err(y)) => x@ == y,
            _ => false,
        },
{
    let mut p = pos;
    let mut children: Vec<VersionInfoChild> = Vec::new();
    assert(children_view(children@) =~= seq![]);
    while p < data.len()
        invariant
            p <= data@.len(),
            parse_children(data@, pos as int, seq![]) == parse_children(
                data@,
                p as int,
                children_view(children@),
            ),
        decreases data@.len() - p,
    {
        proof {
            lemma_child_bound(data@, p as int);
        }
        match VersionInfoChild::decode(data, p) {
            Ok((c, e)) => {
                let ghost before = children_view(children@);
                children.push(c);
                assert(children_view(children@) =~= before.push(c@));
                p = e;
            },
            Err(e) => {
                return Err(e);
            },
        }
    }
    Ok(children)
}

/// Whether each table, each list of tables and each list of arrays holds
/// each key once.
pub open spec fn keys_distinct(v: VersionInfoView) -> bool {
    forall|i: int| 0 <= i < v.children.len() ==> child_keys_distinct(#[trigger] v.children[i])
}

/// The children read hold each key once in each of their lists.
proof fn lemma_children_unique(d: Seq<u8>, pos: int, acc: Seq<ChildView>)
    requires
        forall|i: int| 0 <= i < acc.len() ==> child_keys_distinct(#[trigger] acc[i]),
    ensures
        parse_children(d, pos, acc) matches Ok(cs) ==> forall|i: int|
            0 <= i < cs.len() ==> child_keys_distinct(#[trigger] cs[i]),
    decreases d.len() - pos,
{
    lemma_child_bound(d, pos);
    if pos < d.len() {
        if let Ok((c, p)) = parse_child(d, pos) {
            lemma_child_unique(d, pos);
            let next = acc.push(c);
            assert forall|i: int| 0 <= i < next.len() implies child_keys_distinct(#[trigger] next[i]) by {
                if i < acc.len() {
                    assert(next[i] == acc[i]);
                }
            }
            lemma_children_unique(d, p, next);
        }
    }
}

/// A decoded version resource holds each key once in each of its lists.
pub proof fn lemma_decoded_keys_distinct(d: Seq<u8>)
    ensures
        parse_version_info(d) matches Ok(v) ==> keys_distinct(v),
{
    reveal(parse_version_info);
    if let Ok((h, p1)) = parse_header(d, 0) {
        let p2 = p1 + 52;
        lemma_children_unique(d, p2 + pad4(p2), seq![]);
    }
}

impl VersionInfo {
    /// Reads a version resource from the bytes of exactly one resource.
    pub fn decode(data: &[u8]) -> (r: Result<VersionInfo, Error>)
        ensures
            match (r, parse_version_info(data@)) {
                (Ok(v), Ok(vv)) => v@ == vv,
                (Err(x), Err(y)) => x@ == y,
                _ => false,
            },
    {
        reveal(parse_version_info);
        let _size = data.len();
        let (h, p1) = match Header::decode(data, 0) {
            Ok(x) => x,
            Err(e) => {
                return Err(e);
            },
        };
        let info = match FileInfo::decode(data, p1) {
            Ok(fi) => fi,
            Err(e) => {
                return Err(e);
            },
        };
        let p2 = p1 + FIXED_INFO_LEN;
        let p = match crate::header::skip_pad(p2, data.len()) {
            Some(x) => x,
            None => {
                return Err(Error::Underrun);
            },
        };
        let children = match decode_children(data, p) {
            Ok(cs) => cs,
            Err(e) => {
                return Err(e);
            },
        };
        Ok(VersionInfo { data_type: h.data_type, key: h.key, info, children })
    }

    /// Writes the version resource; fails where a block would be longer than
    /// its 16-bit length field can state.
    pub fn try_to_vec(&self) -> (r: Result<Vec<u8>, Error>)
        ensures
            match (r, version_info_enc(self@)) {
                (Ok(b), Some(sb)) => b@ == sb,
                (Err(x), None) => x@ == ErrorView::TooLarge,
                _ => false,
            },
    {
        let ghost parts = child_parts(self@.children);
        let mut joined: Vec<u8> = Vec::new();
        let mut i: usize = 0;
        assert(parts.subrange(0, 0) =~= seq![]);
        proof {
            reveal(join_opt);
        }
        while i < self.children.len()
            invariant
                0 <= i <= self.children@.len(),
                parts == child_parts(self@.children),
                join_opt(parts.subrange(0, i as int)) == Some(joined@),
            decreases self.children@.len() - i,
        {
            proof {
                reveal(join_opt);
                let s = parts.subrange(0, i + 1);
                assert(s.drop_last() =~= parts.subrange(0, i as int));
            }
            match self.children[i].encode() {
                Ok(b) => {
                    put_align(&mut joined);
                    put_bytes(&mut joined, b.as_slice());
                },
                Err(e) => {
                    proof {
                        crate::encode::lemma_join_missing(parts, i as int);
                        reveal(version_info_enc);
                    }
                    return Err(e);
                },
            }
            i = i + 1;
        }
        assert(parts.subrange(0, parts.len() as int) =~= parts);
        proof {
            reveal(version_info_enc);
        }
        let mut data: Vec<u8> = Vec::new();
        self.info.encode(&mut data);
        put_bytes(&mut data, joined.as_slice());
        build_block("VS_VERSION_INFO", DataType::Binary, FIXED_INFO_LEN, data.as_slice())
    }
}

} // verus!
