//! The block header shared by every structure of the format: total length,
//! value length, data type and key, and the two-pass writing of a block.

use vstd::prelude::*;
use crate::bytes::{
    le16, u16_bytes, pad4, zeros, read_u16, put_u16, put_bytes, put_align, patch_u16,
};
use crate::error::{Error, ErrorView};
use crate::text::{
    units_z, is_utf16, text_of, utf16_of, text_z_bytes, read_units_z, text_from_units,
    put_text_z, lemma_utf16_injective,
};

verus! {

broadcast use crate::bytes::lemma_pad4_bounds;

/// Whether a block holds binary data or text.
#[derive(Clone, Copy, Debug, PartialEq, Eq, Structural)]
pub enum DataType {
    Binary,
    Text,
}

/// The type field stored for a data type.
pub open spec fn type_code(t: DataType) -> u16 {
    match t {
        DataType::Binary => 0,
        DataType::Text => 1,
    }
}

/// A decoded block header. `last` is the position where the block ends,
/// derived from where it starts and its length.
#[derive(Debug)]
pub struct Header {
    pub length: usize,
    pub value_length: usize,
    pub data_type: DataType,
    pub key: String,
    pub last: usize,
}

/// What a [`Header`] holds, for contracts.
pub struct HeaderView {
    pub length: int,
    pub value_length: int,
    pub data_type: DataType,
    pub key: Seq<char>,
    pub last: int,
}

impl View for Header {
    type V = HeaderView;

    open spec fn view(&self) -> HeaderView {
        HeaderView {
            length: self.length as int,
            value_length: self.value_length as int,
            data_type: self.data_type,
            key: self.key@,
            last: self.last as int,
        }
    }
}

/// The end of a block that starts at `start` with length `length`, capped at
/// the largest position.
pub open spec fn block_end(start: int, length: int) -> int {
    if start + length > usize::MAX {
        usize::MAX as int
    } else {
        start + length
    }
}

/// The header that starts at the first multiple of 4 from `pos`, and the
/// position after it and its alignment gap.
#[verifier::opaque]
pub open spec fn parse_header(d: Seq<u8>, pos: int) -> Result<(HeaderView, int), ErrorView> {
    let s = pos + pad4(pos);
    if s + 6 > d.len() {
        Err(ErrorView::Underrun)
    } else if le16(d, s + 4) > 1 {
        Err(ErrorView::InvalidDataType(le16(d, s + 4)))
    } else {
        match units_z(d, s + 6) {
            None => Err(ErrorView::Underrun),
            Some(u) => if !is_utf16(u) {
                Err(ErrorView::InvalidUtf16)
            } else {
                let e = s + 6 + 2 * u.len() + 2;
                if e + pad4(e) > d.len() {
                    Err(ErrorView::Underrun)
                } else {
                    Ok(
                        (
                            HeaderView {
                                length: le16(d, s) as int,
                                value_length: le16(d, s + 2) as int,
                                data_type: if le16(d, s + 4) == 0 {
                                    DataType::Binary
                                } else {
                                    DataType::Text
                                },
                                key: text_of(u),
                                last: block_end(s, le16(d, s) as int),
                            },
                            e + pad4(e),
                        ),
                    )
                }
            },
        }
    }
}

/// The position `pos` moved to the next multiple of 4, if that is not past `n`.
pub fn skip_pad(pos: usize, n: usize) -> (r: Option<usize>)
    ensures
        pos + pad4(pos as int) <= n ==> r == Some((pos + pad4(pos as int)) as usize),
        pos + pad4(pos as int) > n ==> r is None,
{
    reveal(pad4);
    let m = pos % 4;
    let k: usize = if m == 0 {
        0
    } else {
        4 - m
    };
    if pos <= n && n - pos >= k {
        Some(pos + k)
    } else {
        None
    }
}

impl Header {
    /// A header with the given fields; `last` is not known yet and is 0.
    pub fn new(length: usize, value_length: usize, data_type: DataType, key: &str) -> (r: Header)
        ensures
            r@ == (HeaderView {
                length: length as int,
                value_length: value_length as int,
                data_type,
                key: key@,
                last: 0,
            }),
    {
        Header { length, value_length, data_type, key: key.to_string(), last: 0 }
    }

    /// Reads the header that starts at the first multiple of 4 from `pos`;
    /// returns it and the position after it.
    pub fn decode(data: &[u8], pos: usize) -> (r: Result<(Header, usize), Error>)
        ensures
            match (r, parse_header(data@, pos as int)) {
                (Ok((h, e)), Ok((hv, ev))) => h@ == hv && e == ev,
                (Err(x), Err(y)) => x@ == y,
                _ => false,
            },
    {
        reveal(parse_header);
        reveal(pad4);
        let n = data.len();
        let s = match skip_pad(pos, n) {
            Some(s) => s,
            None => {
                return Err(Error::Underrun);
            },
        };
        if n - s < 6 {
            return Err(Error::Underrun);
        }
        let length = match read_u16(data, s) {
            Some(v) => v,
            None => {
                return Err(Error::Underrun);
            },
        };
        let value_length = match read_u16(data, s + 2) {
            Some(v) => v,
            None => {
                return Err(Error::Underrun);
            },
        };
        let ty = match read_u16(data, s + 4) {
            Some(v) => v,
            None => {
                return Err(Error::Underrun);
            },
        };
        let data_type = if ty == 0 {
            DataType::Binary
        } else if ty == 1 {
            DataType::Text
        } else {
            return Err(Error::InvalidDataType(ty));
        };
        let (units, e) = match read_units_z(data, s + 6) {
            Some(x) => x,
            None => {
                return Err(Error::Underrun);
            },
        };
        let key = match text_from_units(&units) {
            Some(k) => k,
            None => {
                return Err(Error::InvalidUtf16);
            },
        };
        proof {
            let t = text_of(units@);
            assert(utf16_of(t) == units@);
            lemma_utf16_injective(t, key@);
        }
        let end = match skip_pad(e, n) {
            Some(x) => x,
            None => {
                return Err(Error::Underrun);
            },
        };
        let len = length as usize;
        let last = if len > usize::MAX - s {
            usize::MAX
        } else {
            s + len
        };
        Ok((Header { length: len, value_length: value_length as usize, data_type, key, last }, end))
    }
}

/// The total length of a block with key `key` and payload `payload`.
pub open spec fn block_len(key: Seq<char>, payload: Seq<u8>) -> int {
    let h = 6 + text_z_bytes(key).len() as int;
    h + pad4(h) + payload.len()
}

/// A block: its header (total length, value length, type, key), the gap
/// that aligns the payload to 4, and the payload.
pub open spec fn block_bytes(key: Seq<char>, data_type: DataType, value_len: int, payload: Seq<u8>) -> Seq<u8> {
    let h = 6 + text_z_bytes(key).len() as int;
    u16_bytes(block_len(key, payload) as u16) + u16_bytes(value_len as u16) + u16_bytes(
        type_code(data_type),
    ) + text_z_bytes(key) + zeros(pad4(h)) + payload
}

/// Builds a block in two passes: the header with zero lengths and the
/// payload first, then the two length fields patched in place.
pub fn build_block(key: &str, data_type: DataType, value_len: usize, payload: &[u8]) -> (r: Result<Vec<u8>, Error>)
    ensures
        block_len(key@, payload@) <= 0xFFFF && value_len <= 0xFFFF ==> r is Ok && r->Ok_0@
            == block_bytes(key@, data_type, value_len as int, payload@),
        block_len(key@, payload@) > 0xFFFF || value_len > 0xFFFF ==> r == Err::<Vec<u8>, Error>(
            Error::TooLarge,
        ),
{
    reveal(pad4);
    let mut out: Vec<u8> = Vec::new();
    put_u16(&mut out, 0);
    put_u16(&mut out, 0);
    let code: u16 = match data_type {
        DataType::Binary => 0,
        DataType::Text => 1,
    };
    put_u16(&mut out, code);
    put_text_z(&mut out, key);
    put_align(&mut out);
    put_bytes(&mut out, payload);
    let total = out.len();
    if total > 0xFFFF || value_len > 0xFFFF {
        return Err(Error::TooLarge);
    }
    let ghost before = out@;
    patch_u16(&mut out, 0, total as u16);
    patch_u16(&mut out, 2, value_len as u16);
    proof {
        let h = 6 + text_z_bytes(key@).len() as int;
        let tail = text_z_bytes(key@) + zeros(pad4(h)) + payload@;
        assert(before =~= u16_bytes(0) + u16_bytes(0) + u16_bytes(code) + tail);
        assert(out@ =~= block_bytes(key@, data_type, value_len as int, payload@));
    }
    Ok(out)
}

} // verus!
