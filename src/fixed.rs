//! The fixed file record: signature, structure version, file and product
//! versions, flags, target system, file type and date, 52 bytes in all.

use vstd::prelude::*;
use crate::bytes::{le32, u32_bytes, read_u32, put_u32};
use crate::error::{Error, ErrorView};

verus! {

/// The value that opens every fixed file record.
pub const SIGNATURE: u32 = 0xFEEF04BD;

/// The size of the fixed file record in bytes.
pub const FIXED_INFO_LEN: usize = 52;

/// A version of four parts: major, minor, build and revision, stored as two
/// words whose high halves hold the first and the third part.
#[derive(Debug, Clone, Copy)]
pub struct Version(pub [u16; 4]);

/// A file date of 64 bits, stored as two words, most significant first.
#[derive(Debug, Clone, Copy)]
pub struct Date(pub u64);

/// The fixed file record.
#[derive(Debug, Clone, Copy)]
pub struct FileInfo {
    pub signature: u32,
    pub struc_version: u32,
    pub file_version: Version,
    pub product_version: Version,
    pub file_flags_mask: u32,
    pub file_flags: u32,
    pub file_os: u32,
    pub file_type: u32,
    pub file_subtype: u32,
    pub file_date: Date,
}

/// The high word of a version.
pub open spec fn version_ms(v: Version) -> u32 {
    (v.0[0] as int * 65536 + v.0[1] as int) as u32
}

/// The low word of a version.
pub open spec fn version_ls(v: Version) -> u32 {
    (v.0[2] as int * 65536 + v.0[3] as int) as u32
}

/// The date held by the two words `ms` and `ls`.
pub open spec fn date_of(ms: u32, ls: u32) -> u64 {
    (ms as int * 0x1_0000_0000 + ls as int) as u64
}

/// The word of the record at index `k`.
pub open spec fn word(d: Seq<u8>, pos: int, k: int) -> u32 {
    le32(d, pos + 4 * k)
}

/// The record read from `pos`.
#[verifier::opaque]
pub open spec fn file_info_at(d: Seq<u8>, pos: int) -> FileInfo {
    FileInfo {
        signature: word(d, pos, 0),
        struc_version: word(d, pos, 1),
        file_version: Version(
            [
                (word(d, pos, 2) / 65536) as u16,
                (word(d, pos, 2) % 65536) as u16,
                (word(d, pos, 3) / 65536) as u16,
                (word(d, pos, 3) % 65536) as u16,
            ],
        ),
        product_version: Version(
            [
                (word(d, pos, 4) / 65536) as u16,
                (word(d, pos, 4) % 65536) as u16,
                (word(d, pos, 5) / 65536) as u16,
                (word(d, pos, 5) % 65536) as u16,
            ],
        ),
        file_flags_mask: word(d, pos, 6),
        file_flags: word(d, pos, 7),
        file_os: word(d, pos, 8),
        file_type: word(d, pos, 9),
        file_subtype: word(d, pos, 10),
        file_date: Date(date_of(word(d, pos, 11), word(d, pos, 12))),
    }
}

/// The error of reading a record from `pos`, if any: too few bytes, or a
/// first word other than the signature.
pub open spec fn file_info_error(d: Seq<u8>, pos: int) -> Option<ErrorView> {
    if pos + 52 > d.len() {
        Some(ErrorView::Underrun)
    } else if word(d, pos, 0) != SIGNATURE {
        Some(ErrorView::InvalidSignature(word(d, pos, 0)))
    } else {
        None
    }
}

/// The 52 bytes of a record; the signature written is always the valid one.
pub open spec fn file_info_bytes(fi: FileInfo) -> Seq<u8> {
    u32_bytes(SIGNATURE) + u32_bytes(fi.struc_version) + u32_bytes(version_ms(fi.file_version))
        + u32_bytes(version_ls(fi.file_version)) + u32_bytes(version_ms(fi.product_version))
        + u32_bytes(version_ls(fi.product_version)) + u32_bytes(fi.file_flags_mask) + u32_bytes(
        fi.file_flags,
    ) + u32_bytes(fi.file_os) + u32_bytes(fi.file_type) + u32_bytes(fi.file_subtype) + u32_bytes(
        (fi.file_date.0 / 0x1_0000_0000) as u32,
    ) + u32_bytes((fi.file_date.0 % 0x1_0000_0000) as u32)
}

/// The character of a decimal digit.
pub open spec fn digit_char(d: nat) -> char {
    ((d + 48) as u8) as char
}

/// The decimal digits of `n`, without leading zeros.
pub open spec fn decimal(n: nat) -> Seq<char>
    decreases n,
{
    if n < 10 {
        seq![digit_char(n)]
    } else {
        decimal(n / 10).push(digit_char(n % 10))
    }
}

/// A version as text: `major.minor.build`, and `.revision` after it only
/// where the revision is not zero.
pub open spec fn version_text(v: Version) -> Seq<char> {
    let three = decimal(v.0[0] as nat) + seq!['.'] + decimal(v.0[1] as nat) + seq!['.'] + decimal(
        v.0[2] as nat,
    );
    if v.0[3] == 0 {
        three
    } else {
        three + seq!['.'] + decimal(v.0[3] as nat)
    }
}

/// Relies on `format!` with std's `Display` for `u16`, which writes the
/// decimal digits: three numbers joined by dots.
#[verifier::external_body]
fn three_part_text(a: u16, b: u16, c: u16) -> (r: String)
    ensures
        r@ == decimal(a as nat) + seq!['.'] + decimal(b as nat) + seq!['.'] + decimal(c as nat),
{
    format!("{}.{}.{}", a, b, c)
}

/// Relies on `format!` with std's `Display` for `u16`, which writes the
/// decimal digits: four numbers joined by dots.
#[verifier::external_body]
fn four_part_text(a: u16, b: u16, c: u16, d: u16) -> (r: String)
    ensures
        r@ == decimal(a as nat) + seq!['.'] + decimal(b as nat) + seq!['.'] + decimal(c as nat)
            + seq!['.'] + decimal(d as nat),
{
    format!("{}.{}.{}.{}", a, b, c, d)
}

fn load_word(data: &[u8], pos: usize) -> (r: u32)
    requires
        pos + 4 <= data@.len(),
    ensures
        r == le32(data@, pos as int),
{
    match read_u32(data, pos) {
        Some(v) => v,
        None => 0,
    }
}

impl Version {
    /// Splits two words into a version.
    pub fn from_words(ms: u32, ls: u32) -> (r: Version)
        ensures
            r == Version(
                [(ms / 65536) as u16, (ms % 65536) as u16, (ls / 65536) as u16, (ls % 65536) as u16],
            ),
    {
        Version([(ms / 65536) as u16, (ms % 65536) as u16, (ls / 65536) as u16, (ls % 65536) as u16])
    }

    /// The version as text: `major.minor.build`, with `.revision` only
    /// where the revision is not zero.
    pub fn to_string(&self) -> (r: String)
        ensures
            r@ == version_text(*self),
    {
        if self.0[3] == 0 {
            three_part_text(self.0[0], self.0[1], self.0[2])
        } else {
            four_part_text(self.0[0], self.0[1], self.0[2], self.0[3])
        }
    }

    /// The high word.
    pub fn ms(&self) -> (r: u32)
        ensures
            r == version_ms(*self),
    {
        (self.0[0] as u32) * 65536 + (self.0[1] as u32)
    }

    /// The low word.
    pub fn ls(&self) -> (r: u32)
        ensures
            r == version_ls(*self),
    {
        (self.0[2] as u32) * 65536 + (self.0[3] as u32)
    }
}

impl Default for Version {
    fn default() -> (r: Version)
        ensures
            r.0@ == seq![0u16, 0u16, 0u16, 0u16],
    {
        let r = Version([0, 0, 0, 0]);
        assert(r.0@ =~= seq![0u16, 0u16, 0u16, 0u16]);
        r
    }
}

impl Default for Date {
    fn default() -> (r: Date)
        ensures
            r.0 == 0,
    {
        Date(0)
    }
}

impl Default for FileInfo {
    /// An empty record that carries the valid signature.
    fn default() -> (r: FileInfo)
        ensures
            r.signature == SIGNATURE,
            r.struc_version == 0,
            r.file_version.0@ == seq![0u16, 0u16, 0u16, 0u16],
            r.product_version.0@ == seq![0u16, 0u16, 0u16, 0u16],
            r.file_flags_mask == 0,
            r.file_flags == 0,
            r.file_os == 0,
            r.file_type == 0,
            r.file_subtype == 0,
            r.file_date.0 == 0,
    {
        FileInfo {
            signature: SIGNATURE,
            struc_version: 0,
            file_version: Version::default(),
            product_version: Version::default(),
            file_flags_mask: 0,
            file_flags: 0,
            file_os: 0,
            file_type: 0,
            file_subtype: 0,
            file_date: Date::default(),
        }
    }
}

impl FileInfo {
    /// Reads the record at `pos`; fails when fewer than 52 bytes are left,
    /// or when the first word is not the signature.
    pub fn decode(data: &[u8], pos: usize) -> (r: Result<FileInfo, Error>)
        ensures
            match r {
                Ok(fi) => file_info_error(data@, pos as int) is None && fi == file_info_at(
                    data@,
                    pos as int,
                ),
                Err(e) => file_info_error(data@, pos as int) == Some(e@),
            },
    {
        if pos > data.len() || data.len() - pos < FIXED_INFO_LEN {
            return Err(Error::Underrun);
        }
        let signature = load_word(data, pos);
        let struc_version = load_word(data, pos + 4);
        let file_version = Version::from_words(load_word(data, pos + 8), load_word(data, pos + 12));
        let product_version = Version::from_words(
            load_word(data, pos + 16),
            load_word(data, pos + 20),
        );
        let file_flags_mask = load_word(data, pos + 24);
        let file_flags = load_word(data, pos + 28);
        let file_os = load_word(data, pos + 32);
        let file_type = load_word(data, pos + 36);
        let file_subtype = load_word(data, pos + 40);
        let date_ms = load_word(data, pos + 44);
        let date_ls = load_word(data, pos + 48);
        let file_date = Date((date_ms as u64) * 0x1_0000_0000 + (date_ls as u64));
        if signature != SIGNATURE {
            return Err(Error::InvalidSignature(signature));
        }
        proof {
            reveal(file_info_at);
        }
        Ok(
            FileInfo {
                signature,
                struc_version,
                file_version,
                product_version,
                file_flags_mask,
                file_flags,
                file_os,
                file_type,
                file_subtype,
                file_date,
            },
        )
    }

    /// Appends the 52 bytes of the record, with the valid signature whatever
    /// `signature` holds.
    pub fn encode(&self, out: &mut Vec<u8>)
        ensures
            final(out)@ == old(out)@ + file_info_bytes(*self),
    {
        put_u32(out, SIGNATURE);
        put_u32(out, self.struc_version);
        put_u32(out, self.file_version.ms());
        put_u32(out, self.file_version.ls());
        put_u32(out, self.product_version.ms());
        put_u32(out, self.product_version.ls());
        put_u32(out, self.file_flags_mask);
        put_u32(out, self.file_flags);
        put_u32(out, self.file_os);
        put_u32(out, self.file_type);
        put_u32(out, self.file_subtype);
        put_u32(out, (self.file_date.0 / 0x1_0000_0000) as u32);
        put_u32(out, (self.file_date.0 % 0x1_0000_0000) as u32);
        assert(final(out)@ =~= old(out)@ + file_info_bytes(*self));
    }
}

} // verus!
