//! The header codec: decodes one fixed-shape binary record (mime tag,
//! filename, four 32-bit size fields) and null-terminated strings from a
//! positioned byte stream. Leaf component of the reader; it has no
//! dependencies and no side effect beyond reporting how far it read.

use crate::error::{HeaderError, PboError};
use vstd::prelude::*;

verus! {

/// Mime code of the version marker record.
pub const MIME_VERS: u32 = 0x5665_7273;

/// Mime code of a compressed entry.
pub const MIME_CPRS: u32 = 0x4370_7273;

/// Mime code of an encrypted entry.
pub const MIME_ENCO: u32 = 0x456e_6372;

/// Mime code of a plain entry.
pub const MIME_BLANK: u32 = 0;

/// The enumerated tag at the start of a header record, identifying its kind.
#[derive(Clone, Copy, Debug, PartialEq, Eq, Structural)]
pub enum Mime {
    /// The version marker; the very first record of an archive must carry it.
    Vers,
    /// A compressed entry.
    Cprs,
    /// An encrypted entry.
    Enco,
    /// A plain entry.
    Blank,
}

/// One header record: the version marker reuses the same shape as an
/// ordinary directory entry. The four trailing fields are format-defined
/// 32-bit unsigned integers; only `size` is read by the archive logic.
#[derive(Clone, Debug)]
pub struct BinaryHeader {
    /// The record kind.
    pub mime: Mime,
    /// The member's name; the empty name is reserved as the directory
    /// terminator sentinel.
    pub filename: Vec<u8>,
    /// Size of the member's bytes as stored in the blob, when compressed.
    pub packed_size: u32,
    /// Size of the member's bytes before compression.
    pub original_size: u32,
    /// Timestamp of the member.
    pub timestamp: u32,
    /// Size of the member's bytes in the data blob; the field the blob
    /// layout is computed from.
    pub size: u32,
}

/// The mathematical value of one header record.
pub struct SpecHeader {
    pub mime: Mime,
    pub filename: Seq<u8>,
    pub packed_size: u32,
    pub original_size: u32,
    pub timestamp: u32,
    pub size: u32,
}

impl View for BinaryHeader {
    type V = SpecHeader;

    open spec fn view(&self) -> SpecHeader {
        SpecHeader {
            mime: self.mime,
            filename: self.filename@,
            packed_size: self.packed_size,
            original_size: self.original_size,
            timestamp: self.timestamp,
            size: self.size,
        }
    }
}

/// The mime tag a code maps to, if any.
pub open spec fn mime_of_code(code: u32) -> Option<Mime> {
    if code == MIME_VERS {
        Some(Mime::Vers)
    } else if code == MIME_CPRS {
        Some(Mime::Cprs)
    } else if code == MIME_ENCO {
        Some(Mime::Enco)
    } else if code == MIME_BLANK {
        Some(Mime::Blank)
    } else {
        None
    }
}

/// Maps a fixed-width mime code to its tag; `None` for an unknown code.
pub fn mime_from_code(code: u32) -> (r: Option<Mime>)
    ensures
        r == mime_of_code(code),
{
    if code == MIME_VERS {
        Some(Mime::Vers)
    } else if code == MIME_CPRS {
        Some(Mime::Cprs)
    } else if code == MIME_ENCO {
        Some(Mime::Enco)
    } else if code == MIME_BLANK {
        Some(Mime::Blank)
    } else {
        None
    }
}

/// The 32-bit unsigned integer stored little-endian at `pos`.
pub open spec fn le_u32_at(s: Seq<u8>, pos: int) -> u32
    recommends
        0 <= pos,
        pos + 4 <= s.len(),
{
    (s[pos] + s[pos + 1] * 0x100 + s[pos + 2] * 0x1_0000 + s[pos + 3] * 0x100_0000) as u32
}

/// The position of the first zero byte at or after `pos`, or `s.len()` if
/// none exists.
pub open spec fn null_pos(s: Seq<u8>, pos: int) -> int
    recommends
        0 <= pos <= s.len(),
    decreases s.len() - pos,
{
    if pos < 0 || pos >= s.len() {
        s.len() as int
    } else if s[pos] == 0 {
        pos
    } else {
        null_pos(s, pos + 1)
    }
}

/// `null_pos` stays within `[pos, s.len()]`, lands on a zero byte when it
/// finds one, and skips no zero byte on the way.
pub proof fn lemma_null_pos(s: Seq<u8>, pos: int)
    requires
        0 <= pos <= s.len(),
    ensures
        pos <= null_pos(s, pos) <= s.len(),
        null_pos(s, pos) < s.len() ==> s[null_pos(s, pos)] == 0,
        forall|i: int| pos <= i < null_pos(s, pos) ==> s[i] != 0,
    decreases s.len() - pos,
{
    if pos < s.len() && s[pos] != 0 {
        lemma_null_pos(s, pos + 1);
    }
}

/// Decodes one 32-bit little-endian integer.
pub fn read_u32_le(bytes: &Vec<u8>, pos: usize) -> (r: u32)
    requires
        pos + 4 <= bytes.len(),
    ensures
        r == le_u32_at(bytes@, pos as int),
{
    let b0 = bytes[pos] as u32;
    let b1 = bytes[pos + 1] as u32;
    let b2 = bytes[pos + 2] as u32;
    let b3 = bytes[pos + 3] as u32;
    b0 + b1 * 0x100 + b2 * 0x1_0000 + b3 * 0x100_0000
}

/// Decodes a null-terminated string: the bytes strictly before the first
/// zero byte at or after `pos`. Fails with `UnterminatedString` when the
/// stream ends with no terminator seen; on success the returned position
/// stands just past the terminator.
pub fn read_null_string(bytes: &Vec<u8>, pos: usize) -> (r: Result<(Vec<u8>, usize), PboError>)
    requires
        pos <= bytes@.len(),
    ensures
        match r {
            Ok(p) => {
                &&& null_pos(bytes@, pos as int) < bytes@.len()
                &&& p.1 == null_pos(bytes@, pos as int) + 1
                &&& p.0@ == bytes@.subrange(pos as int, null_pos(bytes@, pos as int))
                &&& pos < p.1 <= bytes@.len()
            },
            Err(e) => {
                &&& e == PboError::UnterminatedString
                &&& null_pos(bytes@, pos as int) == bytes@.len()
            },
        },
{
    let len = bytes.len();
    let mut i = pos;
    let mut out: Vec<u8> = Vec::new();
    while i < len
        invariant
            pos <= i <= len,
            len == bytes@.len(),
            null_pos(bytes@, pos as int) == null_pos(bytes@, i as int),
            out@ == bytes@.subrange(pos as int, i as int),
        decreases len - i,
    {
        if bytes[i] == 0 {
            return Ok((out, i + 1));
        }
        out.push(bytes[i]);
        assert(out@ == bytes@.subrange(pos as int, i + 1));
        i = i + 1;
    }
    Err(PboError::UnterminatedString)
}

/// The mathematical decode of one header record at `pos`: the record's
/// value and the position just past it, or the condition on which decoding
/// fails. Mirrors the byte layout: a little-endian mime code, a
/// null-terminated filename, then four little-endian 32-bit fields.
pub open spec fn spec_read_header(s: Seq<u8>, pos: int) -> Result<(SpecHeader, int), HeaderError>
    recommends
        0 <= pos <= s.len(),
{
    if pos + 4 > s.len() {
        Err(HeaderError::Truncated)
    } else {
        match mime_of_code(le_u32_at(s, pos)) {
            None => Err(HeaderError::UnknownMime),
            Some(mime) => {
                let q = null_pos(s, pos + 4);
                if q >= s.len() {
                    Err(HeaderError::UnterminatedName)
                } else if q + 17 > s.len() {
                    Err(HeaderError::Truncated)
                } else {
                    Ok(
                        (
                            SpecHeader {
                                mime,
                                filename: s.subrange(pos + 4, q),
                                packed_size: le_u32_at(s, q + 1),
                                original_size: le_u32_at(s, q + 5),
                                timestamp: le_u32_at(s, q + 9),
                                size: le_u32_at(s, q + 13),
                            },
                            q + 17,
                        ),
                    )
                }
            },
        }
    }
}

/// Decodes one header record, reading in fixed order the mime tag, the
/// filename and the four 32-bit fields. Returns the record and the position
/// just past it; the result agrees exactly with [`spec_read_header`].
pub fn read_header(bytes: &Vec<u8>, pos: usize) -> (r: Result<(BinaryHeader, usize), HeaderError>)
    requires
        pos <= bytes@.len(),
    ensures
        match r {
            Ok(p) => {
                &&& spec_read_header(bytes@, pos as int) == Ok::<(SpecHeader, int), HeaderError>(
                    (p.0@, p.1 as int),
                )
                &&& pos + 21 <= p.1 <= bytes@.len()
            },
            Err(e) => spec_read_header(bytes@, pos as int) == Err::<(SpecHeader, int), HeaderError>(
                e,
            ),
        },
{
    let len = bytes.len();
    if len - pos < 4 {
        return Err(HeaderError::Truncated);
    }
    let code = read_u32_le(bytes, pos);
    let mime = match mime_from_code(code) {
        Some(m) => m,
        None => {
            return Err(HeaderError::UnknownMime);
        },
    };
    let (filename, after_name) = match read_null_string(bytes, pos + 4) {
        Ok(p) => p,
        Err(_) => {
            return Err(HeaderError::UnterminatedName);
        },
    };
    if len - after_name < 16 {
        return Err(HeaderError::Truncated);
    }
    let packed_size = read_u32_le(bytes, after_name);
    let original_size = read_u32_le(bytes, after_name + 4);
    let timestamp = read_u32_le(bytes, after_name + 8);
    let size = read_u32_le(bytes, after_name + 12);
    let header = BinaryHeader { mime, filename, packed_size, original_size, timestamp, size };
    Ok((header, after_name + 16))
}

/// Copies `count` bytes starting at `pos` into a fresh buffer.
pub fn read_bytes(bytes: &Vec<u8>, pos: usize, count: usize) -> (r: Vec<u8>)
    requires
        pos + count <= bytes.len(),
    ensures
        r@ == bytes@.subrange(pos as int, pos + count),
{
    let mut out: Vec<u8> = Vec::new();
    let mut i: usize = 0;
    while i < count
        invariant
            0 <= i <= count,
            pos + count <= bytes.len(),
            out@ == bytes@.subrange(pos as int, pos + i),
        decreases count - i,
    {
        out.push(bytes[pos + i]);
        assert(out@ == bytes@.subrange(pos as int, pos + i + 1));
        i = i + 1;
    }
    out
}

/// Byte-exact equality of a stored name and a queried name; the equality
/// member lookup is defined by.
pub fn bytes_eq(a: &Vec<u8>, b: &[u8]) -> (r: bool)
    ensures
        r <==> a@ == b@,
{
    let alen = a.len();
    if alen != b.len() {
        return false;
    }
    let mut i: usize = 0;
    while i < alen
        invariant
            0 <= i <= alen,
            alen == a@.len() == b@.len(),
            forall|j: int| 0 <= j < i ==> a@[j] == b@[j],
        decreases alen - i,
    {
        if a[i] != b[i] {
            return false;
        }
        i = i + 1;
    }
    proof {
        assert(a@ =~= b@);
    }
    true
}

} // verus!
