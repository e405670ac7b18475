//! Strings stored in the database.
//!
//! A string is a variable-length length followed by its bytes, each with the
//! high bit flipped. A length of 256 or more instead points into the metadata
//! section, at `metadata_offset + length - 256`, where the string is stored
//! (its own length there being at most 256).
use crate::varint::{decode_uvarint, lemma_decode_bounds, ZDDecodeVariableLengthUnsigned};
use crate::Database;
use vstd::prelude::*;

verus! {

/// Where the string read at `index` lies: the position of its first byte, its
/// length, and the read position after it (which stays after the length for a
/// string stored in the metadata section).
pub open spec fn string_span(bytes: Seq<u8>, metadata_offset: u32, index: int) -> Option<(int, nat, u32)> {
    match decode_uvarint(bytes, index) {
        None => None,
        Some((len, next)) => {
            if len < 256 {
                Some((next, len as nat, vstd::wrapping::u32_specs::wrapping_add(next as u32, len as u32)))
            } else {
                let remote = vstd::wrapping::u32_specs::wrapping_sub(
                    vstd::wrapping::u32_specs::wrapping_add(metadata_offset, len as u32),
                    256,
                );
                match decode_uvarint(bytes, remote as int) {
                    None => None,
                    Some((len2, start)) => {
                        if len2 > 256 {
                            None
                        } else {
                            Some((start, len2 as nat, next as u32))
                        }
                    },
                }
            }
        },
    }
}

/// The stored bytes of a string, with their high bits flipped back.
pub open spec fn unflipped(bytes: Seq<u8>, start: int, len: nat) -> Seq<u8> {
    Seq::new(len, |i: int| bytes[start + i] ^ 0x80u8)
}

/// Reading the string at `index`: its bytes when it is well formed and lies
/// inside the database.
pub open spec fn zd_string(bytes: Seq<u8>, metadata_offset: u32, index: int) -> Option<Seq<u8>> {
    match string_span(bytes, metadata_offset, index) {
        Some((start, len, _)) => if start + len <= bytes.len() {
            Some(unflipped(bytes, start, len))
        } else {
            None
        },
        None => None,
    }
}

/// The read position after reading the string at `index`: past the string
/// when it was read in place, past its length otherwise, unchanged when not
/// even the length could be read.
pub open spec fn zd_string_next(bytes: Seq<u8>, metadata_offset: u32, index: u32) -> u32 {
    match decode_uvarint(bytes, index as int) {
        None => index,
        Some((len, next)) => match string_span(bytes, metadata_offset, index as int) {
            Some((start, l, after)) => if start + l <= bytes.len() {
                after
            } else {
                next as u32
            },
            None => next as u32,
        },
    }
}

/// Reads the string at `*index` and moves `*index` past what was read.
/// Returns `None` when the string is malformed or reaches past the end of the
/// database.
pub fn ZDParseString(library: &Database, index: &mut u32) -> (r: Option<Vec<u8>>)
    requires
        library.addressable(),
    ensures
        r matches Some(v) ==> zd_string(library.mapping@, library.metadata_offset, *old(index) as int) == Some(v@),
        r is None ==> zd_string(library.mapping@, library.metadata_offset, *old(index) as int) is None,
        *final(index) == zd_string_next(library.mapping@, library.metadata_offset, *old(index)),
{
    let ghost bytes = library.mapping@;
    let ghost index0 = *index;
    let mut str_length: u64 = 0;
    if ZDDecodeVariableLengthUnsigned(library, index, &mut str_length) == 0 {
        return None;
    }
    let mut str_offset: u32 = *index;
    let mut remote = false;
    if str_length >= 256 {
        str_offset = library.metadata_offset.wrapping_add(str_length as u32).wrapping_sub(256);
        remote = true;
        if ZDDecodeVariableLengthUnsigned(library, &mut str_offset, &mut str_length) == 0 {
            return None;
        }
        if str_length > 256 {
            return None;
        }
    }
    assert(string_span(bytes, library.metadata_offset, index0 as int) matches Some((s, l, _)) && s == str_offset && l == str_length);
    if (str_offset as u64) + str_length > library.mapping.len() as u64 {
        return None;
    }
    let mut out: Vec<u8> = Vec::new();
    let mut i: u64 = 0;
    while i < str_length
        invariant
            i <= str_length,
            (str_offset as u64) + str_length <= bytes.len(),
            bytes == library.mapping@,
            library.addressable(),
            out@ =~= unflipped(bytes, str_offset as int, i as nat),
        decreases str_length - i,
    {
        let b = library.mapping[(str_offset as u64 + i) as usize] ^ 0x80;
        out.push(b);
        i = i + 1;
        assert(out@ =~= unflipped(bytes, str_offset as int, i as nat)) by {
            assert(out@.last() == b);
        }
    }
    if !remote {
        *index = index.wrapping_add(str_length as u32);
    }
    Some(out)
}

/// A length below 256 read at `index` is followed by the string itself, and
/// the read position moves past it; a length `len` of 256 or more refers to
/// the metadata section instead: the string read is the one whose length (at
/// most 256) and bytes are stored at `metadata_offset + len - 256`, the same
/// string as reading there in place gives when that length is below 256, and
/// the read position then stays just past `len`.
pub proof fn lemma_string_position(bytes: Seq<u8>, metadata_offset: u32, index: u32)
    requires
        bytes.len() < u32::MAX,
    ensures
        match decode_uvarint(bytes, index as int) {
            None => true,
            Some((len, next)) => if len < 256 {
                &&& zd_string(bytes, metadata_offset, index as int) == if next + len <= bytes.len() {
                    Some(Seq::new(len as nat, |i: int| bytes[next + i] ^ 0x80u8))
                } else {
                    None
                }
                &&& next + len <= bytes.len() ==> zd_string_next(bytes, metadata_offset, index) == next + len
            } else if metadata_offset + len < 0x1_0000_0000 {
                let at = metadata_offset + len - 256;
                &&& zd_string(bytes, metadata_offset, index as int) == match decode_uvarint(bytes, at) {
                    None => None,
                    Some((n, start)) => if n <= 256 && start + n <= bytes.len() {
                        Some(Seq::new(n as nat, |i: int| bytes[start + i] ^ 0x80u8))
                    } else {
                        None
                    },
                }
                &&& match decode_uvarint(bytes, at) {
                    Some((n, _)) => n < 256 ==> zd_string(bytes, metadata_offset, index as int)
                        == zd_string(bytes, metadata_offset, at),
                    None => true,
                }
                &&& zd_string_next(bytes, metadata_offset, index) == next
            } else {
                true
            },
        },
{
    lemma_decode_bounds(bytes, index as int);
    if let Some((len, next)) = decode_uvarint(bytes, index as int) {
        if len >= 256 && metadata_offset + len < 0x1_0000_0000 {
            let at = metadata_offset + len - 256;
            assert(vstd::wrapping::u32_specs::wrapping_sub(
                vstd::wrapping::u32_specs::wrapping_add(metadata_offset, len as u32), 256) == at);
            lemma_decode_bounds(bytes, at);
            if let Some((n, start)) = decode_uvarint(bytes, at) {
                if n <= 256 && start + n <= bytes.len() {
                    assert(unflipped(bytes, start, n as nat) =~= Seq::new(n as nat, |i: int| bytes[start + i] ^ 0x80u8));
                }
            }
        } else if len < 256 && next + len <= bytes.len() {
            assert(unflipped(bytes, next, len as nat) =~= Seq::new(len as nat, |i: int| bytes[next + i] ^ 0x80u8));
        }
    }
}

} // verus!
