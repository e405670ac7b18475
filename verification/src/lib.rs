//! Country and timezone lookup in a ZoneDetect database.
#![allow(non_snake_case)]

pub mod header;
pub mod lookup;
pub mod polygon;
pub mod reader;
pub mod text;
pub mod varint;

use vstd::prelude::*;
use vstd::utf8::{decode_utf8, valid_utf8};

verus! {

/// std's `io::Error`, carried opaque in `Error::IoError`.
#[verifier::external_type_specification]
#[verifier::external_body]
pub struct ExIoError(std::io::Error);

/// std's `string::FromUtf8Error`, carried opaque in `StringParseError::InvalidUtf8`.
#[verifier::external_type_specification]
#[verifier::external_body]
pub struct ExFromUtf8Error(std::string::FromUtf8Error);

/// Why a database could not be opened.
#[derive(Debug)]
pub enum Error {
    IoError(std::io::Error),
    TruncatedDatabase(usize),
    InvalidMagic([u8; 3]),
    InvalidVersion(u8),
    InvalidTableType(u8),
    InvalidFieldName(u8, StringParseError),
    InvalidNotice(StringParseError),
    InvalidMetadataOffset,
    InvalidDataOffset,
    InvalidPaddingOffset,
    LengthMismatch(usize),
}

/// The kind of table a database holds.
#[derive(Clone, Copy, Debug, PartialEq, Eq, Structural)]
pub enum TableType {
    Country,
    Timezone,
}

/// How a location relates to a zone.
#[derive(Clone, Copy, Debug, PartialEq, Eq, Structural)]
pub enum LookupResult {
    Ignore,
    End,
    ParseError,
    NotInZone,
    InZone,
    InExcludedZone,
    OnBorderVertex,
    OnBorderSegment,
}

impl LookupResult {
    /// The numeric code of each result in the ZoneDetect interface.
    pub open spec fn spec_code(self) -> int {
        match self {
            LookupResult::Ignore => -3,
            LookupResult::End => -2,
            LookupResult::ParseError => -1,
            LookupResult::NotInZone => 0,
            LookupResult::InZone => 1,
            LookupResult::InExcludedZone => 2,
            LookupResult::OnBorderVertex => 3,
            LookupResult::OnBorderSegment => 4,
        }
    }

    /// The numeric code of the result in the ZoneDetect interface.
    pub fn code(self) -> (c: i32)
        ensures
            c == self.spec_code(),
    {
        match self {
            LookupResult::Ignore => -3,
            LookupResult::End => -2,
            LookupResult::ParseError => -1,
            LookupResult::NotInZone => 0,
            LookupResult::InZone => 1,
            LookupResult::InExcludedZone => 2,
            LookupResult::OnBorderVertex => 3,
            LookupResult::OnBorderSegment => 4,
        }
    }
}

/// Why a string could not be read.
#[derive(Debug)]
pub enum StringParseError {
    EncodingError,
    InvalidUtf8(std::string::FromUtf8Error),
}

/// The two ways reading a string fails, as plain values.
#[derive(Clone, Copy, Debug, PartialEq, Eq, Structural)]
pub enum StringFault {
    Encoding,
    Utf8,
}

impl StringParseError {
    /// Which way reading the string failed.
    pub open spec fn fault(&self) -> StringFault {
        match self {
            StringParseError::EncodingError => StringFault::Encoding,
            StringParseError::InvalidUtf8(_) => StringFault::Utf8,
        }
    }
}

/// A zone that holds a location: how the location relates to it, the
/// polygon and metadata positions, and the zone's metadata fields: one
/// entry per field name, in the order the names first occur, holding the
/// last value read for that name.
#[derive(Clone, Debug)]
pub struct ZoneDetectResult {
    pub lookup_result: LookupResult,
    pub polygon_id: u32,
    pub meta_id: u32,
    pub fields: Vec<(String, String)>,
}

/// The texts of name and value pairs.
pub open spec fn pair_texts(v: Seq<(String, String)>) -> Seq<(Seq<char>, Seq<char>)> {
    v.map_values(|p: (String, String)| (p.0@, p.1@))
}

/// The value of the last field called `key`.
pub open spec fn field_value(fields: Seq<(Seq<char>, Seq<char>)>, key: Seq<char>) -> Option<Seq<char>>
    decreases fields.len(),
{
    if fields.len() == 0 {
        None
    } else if fields.last().0 == key {
        Some(fields.last().1)
    } else {
        field_value(fields.drop_last(), key)
    }
}

/// The value of the last field called `key` among `fields`.
pub fn find_field(fields: &Vec<(String, String)>, key: &String) -> (r: Option<String>)
    ensures
        r matches Some(v) ==> field_value(pair_texts(fields@), key@) == Some(v@),
        r is None ==> field_value(pair_texts(fields@), key@) is None,
{
    let mut found: Option<String> = None;
    let mut k: usize = 0;
    while k < fields.len()
        invariant
            k <= fields@.len(),
            found matches Some(v) ==> field_value(pair_texts(fields@.take(k as int)), key@) == Some(v@),
            found is None ==> field_value(pair_texts(fields@.take(k as int)), key@) is None,
        decreases fields@.len() - k,
    {
        proof {
            assert(pair_texts(fields@.take(k + 1)).drop_last() =~= pair_texts(fields@.take(k as int)));
        }
        if fields[k].0 == *key {
            found = Some(fields[k].1.clone());
        }
        k = k + 1;
    }
    assert(fields@.take(fields@.len() as int) =~= fields@);
    found
}

impl ZoneDetectResult {
    /// The value of the field called `key`.
    pub fn get(&self, key: &String) -> (r: Option<String>)
        ensures
            r matches Some(v) ==> field_value(pair_texts(self.fields@), key@) == Some(v@),
            r is None ==> field_value(pair_texts(self.fields@), key@) is None,
    {
        find_field(&self.fields, key)
    }
}

/// How a location relates to a zone a lookup reports.
#[derive(Clone, Copy, Debug, PartialEq, Eq, Structural)]
pub enum ZoneMatchKind {
    InZone,
    InExcludedZone,
    OnBorderVertex,
    OnBorderSegment,
}

/// A zone: its polygon and metadata positions and its metadata fields.
#[derive(Debug)]
pub struct Zone {
    pub polygon_id: u32,
    pub meta_id: u32,
    pub fields: Vec<(String, String)>,
}

impl Zone {
    /// The value of the field called `key`.
    pub fn get(&self, key: &String) -> (r: Option<String>)
        ensures
            r matches Some(v) ==> field_value(pair_texts(self.fields@), key@) == Some(v@),
            r is None ==> field_value(pair_texts(self.fields@), key@) is None,
    {
        find_field(&self.fields, key)
    }
}

/// A zone a lookup found the location in or on, and how.
#[derive(Debug)]
pub struct ZoneMatch {
    pub kind: ZoneMatchKind,
    pub zone: Zone,
}

/// The match kind of a lookup result; `None` for results no reported zone has.
pub open spec fn match_kind(r: LookupResult) -> Option<ZoneMatchKind> {
    if r == LookupResult::InZone {
        Some(ZoneMatchKind::InZone)
    } else if r == LookupResult::InExcludedZone {
        Some(ZoneMatchKind::InExcludedZone)
    } else if r == LookupResult::OnBorderVertex {
        Some(ZoneMatchKind::OnBorderVertex)
    } else if r == LookupResult::OnBorderSegment {
        Some(ZoneMatchKind::OnBorderSegment)
    } else {
        None
    }
}

impl ZoneMatch {
    /// The match a lookup result stands for: the same kind, positions and
    /// fields; `None` for a result that is not a match.
    pub fn from_result(r: ZoneDetectResult) -> (m: Option<ZoneMatch>)
        ensures
            match (m, match_kind(r.lookup_result)) {
                (Some(z), Some(k)) => {
                    &&& z.kind == k
                    &&& z.zone.polygon_id == r.polygon_id
                    &&& z.zone.meta_id == r.meta_id
                    &&& z.zone.fields@ == r.fields@
                },
                (None, None) => true,
                _ => false,
            },
    {
        let kind = match r.lookup_result {
            LookupResult::InZone => ZoneMatchKind::InZone,
            LookupResult::InExcludedZone => ZoneMatchKind::InExcludedZone,
            LookupResult::OnBorderVertex => ZoneMatchKind::OnBorderVertex,
            LookupResult::OnBorderSegment => ZoneMatchKind::OnBorderSegment,
            _ => {
                return None;
            },
        };
        Some(ZoneMatch { kind, zone: Zone { polygon_id: r.polygon_id, meta_id: r.meta_id, fields: r.fields } })
    }
}

/// A database: the raw bytes and the header fields decoded from them.
pub struct Database {
    pub bbox_offset: u32,
    pub data_offset: u32,
    pub field_names: Vec<String>,
    pub mapping: Vec<u8>,
    pub metadata_offset: u32,
    pub notice: String,
    pub precision: u8,
    pub table_type: TableType,
    pub version: u8,
}

/// The database under its name in the ZoneDetect interface.
pub type ZoneDetectOpaque = Database;

impl Database {
    /// Offsets into the database are 32-bit, so its size must stay below `u32::MAX`.
    pub open spec fn addressable(&self) -> bool {
        self.mapping@.len() < u32::MAX
    }
}

/// The text of the string stored at `index`, or why it cannot be read.
pub open spec fn string_text(bytes: Seq<u8>, metadata_offset: u32, index: int) -> Result<Seq<char>, StringFault> {
    match text::zd_string(bytes, metadata_offset, index) {
        None => Err(StringFault::Encoding),
        Some(b) => if valid_utf8(b) {
            Ok(decode_utf8(b))
        } else {
            Err(StringFault::Utf8)
        },
    }
}

/// `String::from_utf8` from std: succeeds exactly on valid UTF-8, and the
/// string then holds the characters the bytes encode.
#[verifier::external_body]
fn string_from_utf8(bytes: Vec<u8>) -> (r: Result<String, std::string::FromUtf8Error>)
    ensures
        r is Ok <==> valid_utf8(bytes@),
        r matches Ok(s) ==> s@ == decode_utf8(bytes@),
{
    String::from_utf8(bytes)
}

/// Reads the string at `*index` as UTF-8 text, moving `*index` past it.
pub fn parse_string(db: &Database, index: &mut u32) -> (r: Result<String, StringParseError>)
    requires
        db.addressable(),
    ensures
        match r {
            Ok(s) => string_text(db.mapping@, db.metadata_offset, *old(index) as int) == Ok::<Seq<char>, StringFault>(s@),
            Err(e) => string_text(db.mapping@, db.metadata_offset, *old(index) as int) == Err::<Seq<char>, StringFault>(e.fault()),
        },
        *final(index) == text::zd_string_next(db.mapping@, db.metadata_offset, *old(index)),
{
    if let Some(bytes) = text::ZDParseString(db, index) {
        match string_from_utf8(bytes) {
            Ok(string) => Ok(string),
            Err(e) => Err(StringParseError::InvalidUtf8(e)),
        }
    } else {
        Err(StringParseError::EncodingError)
    }
}

} // verus!
