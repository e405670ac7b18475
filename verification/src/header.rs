//! The database header: magic bytes, table type, version, precision, field
//! names, notice and the sizes of the sections that follow.
use crate::text::zd_string_next;
use crate::varint::{decode_uvarint, ZDDecodeVariableLengthUnsigned};
use crate::{parse_string, string_text, Database, Error, StringFault, TableType};
use vstd::prelude::*;

verus! {

/// The header fields of a database, as plain values.
pub struct HeaderView {
    pub table_type: TableType,
    pub version: u8,
    pub precision: u8,
    pub field_names: Seq<Seq<char>>,
    pub notice: Seq<char>,
    pub bbox_offset: u32,
    pub metadata_offset: u32,
    pub data_offset: u32,
}

/// Why a header is rejected, as plain values.
pub enum HeaderFault {
    Truncated(usize),
    Magic(Seq<u8>),
    Version(u8),
    TableType(u8),
    FieldName(u8, StringFault),
    Notice(StringFault),
    MetadataOffset,
    DataOffset,
    PaddingOffset,
    LengthMismatch(usize),
}

/// Reads the field names `k..n` starting at `index` (strings of the header,
/// so a metadata offset of 0 applies to them): the names and the position
/// after them, or the number of the first field that fails and why.
pub open spec fn field_names_from(bytes: Seq<u8>, k: int, n: int, index: u32) -> Result<(Seq<Seq<char>>, u32), (u8, StringFault)>
    decreases n - k,
{
    if k >= n {
        Ok((Seq::empty(), index))
    } else {
        match string_text(bytes, 0, index as int) {
            Err(f) => Err((k as u8, f)),
            Ok(name) => match field_names_from(bytes, k + 1, n, zd_string_next(bytes, 0, index)) {
                Ok((rest, after)) => Ok((seq![name] + rest, after)),
                Err(e) => Err(e),
            },
        }
    }
}

/// The magic bytes that open every database.
pub open spec fn magic() -> Seq<u8> {
    seq![0x50u8, 0x4cu8, 0x42u8]
}

/// The sections after the header, given the read position after the notice.
/// The three sizes are read in turn; the metadata size is taken modulo
/// 2^32, and an offset that does not fit in 32 bits (or a total length that
/// does not fit in 64) rejects the header, naming the size that overflowed.
pub open spec fn header_sections(bytes: Seq<u8>, index: u32, table_type: TableType, version: u8, precision: u8, names: Seq<Seq<char>>, notice: Seq<char>) -> Result<HeaderView, HeaderFault> {
    match decode_uvarint(bytes, index as int) {
        None => Err(HeaderFault::MetadataOffset),
        Some((m, i3)) => match decode_uvarint(bytes, i3) {
            None => Err(HeaderFault::DataOffset),
            Some((d, i4)) => {
                let meta = m as u32;
                let data = d as u32 + meta;
                if data > u32::MAX {
                    Err(HeaderFault::DataOffset)
                } else {
                    match decode_uvarint(bytes, i4) {
                        None => Err(HeaderFault::PaddingOffset),
                        Some((p, end)) => {
                            let length = p + data + end;
                            if meta + end > u32::MAX {
                                Err(HeaderFault::MetadataOffset)
                            } else if data + end > u32::MAX {
                                Err(HeaderFault::DataOffset)
                            } else if length > u64::MAX {
                                Err(HeaderFault::PaddingOffset)
                            } else if length != bytes.len() {
                                Err(HeaderFault::LengthMismatch(length as usize))
                            } else {
                                Ok(HeaderView {
                                    table_type,
                                    version,
                                    precision,
                                    field_names: names,
                                    notice,
                                    bbox_offset: end as u32,
                                    metadata_offset: (meta + end) as u32,
                                    data_offset: (data + end) as u32,
                                })
                            }
                        },
                    }
                }
            },
        },
    }
}

/// The header of a database: its fields, or why it is rejected.
pub open spec fn header_spec(bytes: Seq<u8>) -> Result<HeaderView, HeaderFault> {
    if bytes.len() < 7 {
        Err(HeaderFault::Truncated(bytes.len() as usize))
    } else if bytes.subrange(0, 3) != magic() {
        Err(HeaderFault::Magic(bytes.subrange(0, 3)))
    } else if bytes[3] != 0x54u8 && bytes[3] != 0x43u8 {
        Err(HeaderFault::TableType(bytes[3]))
    } else if bytes[4] >= 2 {
        Err(HeaderFault::Version(bytes[4]))
    } else {
        let table_type = if bytes[3] == 0x54u8 { TableType::Timezone } else { TableType::Country };
        match field_names_from(bytes, 0, bytes[6] as int, 7) {
            Err((k, f)) => Err(HeaderFault::FieldName(k, f)),
            Ok((names, i1)) => match string_text(bytes, 0, i1 as int) {
                Err(f) => Err(HeaderFault::Notice(f)),
                Ok(notice) => header_sections(bytes, zd_string_next(bytes, 0, i1), table_type, bytes[4], bytes[5], names, notice),
            },
        }
    }
}

/// Whether an error is the one a header fault calls for.
pub open spec fn error_for(e: &Error, f: HeaderFault) -> bool {
    match (e, f) {
        (Error::TruncatedDatabase(a), HeaderFault::Truncated(b)) => *a == b,
        (Error::InvalidMagic(a), HeaderFault::Magic(b)) => a@ == b,
        (Error::InvalidVersion(a), HeaderFault::Version(b)) => *a == b,
        (Error::InvalidTableType(a), HeaderFault::TableType(b)) => *a == b,
        (Error::InvalidFieldName(k, s), HeaderFault::FieldName(j, g)) => *k == j && s.fault() == g,
        (Error::InvalidNotice(s), HeaderFault::Notice(g)) => s.fault() == g,
        (Error::InvalidMetadataOffset, HeaderFault::MetadataOffset) => true,
        (Error::InvalidDataOffset, HeaderFault::DataOffset) => true,
        (Error::InvalidPaddingOffset, HeaderFault::PaddingOffset) => true,
        (Error::LengthMismatch(a), HeaderFault::LengthMismatch(b)) => *a == b,
        _ => false,
    }
}

/// What decoding the header writes into the database, up to where it stops
/// (on success, every field): `None` for a field left as it was.
pub struct HeaderProgress {
    pub version: Option<u8>,
    pub precision: Option<u8>,
    pub table_type: Option<TableType>,
    pub field_names: Option<Seq<Seq<char>>>,
    pub notice: Option<Seq<char>>,
    pub bbox_offset: Option<u32>,
    pub metadata_offset: Option<u32>,
    pub data_offset: Option<u32>,
}

/// The first `k` field names, as far as they can be read.
pub open spec fn names_prefix(bytes: Seq<u8>, k: int) -> Seq<Seq<char>> {
    match field_names_from(bytes, 0, k, 7) {
        Ok((ns, _)) => ns,
        Err(_) => Seq::empty(),
    }
}

/// What decoding the header of `bytes` writes before it stops.
pub open spec fn header_progress(bytes: Seq<u8>) -> HeaderProgress {
    let none = HeaderProgress {
        version: None,
        precision: None,
        table_type: None,
        field_names: None,
        notice: None,
        bbox_offset: None,
        metadata_offset: None,
        data_offset: None,
    };
    if bytes.len() < 7 || bytes.subrange(0, 3) != magic() {
        none
    } else {
        let kinds = HeaderProgress { version: Some(bytes[4]), precision: Some(bytes[5]), ..none };
        if bytes[3] != 0x54u8 && bytes[3] != 0x43u8 {
            kinds
        } else {
            let typed = HeaderProgress {
                table_type: Some(if bytes[3] == 0x54u8 { TableType::Timezone } else { TableType::Country }),
                ..kinds
            };
            if bytes[4] >= 2 {
                typed
            } else {
                match field_names_from(bytes, 0, bytes[6] as int, 7) {
                    Err((k, _)) => HeaderProgress { field_names: Some(names_prefix(bytes, k as int)), ..typed },
                    Ok((names, i1)) => {
                        let named = HeaderProgress { field_names: Some(names), ..typed };
                        match string_text(bytes, 0, i1 as int) {
                            Err(_) => named,
                            Ok(notice) => {
                                let noted = HeaderProgress { notice: Some(notice), ..named };
                                match decode_uvarint(bytes, zd_string_next(bytes, 0, i1) as int) {
                                    None => noted,
                                    Some((m, i3)) => {
                                        let meta = m as u32;
                                        let with_meta = HeaderProgress { metadata_offset: Some(meta), ..noted };
                                        match decode_uvarint(bytes, i3) {
                                            None => with_meta,
                                            Some((d, i4)) => {
                                                let data = d as u32 + meta;
                                                if data > u32::MAX {
                                                    with_meta
                                                } else {
                                                    let with_data = HeaderProgress { data_offset: Some(data as u32), ..with_meta };
                                                    match decode_uvarint(bytes, i4) {
                                                        None => with_data,
                                                        Some((p, end)) => {
                                                            if meta + end > u32::MAX || data + end > u32::MAX || p + data + end > u64::MAX {
                                                                with_data
                                                            } else {
                                                                HeaderProgress {
                                                                    bbox_offset: Some(end as u32),
                                                                    metadata_offset: Some((meta + end) as u32),
                                                                    data_offset: Some((data + end) as u32),
                                                                    ..with_data
                                                                }
                                                            }
                                                        },
                                                    }
                                                }
                                            },
                                        }
                                    },
                                }
                            },
                        }
                    },
                }
            }
        }
    }
}

/// The value a field holds after a write of `o` over `before`.
pub open spec fn written_or<T>(o: Option<T>, before: T) -> T {
    match o {
        Some(v) => v,
        None => before,
    }
}

/// The texts of a list of strings.
pub open spec fn texts(v: Seq<String>) -> Seq<Seq<char>> {
    v.map_values(|s: String| s@)
}

proof fn lemma_names_snoc(bytes: Seq<u8>, j: int, k: int, index: u32)
    requires
        0 <= j <= k,
    ensures
        field_names_from(bytes, j, k + 1, index) == match field_names_from(bytes, j, k, index) {
            Ok((ns, e)) => match string_text(bytes, 0, e as int) {
                Ok(name) => Ok((ns.push(name), zd_string_next(bytes, 0, e))),
                Err(f) => Err((k as u8, f)),
            },
            Err(x) => Err(x),
        },
    decreases k - j,
{
    if j == k {
        if let Ok(name) = string_text(bytes, 0, index as int) {
            assert(seq![name] + Seq::<Seq<char>>::empty() =~= Seq::<Seq<char>>::empty().push(name));
        }
    } else {
        if let Ok(name) = string_text(bytes, 0, index as int) {
            let next = zd_string_next(bytes, 0, index);
            lemma_names_snoc(bytes, j + 1, k, next);
            if let Ok((ns, e)) = field_names_from(bytes, j + 1, k, next) {
                if let Ok(x) = string_text(bytes, 0, e as int) {
                    assert((seq![name] + ns).push(x) =~= seq![name] + ns.push(x));
                }
            }
        }
    }
}

/// The three section sizes stored after the notice, and the position after
/// them, where the header can be read that far.
pub open spec fn section_sizes(bytes: Seq<u8>) -> Option<(u64, u64, u64, int)> {
    if bytes.len() < 7 {
        None
    } else {
        match field_names_from(bytes, 0, bytes[6] as int, 7) {
            Err(_) => None,
            Ok((_, i1)) => match decode_uvarint(bytes, zd_string_next(bytes, 0, i1) as int) {
                None => None,
                Some((m, i3)) => match decode_uvarint(bytes, i3) {
                    None => None,
                    Some((d, i4)) => match decode_uvarint(bytes, i4) {
                        None => None,
                        Some((p, i5)) => Some((m, d, p, i5)),
                    },
                },
            },
        }
    }
}

proof fn lemma_field_names_len(bytes: Seq<u8>, k: int, n: int, index: u32)
    requires
        k <= n,
    ensures
        field_names_from(bytes, k, n, index) matches Ok((names, _)) ==> names.len() == n - k,
    decreases n - k,
{
    if k < n {
        if let Ok(_) = string_text(bytes, 0, index as int) {
            lemma_field_names_len(bytes, k + 1, n, zd_string_next(bytes, 0, index));
        }
    }
}

/// A header that decodes holds as many field names as its seventh byte
/// says, and places the sections in order: the boxes right after the header,
/// then the metadata (its size taken modulo 2^32), then the data, which runs
/// to the end of the database.
pub proof fn lemma_sections_in_order(bytes: Seq<u8>)
    requires
        header_spec(bytes) is Ok,
    ensures
        match (header_spec(bytes), section_sizes(bytes)) {
            (Ok(h), Some((m, d, p, end))) => {
                &&& h.field_names.len() == bytes[6]
                &&& h.bbox_offset == end
                &&& h.metadata_offset == end + m as u32
                &&& h.data_offset == end + m as u32 + d as u32
                &&& bytes.len() == h.data_offset + p
                &&& h.bbox_offset <= h.metadata_offset <= h.data_offset <= bytes.len()
            },
            _ => false,
        },
{
    lemma_field_names_len(bytes, 0, bytes[6] as int, 7);
}

impl Database {
    /// Whether the database holds exactly the header fields `h` over `bytes`.
    pub open spec fn has_header(&self, bytes: Seq<u8>, h: HeaderView) -> bool {
        &&& self.mapping@ == bytes
        &&& self.table_type == h.table_type
        &&& self.version == h.version
        &&& self.precision == h.precision
        &&& texts(self.field_names@) == h.field_names
        &&& self.notice@ == h.notice
        &&& self.bbox_offset == h.bbox_offset
        &&& self.metadata_offset == h.metadata_offset
        &&& self.data_offset == h.data_offset
    }

    /// Whether `self` is `before` with the writes of `p`.
    pub open spec fn written(&self, before: &Database, p: HeaderProgress) -> bool {
        &&& self.mapping@ == before.mapping@
        &&& self.version == written_or(p.version, before.version)
        &&& self.precision == written_or(p.precision, before.precision)
        &&& self.table_type == written_or(p.table_type, before.table_type)
        &&& texts(self.field_names@) == written_or(p.field_names, texts(before.field_names@))
        &&& self.notice@ == written_or(p.notice, before.notice@)
        &&& self.bbox_offset == written_or(p.bbox_offset, before.bbox_offset)
        &&& self.metadata_offset == written_or(p.metadata_offset, before.metadata_offset)
        &&& self.data_offset == written_or(p.data_offset, before.data_offset)
    }

    /// Opens a database held in memory, decoding its header. The header's own
    /// strings are read with a metadata offset of 0; the metadata size is
    /// taken modulo 2^32, a section offset that does not fit in 32 bits is
    /// refused with the error of the size that overflowed, and the database
    /// must end exactly where the data section ends.
    pub fn from_vec(mapping: Vec<u8>) -> (r: Result<Database, Error>)
        requires
            mapping@.len() < u32::MAX,
        ensures
            match (r, header_spec(mapping@)) {
                (Ok(db), Ok(h)) => db.has_header(mapping@, h),
                (Err(e), Err(f)) => error_for(&e, f),
                _ => false,
            },
    {
        let ghost bytes = mapping@;
        let mut db = Database {
            mapping,
            notice: String::new(),
            table_type: TableType::Country,
            version: 0,
            precision: 0,
            field_names: Vec::new(),
            bbox_offset: 0,
            metadata_offset: 0,
            data_offset: 0,
        };
        match Self::parse_header(&mut db) {
            Ok(()) => Ok(db),
            Err(e) => Err(e),
        }
    }

    fn parse_header(db: &mut Database) -> (r: Result<(), Error>)
        requires
            old(db).addressable(),
            old(db).field_names@.len() == 0,
            old(db).bbox_offset == 0,
            old(db).metadata_offset == 0,
        ensures
            final(db).mapping@ == old(db).mapping@,
            final(db).written(&*old(db), header_progress(old(db).mapping@)),
            match (r, header_spec(old(db).mapping@)) {
                (Ok(_), Ok(h)) => final(db).has_header(old(db).mapping@, h),
                (Err(e), Err(f)) => error_for(&e, f),
                _ => false,
            },
    {
        let ghost bytes = db.mapping@;
        if db.mapping.len() < 7 {
            return Err(Error::TruncatedDatabase(db.mapping.len()));
        }
        let actual_magic: [u8; 3] = [db.mapping[0], db.mapping[1], db.mapping[2]];
        assert(actual_magic@ =~= bytes.subrange(0, 3));
        if !(actual_magic[0] == 0x50u8 && actual_magic[1] == 0x4cu8 && actual_magic[2] == 0x42u8) {
            assert(bytes.subrange(0, 3) != magic()) by {
                if bytes.subrange(0, 3) == magic() {
                    assert(bytes.subrange(0, 3)[0] == magic()[0]);
                    assert(bytes.subrange(0, 3)[1] == magic()[1]);
                    assert(bytes.subrange(0, 3)[2] == magic()[2]);
                }
            }
            return Err(Error::InvalidMagic(actual_magic));
        }
        assert(bytes.subrange(0, 3) =~= magic());
        let table_type = db.mapping[3];
        db.version = db.mapping[4];
        db.precision = db.mapping[5];
        let num_fields = db.mapping[6];
        if table_type == 0x54u8 {
            db.table_type = TableType::Timezone;
        } else if table_type == 0x43u8 {
            db.table_type = TableType::Country;
        } else {
            return Err(Error::InvalidTableType(table_type));
        }
        if db.version >= 2 {
            return Err(Error::InvalidVersion(db.version));
        }
        let mut index: u32 = 7;
        let mut field_index: u8 = 0;
        assert(texts(db.field_names@) =~= Seq::<Seq<char>>::empty());
        assert(field_names_from(bytes, 0, 0, 7) == Ok::<(Seq<Seq<char>>, u32), (u8, StringFault)>((Seq::empty(), 7u32)));
        while field_index < num_fields
            invariant
                db.mapping@ == bytes,
                bytes == old(db).mapping@,
                bytes.subrange(0, 3) == magic(),
                bytes[4] < 2,
                bytes[3] == 0x54u8 || bytes[3] == 0x43u8,
                db.version == bytes[4],
                db.precision == bytes[5],
                db.table_type == (if bytes[3] == 0x54u8 { TableType::Timezone } else { TableType::Country }),
                bytes.len() < u32::MAX,
                bytes.len() >= 7,
                num_fields == bytes[6],
                db.metadata_offset == 0,
                db.bbox_offset == 0,
                old(db).metadata_offset == 0,
                old(db).bbox_offset == 0,
                field_index <= num_fields,
                db.field_names@.len() == field_index,
                db.notice == old(db).notice,
                db.data_offset == old(db).data_offset,
                field_names_from(bytes, 0, field_index as int, 7) == Ok::<(Seq<Seq<char>>, u32), (u8, StringFault)>((texts(db.field_names@), index)),
                field_names_from(bytes, 0, num_fields as int, 7) == match field_names_from(bytes, field_index as int, num_fields as int, index) {
                    Ok((rest, after)) => Ok((texts(db.field_names@) + rest, after)),
                    Err(e) => Err(e),
                },
            decreases num_fields - field_index,
        {
            let ghost before = db.field_names@;
            let ghost index0 = index;
            proof {
                lemma_names_snoc(bytes, 0, field_index as int, 7);
            }
            match parse_string(db, &mut index) {
                Ok(name) => {
                    db.field_names.push(name);
                    assert(texts(db.field_names@) =~= texts(before) + seq![name@]);
                    assert(texts(db.field_names@) =~= texts(before).push(name@));
                    assert(field_names_from(bytes, field_index as int, num_fields as int, index0) == match field_names_from(bytes, field_index + 1, num_fields as int, index) {
                        Ok((rest, after)) => Ok((seq![name@] + rest, after)),
                        Err(e) => Err(e),
                    });
                    proof {
                        match field_names_from(bytes, field_index + 1, num_fields as int, index) {
                            Ok((rest, after)) => {
                                assert(texts(before) + (seq![name@] + rest) =~= texts(db.field_names@) + rest);
                            },
                            Err(e) => {},
                        }
                    }
                },
                Err(err) => {
                    assert(field_names_from(bytes, field_index as int, num_fields as int, index0) == Err::<(Seq<Seq<char>>, u32), (u8, StringFault)>((field_index, err.fault())));
                    assert(field_names_from(bytes, 0, num_fields as int, 7) == Err::<(Seq<Seq<char>>, u32), (u8, StringFault)>((field_index, err.fault())));
                    return Err(Error::InvalidFieldName(field_index, err));
                },
            }
            field_index = field_index + 1;
        }
        assert(field_names_from(bytes, num_fields as int, num_fields as int, index) == Ok::<(Seq<Seq<char>>, u32), (u8, StringFault)>((Seq::empty(), index)));
        assert(texts(db.field_names@) + Seq::<Seq<char>>::empty() =~= texts(db.field_names@));
        let ghost notice_index = index;
        match parse_string(db, &mut index) {
            Ok(notice) => {
                db.notice = notice;
            },
            Err(err) => {
                return Err(Error::InvalidNotice(err));
            },
        }
        let ghost i2 = index;
        let mut tmp: u64 = 0;
        if ZDDecodeVariableLengthUnsigned(db, &mut index, &mut tmp) == 0 {
            return Err(Error::InvalidMetadataOffset);
        }
        db.metadata_offset = tmp as u32 + db.bbox_offset;
        if ZDDecodeVariableLengthUnsigned(db, &mut index, &mut tmp) == 0 {
            return Err(Error::InvalidDataOffset);
        }
        match (tmp as u32).checked_add(db.metadata_offset) {
            Some(v) => {
                db.data_offset = v;
            },
            None => {
                return Err(Error::InvalidDataOffset);
            },
        }
        if ZDDecodeVariableLengthUnsigned(db, &mut index, &mut tmp) == 0 {
            return Err(Error::InvalidPaddingOffset);
        }
        let metadata_offset = match db.metadata_offset.checked_add(index) {
            Some(v) => v,
            None => {
                return Err(Error::InvalidMetadataOffset);
            },
        };
        let data_offset = match db.data_offset.checked_add(index) {
            Some(v) => v,
            None => {
                return Err(Error::InvalidDataOffset);
            },
        };
        let length = match tmp.checked_add(data_offset as u64) {
            Some(v) => v,
            None => {
                return Err(Error::InvalidPaddingOffset);
            },
        };
        db.bbox_offset = db.bbox_offset + index;
        db.metadata_offset = metadata_offset;
        db.data_offset = data_offset;
        if length != db.mapping.len() as u64 {
            return Err(Error::LengthMismatch(length as usize));
        }
        Ok(())
    }
}

} // verus!
