use zone_detect::varint::{
    ZDDecodeUnsignedToSigned, ZDDecodeVariableLengthSigned, ZDDecodeVariableLengthUnsigned,
    ZDDecodeVariableLengthUnsignedReverse, ZDDecodePoint, ZDUnshuffle,
};
use zone_detect::{Database, TableType};

fn raw(bytes: Vec<u8>) -> Database {
    Database {
        bbox_offset: 0,
        data_offset: 0,
        field_names: Vec::new(),
        mapping: bytes,
        metadata_offset: 0,
        notice: String::new(),
        precision: 0,
        table_type: TableType::Country,
        version: 0,
    }
}

#[test]
fn unsigned_single_byte() {
    let db = raw(vec![0x05, 0x7f]);
    let mut index = 0u32;
    let mut value = 99u64;
    assert_eq!(ZDDecodeVariableLengthUnsigned(&db, &mut index, &mut value), 1);
    assert_eq!(value, 5);
    assert_eq!(index, 1);
}

#[test]
fn unsigned_multi_byte() {
    // 300 = 0b10_0101100 -> 0xac 0x02
    let db = raw(vec![0xac, 0x02, 0x01]);
    let mut index = 0u32;
    let mut value = 0u64;
    assert_eq!(ZDDecodeVariableLengthUnsigned(&db, &mut index, &mut value), 2);
    assert_eq!(value, 300);
    assert_eq!(index, 2);
}

#[test]
fn unsigned_past_end_changes_nothing() {
    let db = raw(vec![0x01]);
    let mut index = 1u32;
    let mut value = 7u64;
    assert_eq!(ZDDecodeVariableLengthUnsigned(&db, &mut index, &mut value), 0);
    assert_eq!(value, 7);
    assert_eq!(index, 1);
}

#[test]
fn unsigned_unterminated_moves_one_past_end() {
    let db = raw(vec![0x81, 0x81]);
    let mut index = 0u32;
    let mut value = 0u64;
    assert_eq!(ZDDecodeVariableLengthUnsigned(&db, &mut index, &mut value), 3);
    assert_eq!(value, 1 | (1 << 7));
    assert_eq!(index, 3);
}

#[test]
fn reverse_reads_back_what_forward_read() {
    // 0x05 | 0xac 0x02
    let db = raw(vec![0x05, 0xac, 0x02]);
    let mut index = 1u32;
    let mut forward = 0u64;
    let n = ZDDecodeVariableLengthUnsigned(&db, &mut index, &mut forward);
    assert_eq!(n, 2);
    let mut back_index = index - 1;
    let mut backward = 0u64;
    assert_eq!(ZDDecodeVariableLengthUnsignedReverse(&db, &mut back_index, &mut backward), 2);
    assert_eq!(backward, forward);
    assert_eq!(back_index, 0);
}

#[test]
fn reverse_fails_without_earlier_integer() {
    let db = raw(vec![0xac, 0x02]);
    let mut index = 1u32;
    let mut value = 3u64;
    assert_eq!(ZDDecodeVariableLengthUnsignedReverse(&db, &mut index, &mut value), 0);
    assert_eq!(index, 1);
    assert_eq!(value, 3);
}

#[test]
fn zigzag_signs() {
    assert_eq!(ZDDecodeUnsignedToSigned(0), 0);
    assert_eq!(ZDDecodeUnsignedToSigned(1), 0);
    assert_eq!(ZDDecodeUnsignedToSigned(2), 1);
    assert_eq!(ZDDecodeUnsignedToSigned(3), -1);
    assert_eq!(ZDDecodeUnsignedToSigned(10), 5);
    assert_eq!(ZDDecodeUnsignedToSigned(11), -5);
    assert_eq!(ZDDecodeUnsignedToSigned(u64::MAX), -(i64::MAX));
}

#[test]
fn signed_read_and_failure_gives_zero() {
    let db = raw(vec![0x07]);
    let mut index = 0u32;
    let mut value = 42i32;
    assert_eq!(ZDDecodeVariableLengthSigned(&db, &mut index, &mut value), 1);
    assert_eq!(value, -3);
    let mut value2 = 42i32;
    assert_eq!(ZDDecodeVariableLengthSigned(&db, &mut index, &mut value2), 0);
    assert_eq!(value2, 0);
}

#[test]
fn unshuffle_takes_even_bits() {
    assert_eq!(ZDUnshuffle(0b0101), 0b11);
    assert_eq!(ZDUnshuffle(0b1010), 0);
    assert_eq!(ZDUnshuffle(u64::MAX), u32::MAX);
    assert_eq!(ZDUnshuffle(0x5555_5555_5555_5555), u32::MAX);
}

#[test]
fn decode_point_splits_lat_lon() {
    // lat zig-zag 4 (=2) in even bits: bit 4; lon zig-zag 3 (=-1) in odd bits: bits 1 and 3
    let point: u64 = (1 << 4) | (1 << 1) | (1 << 3);
    assert_eq!(ZDDecodePoint(point), (2, -1));
}
