use zone_detect::lookup::{merge_hits, read_zone_fields, simple_result};
use zone_detect::polygon::{point_in_polygon, SegmentGeometry, ZDPointInBox};
use zone_detect::reader::{polygon_points, Reader, ZDReaderGetPoint};
use zone_detect::text::ZDParseString;
use zone_detect::{parse_string, Database, Error, LookupResult, StringParseError, TableType, ZoneDetectResult, ZoneMatch, ZoneMatchKind};

fn uvarint(mut v: u64, out: &mut Vec<u8>) {
    loop {
        let b = (v & 0x7f) as u8;
        v >>= 7;
        if v == 0 {
            out.push(b);
            break;
        }
        out.push(b | 0x80);
    }
}

fn zig(v: i64) -> u64 {
    if v < 0 {
        ((-v) as u64) * 2 + 1
    } else {
        (v as u64) * 2
    }
}

fn svarint(v: i64, out: &mut Vec<u8>) {
    uvarint(zig(v), out);
}

fn string(s: &str, out: &mut Vec<u8>) {
    uvarint(s.len() as u64, out);
    for b in s.bytes() {
        out.push(b ^ 0x80);
    }
}

fn shuffle(lat: i32, lon: i32) -> u64 {
    let a = zig(lat as i64);
    let b = zig(lon as i64);
    let mut w = 0u64;
    for k in 0..32 {
        w |= ((a >> k) & 1) << (2 * k);
        w |= ((b >> k) & 1) << (2 * k + 1);
    }
    w
}

/// A version 1 polygon: differences as interleaved integers, then the end marker.
fn polygon_v1(points: &[(i32, i32)], out: &mut Vec<u8>) {
    let mut prev = (0, 0);
    for &(lat, lon) in points {
        uvarint(shuffle(lat - prev.0, lon - prev.1), out);
        prev = (lat, lon);
    }
    uvarint(0, out);
    uvarint(0, out);
}

struct Zone {
    bbox: (i32, i32, i32, i32),
    fields: Vec<&'static str>,
    polygon: Vec<(i32, i32)>,
}

/// Lengths of the header and of the sections, for checking offsets.
struct Layout {
    header: usize,
    bbox: usize,
    meta: usize,
    data: usize,
}

fn build(table: u8, names: &[&str], notice: &str, zones: &[Zone]) -> (Vec<u8>, Layout) {
    let mut meta = Vec::new();
    let mut data = Vec::new();
    let mut bbox = Vec::new();
    let mut prev_meta = 0i64;
    let mut prev_data = 0u64;
    for z in zones {
        let meta_at = meta.len() as i64;
        for f in &z.fields {
            string(f, &mut meta);
        }
        let data_at = data.len() as u64;
        polygon_v1(&z.polygon, &mut data);
        svarint(z.bbox.0 as i64, &mut bbox);
        svarint(z.bbox.1 as i64, &mut bbox);
        svarint(z.bbox.2 as i64, &mut bbox);
        svarint(z.bbox.3 as i64, &mut bbox);
        svarint(meta_at - prev_meta, &mut bbox);
        uvarint(data_at - prev_data, &mut bbox);
        prev_meta = meta_at;
        prev_data = data_at;
    }
    let mut header = vec![b'P', b'L', b'B', table, 1, 21, names.len() as u8];
    for n in names {
        string(n, &mut header);
    }
    string(notice, &mut header);
    uvarint(bbox.len() as u64, &mut header);
    uvarint(meta.len() as u64, &mut header);
    uvarint(data.len() as u64, &mut header);
    let layout = Layout { header: header.len(), bbox: bbox.len(), meta: meta.len(), data: data.len() };
    let mut file = header;
    file.extend(bbox);
    file.extend(meta);
    file.extend(data);
    (file, layout)
}

fn square(lo: i32, hi: i32) -> Vec<(i32, i32)> {
    // clockwise seen with latitude up and longitude right: an inside polygon
    vec![(lo, lo), (hi, lo), (hi, hi), (lo, hi)]
}

fn timezone_db() -> (Vec<u8>, Layout) {
    build(
        b'T',
        &["TimezoneIdPrefix", "TimezoneId"],
        "test data",
        &[
            Zone { bbox: (-100, -100, 100, 100), fields: vec!["Europe/", "Amsterdam"], polygon: square(-100, 100) },
            Zone { bbox: (200, 200, 300, 300), fields: vec!["Asia/", "Tokyo"], polygon: square(200, 300) },
        ],
    )
}

fn no_geometry(n: usize) -> Vec<SegmentGeometry> {
    vec![SegmentGeometry { intersect_lon: 0, distance_sqr: u64::MAX }; n]
}

#[test]
fn header_fields_are_decoded() {
    let (bytes, layout) = timezone_db();
    let len = bytes.len();
    let db = Database::from_vec(bytes).unwrap();
    assert_eq!(db.bbox_offset as usize, layout.header);
    assert_eq!(db.metadata_offset as usize, layout.header + layout.bbox);
    assert_eq!(db.data_offset as usize, layout.header + layout.bbox + layout.meta);
    assert_eq!(db.data_offset as usize + layout.data, len);
    assert_eq!(db.notice, "test data".to_string());
    assert_eq!(db.table_type, TableType::Timezone);
    assert_eq!(db.version, 1);
    assert_eq!(db.precision, 21);
    assert_eq!(db.field_names, vec!["TimezoneIdPrefix".to_string(), "TimezoneId".to_string()]);
}

#[test]
fn truncated_header() {
    assert!(matches!(Database::from_vec(vec![b'P', b'L', b'B', b'T', 0]), Err(Error::TruncatedDatabase(5))));
}

#[test]
fn wrong_magic() {
    let (mut bytes, _) = timezone_db();
    bytes[1] = b'X';
    assert!(matches!(Database::from_vec(bytes), Err(Error::InvalidMagic(m)) if m == [b'P', b'X', b'B']));
}

#[test]
fn wrong_table_type() {
    let (mut bytes, _) = timezone_db();
    bytes[3] = b'X';
    assert!(matches!(Database::from_vec(bytes), Err(Error::InvalidTableType(b'X'))));
}

#[test]
fn country_table_type() {
    let (mut bytes, _) = timezone_db();
    bytes[3] = b'C';
    assert_eq!(Database::from_vec(bytes).unwrap().table_type, TableType::Country);
}

#[test]
fn unsupported_version() {
    let (mut bytes, _) = timezone_db();
    bytes[4] = 2;
    assert!(matches!(Database::from_vec(bytes), Err(Error::InvalidVersion(2))));
}

#[test]
fn length_mismatch() {
    let (mut bytes, _) = timezone_db();
    let len = bytes.len();
    bytes.push(0);
    assert!(matches!(Database::from_vec(bytes), Err(Error::LengthMismatch(l)) if l == len));
}

#[test]
fn field_name_past_end() {
    // one field whose length runs past the end of the bytes
    let bytes = vec![b'P', b'L', b'B', b'T', 0, 21, 1, 5, 0xc1];
    assert!(matches!(
        Database::from_vec(bytes),
        Err(Error::InvalidFieldName(0, StringParseError::EncodingError))
    ));
}

#[test]
fn notice_not_utf8() {
    // no fields; the notice is one byte 0xff (stored flipped as 0x7f)
    let bytes = vec![b'P', b'L', b'B', b'T', 0, 21, 0, 1, 0x7f, 0, 0, 0];
    assert!(matches!(Database::from_vec(bytes), Err(Error::InvalidNotice(StringParseError::InvalidUtf8(_)))));
}

#[test]
fn missing_section_sizes() {
    let base = vec![b'P', b'L', b'B', b'T', 0, 21, 0, 0];
    assert!(matches!(Database::from_vec(base.clone()), Err(Error::InvalidMetadataOffset)));
    let mut one = base.clone();
    one.push(0);
    assert!(matches!(Database::from_vec(one), Err(Error::InvalidDataOffset)));
    let mut two = base.clone();
    two.push(0);
    two.push(0);
    assert!(matches!(Database::from_vec(two), Err(Error::InvalidPaddingOffset)));
    let mut three = base;
    three.push(0);
    three.push(0);
    three.push(0);
    let db = Database::from_vec(three).unwrap();
    assert_eq!(db.bbox_offset, 11);
    assert_eq!(db.metadata_offset, 11);
    assert_eq!(db.data_offset, 11);
}

#[test]
fn local_string_and_bad_reference() {
    let mut m = Vec::new();
    string("abc", &mut m); // positions 0..4
    uvarint(256 + 4, &mut m); // positions 4..6: refers to metadata_offset + 4, itself
    m.push(0);
    let db = Database {
        bbox_offset: 0,
        data_offset: 0,
        field_names: Vec::new(),
        mapping: m,
        metadata_offset: 0,
        notice: String::new(),
        precision: 0,
        table_type: TableType::Country,
        version: 1,
    };
    let mut index = 0u32;
    assert_eq!(ZDParseString(&db, &mut index), Some(b"abc".to_vec()));
    assert_eq!(index, 4);
    // the referenced length (260) is over 256: rejected, read position after the reference
    let mut index2 = 4u32;
    assert_eq!(ZDParseString(&db, &mut index2), None);
    assert_eq!(index2, 6);
}

#[test]
fn remote_string_in_metadata() {
    let mut m = Vec::new();
    // position 0: a reference 256 + 3 -> metadata_offset (0) + 3
    uvarint(256 + 3, &mut m);
    m.push(0);
    string("xy", &mut m); // at 3
    let db = Database {
        bbox_offset: 0,
        data_offset: 0,
        field_names: Vec::new(),
        mapping: m,
        metadata_offset: 0,
        notice: String::new(),
        precision: 0,
        table_type: TableType::Country,
        version: 1,
    };
    let mut index = 0u32;
    assert_eq!(parse_string(&db, &mut index).unwrap(), "xy".to_string());
    // the read position stays after the reference
    assert_eq!(index, 2);
}

#[test]
fn string_running_past_end_is_rejected() {
    let db = Database {
        bbox_offset: 0,
        data_offset: 0,
        field_names: Vec::new(),
        mapping: vec![3, 0xe1],
        metadata_offset: 0,
        notice: String::new(),
        precision: 0,
        table_type: TableType::Country,
        version: 1,
    };
    let mut index = 0u32;
    assert!(matches!(parse_string(&db, &mut index), Err(StringParseError::EncodingError)));
    assert_eq!(index, 1);
}

#[test]
fn reader_yields_points_and_closes() {
    let (bytes, _) = timezone_db();
    let db = Database::from_vec(bytes).unwrap();
    let start = db.data_offset;
    let (points, code) = polygon_points(&db, start);
    assert_eq!(code, 0);
    assert_eq!(points, vec![(-100, -100), (100, -100), (100, 100), (-100, 100), (-100, -100)]);
}

#[test]
fn reader_call_by_call() {
    let (bytes, _) = timezone_db();
    let db = Database::from_vec(bytes).unwrap();
    let mut reader = Reader::new(&db, db.data_offset);
    let mut lat = 7;
    let mut lon = 7;
    assert_eq!(ZDReaderGetPoint(&mut reader, &mut lat, &mut lon), 1);
    assert_eq!((lat, lon), (-100, -100));
    for _ in 0..4 {
        assert_eq!(ZDReaderGetPoint(&mut reader, &mut lat, &mut lon), 1);
    }
    assert_eq!((lat, lon), (-100, -100));
    assert_eq!(ZDReaderGetPoint(&mut reader, &mut lat, &mut lon), 0);
    assert_eq!((lat, lon), (-100, -100));
}

#[test]
fn reader_reports_truncated_polygon() {
    let mut data = Vec::new();
    uvarint(shuffle(5, 5), &mut data);
    let db = Database {
        bbox_offset: 0,
        data_offset: 0,
        field_names: Vec::new(),
        mapping: data,
        metadata_offset: 0,
        notice: String::new(),
        precision: 21,
        table_type: TableType::Timezone,
        version: 1,
    };
    let (points, code) = polygon_points(&db, 0);
    assert_eq!(points, vec![(5, 5)]);
    assert_eq!(code, -1);
}

#[test]
fn reader_replays_a_range_backwards() {
    // data: [0] a terminator byte, then a stored range of two differences,
    // then a polygon that starts at (1, 1) and replays that range backwards.
    let mut data = vec![0x00];
    let range_start = data.len() as u64;
    uvarint(shuffle(2, 0), &mut data);
    uvarint(shuffle(0, 3), &mut data);
    let range_len = data.len() as u64 - range_start;
    let poly = data.len() as u32;
    uvarint(shuffle(1, 1), &mut data);
    uvarint(0, &mut data);
    uvarint(1, &mut data);
    uvarint(range_start + range_len, &mut data);
    svarint(-(range_len as i64), &mut data);
    uvarint(0, &mut data);
    uvarint(0, &mut data);
    let db = Database {
        bbox_offset: 0,
        data_offset: 0,
        field_names: Vec::new(),
        mapping: data,
        metadata_offset: 0,
        notice: String::new(),
        precision: 21,
        table_type: TableType::Timezone,
        version: 1,
    };
    let (points, code) = polygon_points(&db, poly);
    assert_eq!(code, 0);
    // backwards and negated: first -(0, 3), then -(2, 0)
    assert_eq!(points, vec![(1, 1), (1, -2), (-1, -2), (1, 1)]);
}

fn v0_db(data: Vec<u8>) -> Database {
    Database {
        bbox_offset: 0,
        data_offset: 0,
        field_names: Vec::new(),
        mapping: data,
        metadata_offset: 0,
        notice: String::new(),
        precision: 21,
        table_type: TableType::Timezone,
        version: 0,
    }
}

#[test]
fn reader_version0_polygon() {
    let mut data = Vec::new();
    uvarint(3, &mut data);
    for (a, b) in [(1, 1), (2, 0), (0, -2), (5, 5)] {
        svarint(a, &mut data);
        svarint(b, &mut data);
    }
    let db = v0_db(data);
    let (points, code) = polygon_points(&db, 0);
    assert_eq!(code, 0);
    assert_eq!(points, vec![(1, 1), (3, 1), (3, -1), (1, 1)]);
}

#[test]
fn reader_version0_skips_zero_steps() {
    let mut data = Vec::new();
    uvarint(3, &mut data);
    for (a, b) in [(1, 1), (0, 0), (2, 0), (7, 7)] {
        svarint(a, &mut data);
        svarint(b, &mut data);
    }
    let db = v0_db(data);
    let (points, code) = polygon_points(&db, 0);
    assert_eq!(code, 0);
    assert_eq!(points, vec![(1, 1), (3, 1), (1, 1)]);
}

#[test]
fn reader_version0_zero_closing_step() {
    // a zero step where the closing point is due ends the polygon without it
    let mut data = Vec::new();
    uvarint(2, &mut data);
    for (a, b) in [(5, 5), (1, 1), (0, 0)] {
        svarint(a, &mut data);
        svarint(b, &mut data);
    }
    let db = v0_db(data);
    let (points, code) = polygon_points(&db, 0);
    assert_eq!(code, 0);
    assert_eq!(points, vec![(5, 5), (6, 6)]);
}

#[test]
fn reader_version0_zero_count_is_malformed() {
    let db = v0_db(vec![0]);
    let (points, code) = polygon_points(&db, 0);
    assert_eq!(code, -1);
    assert!(points.is_empty());
}

#[test]
fn point_inside_and_outside() {
    let verts = vec![(-10, -10), (10, -10), (10, 10), (-10, 10), (-10, -10)];
    let geo = no_geometry(verts.len());
    let mut dist = u64::MAX;
    assert_eq!(point_in_polygon(&verts, 0, &geo, 0, 0, &mut dist), LookupResult::InZone);
    let mut dist2 = u64::MAX;
    assert_eq!(point_in_polygon(&verts, 0, &geo, 50, 50, &mut dist2), LookupResult::NotInZone);
    // the other orientation is a hole
    let mut rev = verts.clone();
    rev.reverse();
    let mut dist3 = u64::MAX;
    assert_eq!(point_in_polygon(&rev, 0, &geo, 0, 0, &mut dist3), LookupResult::InExcludedZone);
}

#[test]
fn point_on_vertex_and_segment() {
    let verts = vec![(-10, -10), (10, -10), (10, 10), (-10, 10), (-10, -10)];
    let geo = no_geometry(verts.len());
    let mut dist = 77;
    assert_eq!(point_in_polygon(&verts, 0, &geo, 10, 10, &mut dist), LookupResult::OnBorderVertex);
    assert_eq!(dist, 0);
    let mut dist2 = 77;
    assert_eq!(point_in_polygon(&verts, 0, &geo, 0, -10, &mut dist2), LookupResult::OnBorderSegment);
    assert_eq!(dist2, 0);
}

#[test]
fn distance_is_the_smallest_figure() {
    let verts = vec![(-10, -10), (10, -10), (10, 10), (-10, 10), (-10, -10)];
    let geo: Vec<SegmentGeometry> = [9u64, 8, 3, 5, 4]
        .iter()
        .map(|&d| SegmentGeometry { intersect_lon: 0, distance_sqr: d })
        .collect();
    let mut dist = u64::MAX;
    assert_eq!(point_in_polygon(&verts, 0, &geo, 1, 1, &mut dist), LookupResult::InZone);
    // the first vertex starts no segment, so its figure is not used
    assert_eq!(dist, 3);
}

#[test]
fn parse_error_keeps_distance() {
    let verts = vec![(-10, -10), (10, -10)];
    let geo = vec![
        SegmentGeometry { intersect_lon: 0, distance_sqr: 1 },
        SegmentGeometry { intersect_lon: 0, distance_sqr: 6 },
    ];
    let mut dist = 50;
    assert_eq!(point_in_polygon(&verts, -1, &geo, 0, 0, &mut dist), LookupResult::ParseError);
    assert_eq!(dist, 6);
}

#[test]
fn jump_across_quadrants_uses_intersection() {
    // from north-east (quadrant 0) straight to south-west (quadrant 2)
    let verts = vec![(10, 10), (-10, -10)];
    let mut on = vec![SegmentGeometry { intersect_lon: 0, distance_sqr: 0 }; 2];
    let mut dist = u64::MAX;
    assert_eq!(point_in_polygon(&verts, 0, &on, 0, 0, &mut dist), LookupResult::OnBorderSegment);
    on[1].intersect_lon = 5;
    let mut dist2 = u64::MAX;
    // crossing east of the point going south: winding +2, not a closed result
    assert_eq!(point_in_polygon(&verts, 0, &on, 0, 0, &mut dist2), LookupResult::OnBorderSegment);
    assert_eq!(dist2, 0);
}

#[test]
fn box_test() {
    assert!(ZDPointInBox(0, 5, 10, 10, 5, 0));
    assert!(!ZDPointInBox(0, 11, 10, 0, 5, 10));
    assert!(ZDPointInBox(3, 3, 3, 4, 4, 4));
}

#[test]
fn merge_groups_by_zone() {
    let mut hits = vec![
        (0, 7, LookupResult::InZone),
        (1, 9, LookupResult::InZone),
        (2, 7, LookupResult::InExcludedZone),
        (3, 9, LookupResult::OnBorderVertex),
        (4, 11, LookupResult::InZone),
        (5, 11, LookupResult::InZone),
    ];
    let out = merge_hits(&mut hits);
    assert_eq!(out, vec![(1, 9, LookupResult::OnBorderVertex), (4, 11, LookupResult::InZone)]);
    assert_eq!(hits[0].2, LookupResult::Ignore);
    assert_eq!(hits[2].2, LookupResult::Ignore);
    assert_eq!(hits[3].2, LookupResult::Ignore);
}

#[test]
fn merge_twice_changes_nothing() {
    let mut hits = vec![
        (0, 1, LookupResult::InExcludedZone),
        (1, 2, LookupResult::OnBorderSegment),
        (2, 1, LookupResult::InZone),
        (3, 1, LookupResult::InZone),
    ];
    let once = merge_hits(&mut hits);
    let mut again = once.clone();
    let twice = merge_hits(&mut again);
    assert_eq!(once, twice);
    assert_eq!(once, vec![(0, 1, LookupResult::InZone), (1, 2, LookupResult::OnBorderSegment)]);
}

#[test]
fn lookup_finds_the_zone() {
    let (bytes, _) = timezone_db();
    let db = Database::from_vec(bytes).unwrap();
    let polys = db.candidate_polygons(10, 20);
    assert_eq!(polys.len(), 1);
    assert_eq!(polys[0].polygon_id, 0);
    let geometry: Vec<Vec<SegmentGeometry>> = polys.iter().map(|p| no_geometry(p.vertices.len())).collect();
    let (results, _) = db.resolve_lookup(10, 20, &polys, &geometry).unwrap();
    assert_eq!(results.len(), 1);
    assert_eq!(results[0].lookup_result, LookupResult::InZone);
    assert_eq!(results[0].meta_id, 0);
    assert_eq!(
        results[0].fields,
        vec![
            ("TimezoneIdPrefix".to_string(), "Europe/".to_string()),
            ("TimezoneId".to_string(), "Amsterdam".to_string()),
        ]
    );
    assert_eq!(simple_result(db.table_type, &results), Some("Europe/Amsterdam".to_string()));
}

#[test]
fn lookup_second_zone() {
    let (bytes, _) = timezone_db();
    let db = Database::from_vec(bytes).unwrap();
    let polys = db.candidate_polygons(250, 250);
    assert_eq!(polys.len(), 1);
    assert_eq!(polys[0].polygon_id, 1);
    let geometry: Vec<Vec<SegmentGeometry>> = polys.iter().map(|p| no_geometry(p.vertices.len())).collect();
    let (results, _) = db.resolve_lookup(250, 250, &polys, &geometry).unwrap();
    assert_eq!(simple_result(db.table_type, &results), Some("Asia/Tokyo".to_string()));
}

#[test]
fn lookup_nowhere() {
    let (bytes, _) = timezone_db();
    let db = Database::from_vec(bytes).unwrap();
    // south of every box: the scan stops at once
    assert_eq!(db.candidate_polygons(-500, 0).len(), 0);
    // inside the first box's latitudes, outside its longitudes
    let polys = db.candidate_polygons(0, 150);
    assert_eq!(polys.len(), 0);
    let (results, dist) = db.resolve_lookup(0, 150, &polys, &Vec::new()).unwrap();
    assert_eq!(results.len(), 0);
    assert_eq!(dist, u64::MAX);
    assert_eq!(simple_result(db.table_type, &results), None);
}

#[test]
fn lookup_on_border() {
    let (bytes, _) = timezone_db();
    let db = Database::from_vec(bytes).unwrap();
    let polys = db.candidate_polygons(100, 0);
    let geometry: Vec<Vec<SegmentGeometry>> = polys.iter().map(|p| no_geometry(p.vertices.len())).collect();
    let (results, dist) = db.resolve_lookup(100, 0, &polys, &geometry).unwrap();
    assert_eq!(results.len(), 1);
    assert_eq!(results[0].lookup_result, LookupResult::OnBorderSegment);
    assert_eq!(dist, 0);
}

#[test]
fn country_name_field() {
    let r = ZoneDetectResult {
        lookup_result: LookupResult::InZone,
        polygon_id: 0,
        meta_id: 0,
        fields: vec![("Name".to_string(), "Nowhere".to_string())],
    };
    assert_eq!(simple_result(TableType::Country, &vec![r.clone()]), Some("Nowhere".to_string()));
    // a timezone table needs both timezone fields
    assert_eq!(simple_result(TableType::Timezone, &vec![r]), None);
}

#[test]
fn later_field_shadows_earlier() {
    let r = ZoneDetectResult {
        lookup_result: LookupResult::InZone,
        polygon_id: 0,
        meta_id: 0,
        fields: vec![
            ("A".to_string(), "1".to_string()),
            ("B".to_string(), "2".to_string()),
            ("A".to_string(), "3".to_string()),
        ],
    };
    assert_eq!(r.get(&"A".to_string()), Some("3".to_string()));
    assert_eq!(r.get(&"B".to_string()), Some("2".to_string()));
    assert_eq!(r.get(&"C".to_string()), None);
}

#[test]
fn result_codes() {
    assert_eq!(LookupResult::Ignore.code(), -3);
    assert_eq!(LookupResult::End.code(), -2);
    assert_eq!(LookupResult::ParseError.code(), -1);
    assert_eq!(LookupResult::NotInZone.code(), 0);
    assert_eq!(LookupResult::InZone.code(), 1);
    assert_eq!(LookupResult::InExcludedZone.code(), 2);
    assert_eq!(LookupResult::OnBorderVertex.code(), 3);
    assert_eq!(LookupResult::OnBorderSegment.code(), 4);
}

#[test]
fn repeated_field_name_keeps_last_value() {
    let (bytes, _) = build(
        b'T',
        &["A", "B", "A"],
        "n",
        &[Zone { bbox: (-10, -10, 10, 10), fields: vec!["1", "2", "3"], polygon: square(-10, 10) }],
    );
    let db = Database::from_vec(bytes).unwrap();
    assert_eq!(
        read_zone_fields(&db, 0),
        Some(vec![("A".to_string(), "3".to_string()), ("B".to_string(), "2".to_string())])
    );
}

#[test]
fn lookup_ignores_distance_figures() {
    let (bytes, _) = timezone_db();
    let db = Database::from_vec(bytes).unwrap();
    let polys = db.candidate_polygons(10, 20);
    let far: Vec<Vec<SegmentGeometry>> = polys.iter().map(|p| no_geometry(p.vertices.len())).collect();
    let near: Vec<Vec<SegmentGeometry>> = polys
        .iter()
        .map(|p| vec![SegmentGeometry { intersect_lon: 0, distance_sqr: 5 }; p.vertices.len()])
        .collect();
    let (a, dist_a) = db.resolve_lookup(10, 20, &polys, &far).unwrap();
    let (b, dist_b) = db.resolve_lookup(10, 20, &polys, &near).unwrap();
    assert_eq!(a.len(), b.len());
    for (x, y) in a.iter().zip(b.iter()) {
        assert_eq!(x.lookup_result, y.lookup_result);
        assert_eq!(x.polygon_id, y.polygon_id);
        assert_eq!(x.meta_id, y.meta_id);
        assert_eq!(x.fields, y.fields);
    }
    assert_eq!(dist_a, u64::MAX);
    assert_eq!(dist_b, 5);
}

#[test]
fn reader_version0_single_vertex_ring() {
    let mut data = Vec::new();
    uvarint(1, &mut data);
    for (a, b) in [(4, 2), (9, 9)] {
        svarint(a, &mut data);
        svarint(b, &mut data);
    }
    let db = v0_db(data);
    let (points, code) = polygon_points(&db, 0);
    assert_eq!(code, 0);
    assert_eq!(points, vec![(4, 2), (4, 2)]);
}

#[test]
fn reversed_ring_swaps_inside_and_excluded() {
    // the first segment jumps from north-east to south-west of the target,
    // crossing its latitude at longitude 7
    let ring = vec![(10, 20), (-10, -5), (-10, 30), (10, 20)];
    let fig = |ix: i32| SegmentGeometry { intersect_lon: ix, distance_sqr: u64::MAX };
    let geo = vec![fig(0), fig(7), fig(0), fig(0)];
    let mut dist = u64::MAX;
    assert_eq!(point_in_polygon(&ring, 0, &geo, 0, 10, &mut dist), LookupResult::InExcludedZone);
    let mut rev = ring.clone();
    rev.reverse();
    // each segment keeps its figure: the one ending at vertex j now ended at vertex 4 - j
    let rev_geo = vec![fig(0), geo[3], geo[2], geo[1]];
    let mut dist2 = u64::MAX;
    assert_eq!(point_in_polygon(&rev, 0, &rev_geo, 0, 10, &mut dist2), LookupResult::InZone);
}

fn header_with_sizes(meta: u64, data: u64, padding: u64) -> Vec<u8> {
    let mut h = vec![b'P', b'L', b'B', b'T', 0, 21, 0, 0];
    uvarint(meta, &mut h);
    uvarint(data, &mut h);
    uvarint(padding, &mut h);
    h
}

#[test]
fn section_offsets_that_overflow_are_refused() {
    // metadata and data sizes sum past 32 bits
    assert!(matches!(Database::from_vec(header_with_sizes(10, 0xffff_ffff, 0)), Err(Error::InvalidDataOffset)));
    // the metadata offset, header included, passes 32 bits
    assert!(matches!(Database::from_vec(header_with_sizes(0xffff_ffff, 0, 0)), Err(Error::InvalidMetadataOffset)));
    // the data offset, header included, passes 32 bits
    assert!(matches!(Database::from_vec(header_with_sizes(0, 0xffff_fff8, 0)), Err(Error::InvalidDataOffset)));
    // the total length passes 64 bits
    assert!(matches!(Database::from_vec(header_with_sizes(0, 0, u64::MAX)), Err(Error::InvalidPaddingOffset)));
    // a size that fits but does not match the length
    let h = header_with_sizes(0, 0, 5);
    let header_len = h.len();
    match Database::from_vec(h) {
        Err(Error::LengthMismatch(n)) => assert_eq!(n, header_len + 5),
        _ => panic!("expected a length mismatch"),
    }
}

#[test]
fn sections_follow_the_header_in_order() {
    let mut h = header_with_sizes(2, 3, 4);
    let header_len = h.len() as u32;
    h.extend([0u8; 9]);
    let db = Database::from_vec(h).unwrap();
    assert_eq!(db.bbox_offset, header_len);
    assert_eq!(db.metadata_offset, header_len + 2);
    assert_eq!(db.data_offset, header_len + 5);
    assert_eq!(db.field_names.len(), 0);
}

#[test]
fn results_become_zone_matches() {
    let (bytes, _) = timezone_db();
    let db = Database::from_vec(bytes).unwrap();
    let polys = db.candidate_polygons(10, 20);
    let geometry: Vec<Vec<SegmentGeometry>> = polys.iter().map(|p| no_geometry(p.vertices.len())).collect();
    let (results, _) = db.resolve_lookup(10, 20, &polys, &geometry).unwrap();
    let m = ZoneMatch::from_result(results[0].clone()).unwrap();
    assert_eq!(m.kind, ZoneMatchKind::InZone);
    assert_eq!(m.zone.polygon_id, 0);
    assert_eq!(m.zone.meta_id, 0);
    assert_eq!(m.zone.get(&"TimezoneId".to_string()), Some("Amsterdam".to_string()));
    let border = ZoneDetectResult {
        lookup_result: LookupResult::OnBorderVertex,
        polygon_id: 3,
        meta_id: 4,
        fields: Vec::new(),
    };
    assert_eq!(ZoneMatch::from_result(border).unwrap().kind, ZoneMatchKind::OnBorderVertex);
    let ignored = ZoneDetectResult { lookup_result: LookupResult::Ignore, polygon_id: 0, meta_id: 0, fields: Vec::new() };
    assert!(ZoneMatch::from_result(ignored).is_none());
}

#[test]
fn reader_stays_at_the_end() {
    let mut data = Vec::new();
    polygon_v1(&[(1, 1), (2, 3)], &mut data);
    let db = v0_db(data);
    let db = Database { version: 1, ..db };
    let mut reader = Reader::new(&db, 0);
    let (mut lat, mut lon) = (0, 0);
    let mut codes = Vec::new();
    for _ in 0..5 {
        codes.push(ZDReaderGetPoint(&mut reader, &mut lat, &mut lon));
    }
    assert_eq!(codes, vec![1, 1, 1, 0, 0]);
    assert_eq!((lat, lon), (1, 1));
}
