//! Finding the zones that contain a location.
//!
//! The bounding-box section lists each polygon's box, its metadata and its
//! data position, as differences from the previous entry, sorted by minimum
//! latitude. Polygons whose box holds the location are read and tested; the
//! results are merged per zone and labelled with the zone's metadata fields.
use crate::polygon::{
    lemma_polygon_result_kinds, lemma_result_distance, lemma_result_ignores_distance, on_border,
    point_in_polygon, polygon_result, same_crossings, SegmentGeometry,
};
use crate::reader::{polygon_points, Reader};
use crate::varint::{
    decode_uvarint, lemma_decode_bounds, svarint_i32, ZDDecodeVariableLengthSigned,
    ZDDecodeVariableLengthUnsigned,
};
use crate::header::texts;
use crate::text::zd_string_next;
use crate::{field_value, pair_texts, parse_string, string_text, Database, LookupResult, TableType, ZoneDetectResult};
use vstd::prelude::*;

verus! {

/// One entry of the bounding-box section.
pub struct BoxEntry {
    pub min_lat: i32,
    pub min_lon: i32,
    pub max_lat: i32,
    pub max_lon: i32,
    pub meta_delta: i32,
    pub polygon_delta: u64,
}

/// Reads the bounding-box entry at `index`: its fields and the position after it.
pub open spec fn box_entry(bytes: Seq<u8>, index: int) -> Option<(BoxEntry, int)> {
    match decode_uvarint(bytes, index) {
        None => None,
        Some((_, i1)) => match decode_uvarint(bytes, i1) {
            None => None,
            Some((_, i2)) => match decode_uvarint(bytes, i2) {
                None => None,
                Some((_, i3)) => match decode_uvarint(bytes, i3) {
                    None => None,
                    Some((_, i4)) => match decode_uvarint(bytes, i4) {
                        None => None,
                        Some((_, i5)) => match decode_uvarint(bytes, i5) {
                            None => None,
                            Some((pd, i6)) => Some((
                                BoxEntry {
                                    min_lat: svarint_i32(bytes, index),
                                    min_lon: svarint_i32(bytes, i1),
                                    max_lat: svarint_i32(bytes, i2),
                                    max_lon: svarint_i32(bytes, i3),
                                    meta_delta: svarint_i32(bytes, i4),
                                    polygon_delta: pd,
                                },
                                i6,
                            )),
                        },
                    },
                },
            },
        },
    }
}

/// A polygon whose box may hold the location: its number, the position of
/// its metadata (relative to the metadata section) and of its data.
pub struct Candidate {
    pub polygon_id: u32,
    pub meta_id: u32,
    pub data_index: u32,
}

/// Scans the bounding-box section from `index` (below `end`) for the boxes
/// holding `(lat, lon)`; `polygon_id`, `meta` and `poly` are the running
/// polygon number, metadata position and data position. The scan stops at
/// the end of the section, at an entry that cannot be read, or at the first
/// box that starts north of the location. (Reading always moves forward, by
/// `lemma_box_entry_bounds`, so the scan's final fallback branch is never
/// taken in a database below `u32::MAX` bytes.)
pub open spec fn box_scan(
    bytes: Seq<u8>,
    data_offset: u32,
    end: u32,
    lat: i32,
    lon: i32,
    index: u32,
    polygon_id: u32,
    meta: u32,
    poly: u32,
) -> Seq<Candidate>
    decreases 0x1_0000_0000 - index,
{
    if index >= end {
        Seq::empty()
    } else {
        match box_entry(bytes, index as int) {
            None => Seq::empty(),
            Some((e, next)) => {
                let meta2 = vstd::wrapping::u32_specs::wrapping_add(meta, e.meta_delta as u32);
                let poly2 = vstd::wrapping::u32_specs::wrapping_add(poly, e.polygon_delta as u32);
                if lat < e.min_lat {
                    Seq::empty()
                } else if index < next < 0x1_0000_0000 {
                    let rest = box_scan(
                        bytes,
                        data_offset,
                        end,
                        lat,
                        lon,
                        next as u32,
                        vstd::wrapping::u32_specs::wrapping_add(polygon_id, 1),
                        meta2,
                        poly2,
                    );
                    if lat <= e.max_lat && lon >= e.min_lon && lon <= e.max_lon {
                        seq![Candidate {
                            polygon_id,
                            meta_id: meta2,
                            data_index: vstd::wrapping::u32_specs::wrapping_add(data_offset, poly2),
                        }] + rest
                    } else {
                        rest
                    }
                } else {
                    Seq::empty()
                }
            },
        }
    }
}

/// The polygons whose boxes hold `(lat, lon)`, in the order of the section.
pub open spec fn candidates(db: &Database, lat: i32, lon: i32) -> Seq<Candidate> {
    box_scan(db.mapping@, db.data_offset, db.metadata_offset, lat, lon, db.bbox_offset, 0, 0, 0)
}

/// A polygon read from the database, with the code that ended its reading.
pub struct ZonePolygon {
    pub polygon_id: u32,
    pub meta_id: u32,
    pub vertices: Vec<(i32, i32)>,
    pub end_code: i32,
}

/// Whether a read polygon is the candidate `c` of `db`.
pub open spec fn read_as(p: ZonePolygon, db: &Database, c: Candidate) -> bool {
    &&& p.polygon_id == c.polygon_id
    &&& p.meta_id == c.meta_id
    &&& (p.vertices@, p.end_code) == Reader::start(db, c.data_index).points()
}

/// Reading a bounding-box entry moves forward, to at most one past the end.
pub proof fn lemma_box_entry_bounds(bytes: Seq<u8>, index: int)
    ensures
        box_entry(bytes, index) matches Some((_, next)) ==> index < next <= bytes.len() + 1,
{
    lemma_decode_bounds(bytes, index);
    if let Some((_, i1)) = decode_uvarint(bytes, index) {
        lemma_decode_bounds(bytes, i1);
        if let Some((_, i2)) = decode_uvarint(bytes, i1) {
            lemma_decode_bounds(bytes, i2);
            if let Some((_, i3)) = decode_uvarint(bytes, i2) {
                lemma_decode_bounds(bytes, i3);
                if let Some((_, i4)) = decode_uvarint(bytes, i3) {
                    lemma_decode_bounds(bytes, i4);
                    if let Some((_, i5)) = decode_uvarint(bytes, i4) {
                        lemma_decode_bounds(bytes, i5);
                    }
                }
            }
        }
    }
}

/// Reads the bounding-box entry at `*index`, or `None` when it cannot be read.
fn read_box_entry(db: &Database, index: &mut u32) -> (r: Option<BoxEntry>)
    requires
        db.addressable(),
    ensures
        match box_entry(db.mapping@, *old(index) as int) {
            None => r is None,
            Some((e, next)) => r == Some(e) && *final(index) == next,
        },
{
    let mut min_lat: i32 = 0;
    let mut min_lon: i32 = 0;
    let mut max_lat: i32 = 0;
    let mut max_lon: i32 = 0;
    let mut meta_delta: i32 = 0;
    let mut polygon_delta: u64 = 0;
    if ZDDecodeVariableLengthSigned(db, index, &mut min_lat) == 0 {
        return None;
    }
    if ZDDecodeVariableLengthSigned(db, index, &mut min_lon) == 0 {
        return None;
    }
    if ZDDecodeVariableLengthSigned(db, index, &mut max_lat) == 0 {
        return None;
    }
    if ZDDecodeVariableLengthSigned(db, index, &mut max_lon) == 0 {
        return None;
    }
    if ZDDecodeVariableLengthSigned(db, index, &mut meta_delta) == 0 {
        return None;
    }
    if ZDDecodeVariableLengthUnsigned(db, index, &mut polygon_delta) == 0 {
        return None;
    }
    Some(BoxEntry { min_lat, min_lon, max_lat, max_lon, meta_delta, polygon_delta })
}

impl Database {
    /// Reads the polygons whose bounding boxes hold the location `(lat, lon)`,
    /// given in fixed point.
    pub fn candidate_polygons(&self, lat: i32, lon: i32) -> (r: Vec<ZonePolygon>)
        requires
            self.addressable(),
            self.version < 2,
        ensures
            r@.len() == candidates(self, lat, lon).len(),
            forall|i: int| 0 <= i < r@.len() ==> read_as(#[trigger] r@[i], self, candidates(self, lat, lon)[i]),
    {
        let ghost bytes = self.mapping@;
        let mut bbox_index: u32 = self.bbox_offset;
        let mut metadata_index: u32 = 0;
        let mut polygon_index: u32 = 0;
        let mut polygon_id: u32 = 0;
        let mut out: Vec<ZonePolygon> = Vec::new();
        let ghost mut found: Seq<Candidate> = Seq::empty();
        loop
            invariant_except_break
                self.addressable(),
                self.version < 2,
                bytes == self.mapping@,
                candidates(self, lat, lon) == found + box_scan(
                    bytes,
                    self.data_offset,
                    self.metadata_offset,
                    lat,
                    lon,
                    bbox_index,
                    polygon_id,
                    metadata_index,
                    polygon_index,
                ),
                found.len() == out@.len(),
                forall|i: int| 0 <= i < out@.len() ==> read_as(#[trigger] out@[i], self, found[i]),
            ensures
                candidates(self, lat, lon) == found,
                found.len() == out@.len(),
                forall|i: int| 0 <= i < out@.len() ==> read_as(#[trigger] out@[i], self, found[i]),
            decreases 0x1_0000_0000 - bbox_index,
        {
            if bbox_index >= self.metadata_offset {
                assert(found + Seq::<Candidate>::empty() =~= found);
                break;
            }
            let ghost entry_index = bbox_index;
            proof {
                lemma_box_entry_bounds(bytes, entry_index as int);
            }
            let entry = match read_box_entry(self, &mut bbox_index) {
                None => {
                    assert(found + Seq::<Candidate>::empty() =~= found);
                    break;
                },
                Some(e) => e,
            };
            metadata_index = metadata_index.wrapping_add(entry.meta_delta as u32);
            polygon_index = polygon_index.wrapping_add(entry.polygon_delta as u32);
            if lat < entry.min_lat {
                assert(found + Seq::<Candidate>::empty() =~= found);
                break;
            }
            if lat <= entry.max_lat && lon >= entry.min_lon && lon <= entry.max_lon {
                let data_index = self.data_offset.wrapping_add(polygon_index);
                let (vertices, end_code) = polygon_points(self, data_index);
                let ghost c = Candidate { polygon_id, meta_id: metadata_index, data_index };
                let zp = ZonePolygon { polygon_id, meta_id: metadata_index, vertices, end_code };
                assert(read_as(zp, self, c));
                out.push(zp);
                proof {
                    let rest = box_scan(
                        bytes,
                        self.data_offset,
                        self.metadata_offset,
                        lat,
                        lon,
                        bbox_index,
                        vstd::wrapping::u32_specs::wrapping_add(polygon_id, 1),
                        metadata_index,
                        polygon_index,
                    );
                    assert(found + (seq![c] + rest) =~= found.push(c) + rest);
                    found = found.push(c);
                }
            }
            polygon_id = polygon_id.wrapping_add(1);
        }
        out
    }
}

/// The tests of polygons `k..` against `(lat, lon)`, each with the figures of
/// its segments, starting from the smallest distance `dist`: the polygon
/// number, metadata position and result of each polygon the location is in or
/// on, and the smallest distance. Testing stops at a malformed polygon.
pub open spec fn hits_from(
    polys: Seq<ZonePolygon>,
    geo: Seq<Vec<SegmentGeometry>>,
    lat: i32,
    lon: i32,
    k: int,
    dist: u64,
) -> (Seq<(u32, u32, LookupResult)>, u64)
    decreases polys.len() - k,
{
    if k < 0 || k >= polys.len() {
        (Seq::empty(), dist)
    } else {
        let p = polys[k];
        let (r, d) = polygon_result(p.vertices@, p.end_code, geo[k]@, lat, lon, dist);
        if r == LookupResult::ParseError {
            (Seq::empty(), d)
        } else {
            let (rest, d2) = hits_from(polys, geo, lat, lon, k + 1, d);
            if r != LookupResult::NotInZone {
                (seq![(p.polygon_id, p.meta_id, r)] + rest, d2)
            } else {
                (rest, d2)
            }
        }
    }
}

/// Whether every polygon comes with one figure per vertex.
pub open spec fn geometry_fits(polys: Seq<ZonePolygon>, geo: Seq<Vec<SegmentGeometry>>) -> bool {
    &&& geo.len() == polys.len()
    &&& forall|k: int| 0 <= k < polys.len() ==> (#[trigger] geo[k])@.len() == polys[k].vertices@.len()
}

/// Tests each polygon; see `hits_from`.
pub fn zone_hits(
    polygons: &Vec<ZonePolygon>,
    geometry: &Vec<Vec<SegmentGeometry>>,
    lat: i32,
    lon: i32,
    distance_min: &mut u64,
) -> (r: Vec<(u32, u32, LookupResult)>)
    requires
        geometry_fits(polygons@, geometry@),
    ensures
        (r@, *final(distance_min)) == hits_from(polygons@, geometry@, lat, lon, 0, *old(distance_min)),
{
    let mut hits: Vec<(u32, u32, LookupResult)> = Vec::new();
    let mut k: usize = 0;
    while k < polygons.len()
        invariant
            geometry_fits(polygons@, geometry@),
            k <= polygons@.len(),
            hits_from(polygons@, geometry@, lat, lon, 0, *old(distance_min)) == ({
                let (rest, d) = hits_from(polygons@, geometry@, lat, lon, k as int, *distance_min);
                (hits@ + rest, d)
            }),
        decreases polygons@.len() - k,
    {
        let p = &polygons[k];
        let g = &geometry[k];
        let ghost d0 = *distance_min;
        let r = point_in_polygon(&p.vertices, p.end_code, g, lat, lon, distance_min);
        if r == LookupResult::ParseError {
            assert(hits@ + Seq::<(u32, u32, LookupResult)>::empty() =~= hits@);
            return hits;
        }
        if r != LookupResult::NotInZone {
            let ghost h = (p.polygon_id, p.meta_id, r);
            let ghost rest = hits_from(polygons@, geometry@, lat, lon, k + 1, *distance_min).0;
            assert(hits@ + (seq![h] + rest) =~= hits@.push(h) + rest);
            hits.push((p.polygon_id, p.meta_id, r));
        }
        k = k + 1;
    }
    assert(hits@ + Seq::<(u32, u32, LookupResult)>::empty() =~= hits@);
    hits
}

/// Whether a result counts towards being inside a zone (in it, or in one of
/// its excluded holes), rather than on its border.
pub open spec fn counts_inside(r: LookupResult) -> bool {
    r == LookupResult::InZone || r == LookupResult::InExcludedZone
}

/// Over the entries `from..to` for the zone at metadata position `m`: the
/// number inside the zone less the number inside an excluded hole, as a
/// 32-bit count.
pub open spec fn inside_sum(s: Seq<(u32, u32, LookupResult)>, m: u32, from: int, to: int) -> i32
    decreases to - from,
{
    if to <= from {
        0
    } else {
        let prev = inside_sum(s, m, from, to - 1);
        let h = s[to - 1];
        if h.1 == m && h.2 == LookupResult::InZone {
            vstd::wrapping::i32_specs::wrapping_add(prev, 1)
        } else if h.1 == m && h.2 == LookupResult::InExcludedZone {
            vstd::wrapping::i32_specs::wrapping_sub(prev, 1)
        } else {
            prev
        }
    }
}

/// Over the entries `from..to` for the zone at `m`: the last result that does
/// not count towards being inside, or `Ignore` when there is none.
pub open spec fn border_override(s: Seq<(u32, u32, LookupResult)>, m: u32, from: int, to: int) -> LookupResult
    decreases to - from,
{
    if to <= from {
        LookupResult::Ignore
    } else {
        let h = s[to - 1];
        if h.1 == m && !counts_inside(h.2) {
            h.2
        } else {
            border_override(s, m, from, to - 1)
        }
    }
}

/// Whether an earlier entry belongs to the same zone as entry `i`.
pub open spec fn seen_before(s: Seq<(u32, u32, LookupResult)>, i: int) -> bool {
    exists|j: int| 0 <= j < i && #[trigger] s[j].1 == s[i].1
}

/// The merged result of entry `i`: `Ignore` unless it is its zone's first
/// entry; then the zone's last border result if it has one, else in the zone
/// when the number of entries inside differs from the number inside holes,
/// else `Ignore`.
pub open spec fn merged_result(s: Seq<(u32, u32, LookupResult)>, i: int) -> LookupResult {
    if seen_before(s, i) {
        LookupResult::Ignore
    } else {
        let m = s[i].1;
        let o = border_override(s, m, i, s.len() as int);
        if o != LookupResult::Ignore {
            o
        } else if inside_sum(s, m, i, s.len() as int) != 0 {
            LookupResult::InZone
        } else {
            LookupResult::Ignore
        }
    }
}

/// The entries with their merged results.
pub open spec fn with_merged(s: Seq<(u32, u32, LookupResult)>) -> Seq<(u32, u32, LookupResult)> {
    Seq::new(s.len(), |i: int| (s[i].0, s[i].1, merged_result(s, i)))
}

/// One entry per zone, at the place of its first entry, with its merged
/// result; zones whose merged result is `Ignore` are dropped.
pub open spec fn merged(s: Seq<(u32, u32, LookupResult)>) -> Seq<(u32, u32, LookupResult)> {
    with_merged(s).filter(|h: (u32, u32, LookupResult)| h.2 != LookupResult::Ignore)
}

proof fn lemma_ranges_agree(s1: Seq<(u32, u32, LookupResult)>, s2: Seq<(u32, u32, LookupResult)>, m: u32, from: int, to: int)
    requires
        to <= s1.len(),
        to <= s2.len(),
        forall|p: int| from <= p < to ==> (#[trigger] s1[p]).1 == s2[p].1 && (s1[p].1 == m ==> s1[p].2 == s2[p].2),
    ensures
        inside_sum(s1, m, from, to) == inside_sum(s2, m, from, to),
        border_override(s1, m, from, to) == border_override(s2, m, from, to),
    decreases to - from,
{
    if to > from {
        lemma_ranges_agree(s1, s2, m, from, to - 1);
    }
}

proof fn lemma_range_ignored(s: Seq<(u32, u32, LookupResult)>, m: u32, from: int, to: int)
    requires
        to <= s.len(),
        forall|p: int| from <= p < to && (#[trigger] s[p]).1 == m ==> s[p].2 == LookupResult::Ignore,
    ensures
        inside_sum(s, m, from, to) == 0,
        border_override(s, m, from, to) == LookupResult::Ignore,
    decreases to - from,
{
    if to > from {
        lemma_range_ignored(s, m, from, to - 1);
    }
}

/// Merges the entries of each zone into its first entry, as `merged` says.
pub fn merge_hits(hits: &mut Vec<(u32, u32, LookupResult)>) -> (r: Vec<(u32, u32, LookupResult)>)
    ensures
        r@ == merged(old(hits)@),
        final(hits)@ == with_merged(old(hits)@),
{
    let ghost orig = hits@;
    let len = hits.len();
    let mut i: usize = 0;
    while i < len
        invariant
            len == hits@.len(),
            len == orig.len(),
            i <= len,
            forall|p: int| 0 <= p < i ==> #[trigger] hits@[p] == (orig[p].0, orig[p].1, merged_result(orig, p)),
            forall|p: int| i <= p < len ==> {
                &&& (#[trigger] hits@[p]).0 == orig[p].0
                &&& hits@[p].1 == orig[p].1
                &&& hits@[p].2 == (if exists|q: int| 0 <= q < i && #[trigger] orig[q].1 == orig[p].1 {
                    LookupResult::Ignore
                } else {
                    orig[p].2
                })
            },
        decreases len - i,
    {
        let m = hits[i].1;
        let ghost cur = hits@;
        let mut sum: i32 = 0;
        let mut over = LookupResult::Ignore;
        let mut j: usize = i;
        while j < len
            invariant
                len == hits@.len(),
                len == cur.len(),
                i <= j <= len,
                m == cur[i as int].1,
                forall|p: int| 0 <= p < i ==> #[trigger] hits@[p] == cur[p],
                forall|p: int| j <= p < len ==> #[trigger] hits@[p] == cur[p],
                forall|p: int| i <= p < j ==> {
                    &&& (#[trigger] hits@[p]).0 == cur[p].0
                    &&& hits@[p].1 == cur[p].1
                    &&& hits@[p].2 == (if cur[p].1 == m { LookupResult::Ignore } else { cur[p].2 })
                },
                sum == inside_sum(cur, m, i as int, j as int),
                over == border_override(cur, m, i as int, j as int),
            decreases len - j,
        {
            let h = hits[j];
            if h.1 == m {
                let tmp = h.2;
                hits.set(j, (h.0, h.1, LookupResult::Ignore));
                if tmp == LookupResult::InZone {
                    sum = sum.wrapping_add(1);
                } else if tmp == LookupResult::InExcludedZone {
                    sum = sum.wrapping_sub(1);
                } else {
                    over = tmp;
                }
            }
            j = j + 1;
        }
        let h = hits[i];
        if over != LookupResult::Ignore {
            hits.set(i, (h.0, h.1, over));
        } else if sum != 0 {
            hits.set(i, (h.0, h.1, LookupResult::InZone));
        }
        proof {
            if exists|q: int| 0 <= q < i && #[trigger] orig[q].1 == orig[i as int].1 {
                let q = choose|q: int| 0 <= q < i && #[trigger] orig[q].1 == orig[i as int].1;
                assert(seen_before(orig, i as int));
                lemma_range_ignored(cur, m, i as int, len as int);
            } else {
                assert(!seen_before(orig, i as int));
                lemma_ranges_agree(cur, orig, m, i as int, len as int);
            }
            assert forall|p: int| i + 1 <= p < len implies {
                &&& (#[trigger] hits@[p]).0 == orig[p].0
                &&& hits@[p].1 == orig[p].1
                &&& hits@[p].2 == (if exists|q: int| 0 <= q < i + 1 && #[trigger] orig[q].1 == orig[p].1 {
                    LookupResult::Ignore
                } else {
                    orig[p].2
                })
            } by {
                if orig[p].1 == m {
                    assert(orig[i as int].1 == orig[p].1);
                } else if exists|q: int| 0 <= q < i + 1 && #[trigger] orig[q].1 == orig[p].1 {
                    let q = choose|q: int| 0 <= q < i + 1 && #[trigger] orig[q].1 == orig[p].1;
                    assert(q < i);
                }
            }
        }
        i = i + 1;
    }
    assert(hits@ =~= with_merged(orig));
    let ghost all = hits@;
    let mut out: Vec<(u32, u32, LookupResult)> = Vec::new();
    let mut k: usize = 0;
    while k < len
        invariant
            len == hits@.len(),
            hits@ == all,
            k <= len,
            out@ == all.take(k as int).filter(|h: (u32, u32, LookupResult)| h.2 != LookupResult::Ignore),
        decreases len - k,
    {
        let h = hits[k];
        proof {
            reveal_with_fuel(Seq::<_>::filter, 1);
            assert(all.take(k + 1).drop_last() =~= all.take(k as int));
        }
        if h.2 != LookupResult::Ignore {
            out.push(h);
        }
        k = k + 1;
    }
    assert(all.take(len as int) =~= all);
    out
}

/// The first position in `f` of a field called `key`, among the first `n`.
pub open spec fn key_position(f: Seq<(Seq<char>, Seq<char>)>, key: Seq<char>, n: int) -> Option<int>
    decreases n,
{
    if n <= 0 {
        None
    } else {
        match key_position(f, key, n - 1) {
            Some(i) => Some(i),
            None => if f[n - 1].0 == key { Some(n - 1) } else { None },
        }
    }
}

/// Sets the field `key` to `value`: in place when `f` has a field of that
/// name, as a new last field otherwise (each name is held once, as in a map).
pub open spec fn insert_field(f: Seq<(Seq<char>, Seq<char>)>, key: Seq<char>, value: Seq<char>) -> Seq<(Seq<char>, Seq<char>)> {
    match key_position(f, key, f.len() as int) {
        Some(i) => f.update(i, (key, value)),
        None => f.push((key, value)),
    }
}

/// Reads the metadata fields `k..` of a zone, the strings stored one after
/// the other from `index`, and sets each under its field name in `acc`;
/// `None` when one of them cannot be read.
pub open spec fn zone_fields_from(
    bytes: Seq<u8>,
    metadata_offset: u32,
    names: Seq<Seq<char>>,
    k: int,
    index: u32,
    acc: Seq<(Seq<char>, Seq<char>)>,
) -> Option<Seq<(Seq<char>, Seq<char>)>>
    decreases names.len() - k,
{
    if k < 0 || k >= names.len() {
        Some(acc)
    } else {
        match string_text(bytes, metadata_offset, index as int) {
            Err(_) => None,
            Ok(v) => zone_fields_from(
                bytes,
                metadata_offset,
                names,
                k + 1,
                zd_string_next(bytes, metadata_offset, index),
                insert_field(acc, names[k], v),
            ),
        }
    }
}

/// The metadata fields of the zone at metadata position `meta_id`, one per
/// field name (the last value read for a name wins).
pub open spec fn zone_fields(db: &Database, meta_id: u32) -> Option<Seq<(Seq<char>, Seq<char>)>> {
    zone_fields_from(
        db.mapping@,
        db.metadata_offset,
        texts(db.field_names@),
        0,
        vstd::wrapping::u32_specs::wrapping_add(db.metadata_offset, meta_id),
        Seq::empty(),
    )
}

/// Sets the field `key` to `value`, as `insert_field` says.
fn set_field(fields: &mut Vec<(String, String)>, key: String, value: String)
    ensures
        pair_texts(final(fields)@) == insert_field(pair_texts(old(fields)@), key@, value@),
{
    let ghost f = pair_texts(fields@);
    let mut i: usize = 0;
    while i < fields.len()
        invariant
            i <= fields@.len(),
            fields@ == old(fields)@,
            f == pair_texts(fields@),
            key_position(f, key@, i as int) is None,
        decreases fields@.len() - i,
    {
        if fields[i].0 == key {
            assert(key_position(f, key@, i + 1) == Some(i as int));
            proof {
                lemma_key_position_stays(f, key@, i + 1, f.len() as int);
            }
            fields.set(i, (key, value));
            assert(pair_texts(fields@) =~= f.update(i as int, (key@, value@)));
            return;
        }
        i = i + 1;
    }
    fields.push((key, value));
    assert(pair_texts(fields@) =~= f.push((key@, value@)));
}

proof fn lemma_key_position_stays(f: Seq<(Seq<char>, Seq<char>)>, key: Seq<char>, n: int, m: int)
    requires
        n <= m,
        key_position(f, key, n) is Some,
    ensures
        key_position(f, key, m) == key_position(f, key, n),
    decreases m - n,
{
    if m > n {
        lemma_key_position_stays(f, key, n, m - 1);
    }
}

/// Reads the metadata fields of the zone at metadata position `meta_id`.
pub fn read_zone_fields(db: &Database, meta_id: u32) -> (r: Option<Vec<(String, String)>>)
    requires
        db.addressable(),
    ensures
        r matches Some(v) ==> zone_fields(db, meta_id) == Some(pair_texts(v@)),
        r is None ==> zone_fields(db, meta_id) is None,
{
    let ghost names = texts(db.field_names@);
    let ghost bytes = db.mapping@;
    let mut index: u32 = db.metadata_offset.wrapping_add(meta_id);
    let mut fields: Vec<(String, String)> = Vec::new();
    let mut k: usize = 0;
    assert(pair_texts(fields@) =~= Seq::<(Seq<char>, Seq<char>)>::empty());
    while k < db.field_names.len()
        invariant
            db.addressable(),
            names == texts(db.field_names@),
            bytes == db.mapping@,
            k <= names.len(),
            zone_fields(db, meta_id) == zone_fields_from(bytes, db.metadata_offset, names, k as int, index, pair_texts(fields@)),
        decreases names.len() - k,
    {
        let key = db.field_names[k].clone();
        let value = match parse_string(db, &mut index) {
            Ok(v) => v,
            Err(_) => {
                return None;
            },
        };
        set_field(&mut fields, key, value);
        k = k + 1;
    }
    Some(fields)
}

/// A result as plain values: the result, polygon number, metadata position
/// and fields.
pub open spec fn result_view(r: ZoneDetectResult) -> (LookupResult, u32, u32, Seq<(Seq<char>, Seq<char>)>) {
    (r.lookup_result, r.polygon_id, r.meta_id, pair_texts(r.fields@))
}

/// The results of a lookup of `(lat, lon)` in `db`, given the polygons read
/// and the figures of their segments: each zone holding the location with
/// its fields, in the order of the zones' first polygons, and the smallest
/// squared distance to a tested segment (0 on a border). `None` when a zone's
/// fields cannot be read.
pub open spec fn lookup_outcome(
    db: &Database,
    lat: i32,
    lon: i32,
    polys: Seq<ZonePolygon>,
    geo: Seq<Vec<SegmentGeometry>>,
) -> Option<(Seq<(LookupResult, u32, u32, Seq<(Seq<char>, Seq<char>)>)>, u64)> {
    let (hits, dist) = hits_from(polys, geo, lat, lon, 0, u64::MAX);
    let m = merged(hits);
    if forall|i: int| 0 <= i < m.len() ==> (#[trigger] zone_fields(db, m[i].1)) is Some {
        Some((Seq::new(m.len(), |i: int| (m[i].2, m[i].0, m[i].1, zone_fields(db, m[i].1).unwrap())), dist))
    } else {
        None
    }
}

impl Database {
    /// Tests the polygons read by `candidate_polygons` against the location
    /// `(lat, lon)` in fixed point, given the figures of their segments, and
    /// labels each zone found with its fields.
    pub fn resolve_lookup(
        &self,
        lat: i32,
        lon: i32,
        polygons: &Vec<ZonePolygon>,
        geometry: &Vec<Vec<SegmentGeometry>>,
    ) -> (r: Option<(Vec<ZoneDetectResult>, u64)>)
        requires
            self.addressable(),
            geometry_fits(polygons@, geometry@),
        ensures
            match (r, lookup_outcome(self, lat, lon, polygons@, geometry@)) {
                (Some((v, d)), Some((w, e))) => v@.map_values(|x: ZoneDetectResult| result_view(x)) == w && d == e,
                (None, None) => true,
                _ => false,
            },
    {
        let mut distance_min: u64 = u64::MAX;
        let mut hits = zone_hits(polygons, geometry, lat, lon, &mut distance_min);
        let zones = merge_hits(&mut hits);
        let ghost m = zones@;
        let mut results: Vec<ZoneDetectResult> = Vec::new();
        let mut i: usize = 0;
        while i < zones.len()
            invariant
                self.addressable(),
                m == zones@,
                m == merged(hits_from(polygons@, geometry@, lat, lon, 0, u64::MAX).0),
                distance_min == hits_from(polygons@, geometry@, lat, lon, 0, u64::MAX).1,
                i <= m.len(),
                results@.len() == i,
                forall|j: int| 0 <= j < i ==> (#[trigger] zone_fields(self, m[j].1)) is Some,
                forall|j: int| 0 <= j < i ==> #[trigger] result_view(results@[j]) == (m[j].2, m[j].0, m[j].1, zone_fields(self, m[j].1).unwrap()),
            decreases m.len() - i,
        {
            let z = zones[i];
            let fields = match read_zone_fields(self, z.1) {
                Some(f) => f,
                None => {
                    assert(zone_fields(self, m[i as int].1) is None);
                    return None;
                },
            };
            results.push(ZoneDetectResult { lookup_result: z.2, polygon_id: z.0, meta_id: z.1, fields });
            i = i + 1;
        }
        assert(results@.map_values(|x: ZoneDetectResult| result_view(x)) =~= Seq::new(
            m.len(),
            |i: int| (m[i].2, m[i].0, m[i].1, zone_fields(self, m[i].1).unwrap()),
        ));
        Some((results, distance_min))
    }
}

/// Whether a result is one a polygon test reports as a hit.
pub open spec fn hit_kind(r: LookupResult) -> bool {
    ||| r == LookupResult::InZone
    ||| r == LookupResult::InExcludedZone
    ||| r == LookupResult::OnBorderVertex
    ||| r == LookupResult::OnBorderSegment
}

/// Whether a result is one a lookup reports for a zone.
pub open spec fn zone_kind(r: LookupResult) -> bool {
    ||| r == LookupResult::InZone
    ||| r == LookupResult::OnBorderVertex
    ||| r == LookupResult::OnBorderSegment
}

/// Whether no two entries belong to the same zone.
pub open spec fn distinct_zones(s: Seq<(u32, u32, LookupResult)>) -> bool {
    forall|p: int, q: int| 0 <= p < q < s.len() ==> (#[trigger] s[p]).1 != (#[trigger] s[q]).1
}

proof fn lemma_override_kind(s: Seq<(u32, u32, LookupResult)>, m: u32, from: int, to: int)
    requires
        0 <= from,
        to <= s.len(),
        forall|i: int| 0 <= i < s.len() ==> hit_kind(#[trigger] s[i].2),
    ensures
        border_override(s, m, from, to) == LookupResult::Ignore || zone_kind(border_override(s, m, from, to)),
    decreases to - from,
{
    if to > from {
        lemma_override_kind(s, m, from, to - 1);
    }
}

proof fn lemma_filter_keeps_first(t: Seq<(u32, u32, LookupResult)>)
    requires
        forall|q: int| 0 <= q < t.len() && (#[trigger] t[q]).2 != LookupResult::Ignore ==> forall|p: int| 0 <= p < q ==> (#[trigger] t[p]).1 != t[q].1,
    ensures
        distinct_zones(t.filter(|h: (u32, u32, LookupResult)| h.2 != LookupResult::Ignore)),
    decreases t.len(),
{
    let pred = |h: (u32, u32, LookupResult)| h.2 != LookupResult::Ignore;
    reveal_with_fuel(Seq::<_>::filter, 1);
    if t.len() > 0 {
        let d = t.drop_last();
        assert forall|q: int| 0 <= q < d.len() && (#[trigger] d[q]).2 != LookupResult::Ignore implies forall|p: int| 0 <= p < q ==> (#[trigger] d[p]).1 != d[q].1 by {
            assert(d[q] == t[q]);
            assert forall|p: int| 0 <= p < q implies (#[trigger] d[p]).1 != d[q].1 by {
                assert(d[p] == t[p]);
            }
        }
        lemma_filter_keeps_first(d);
        let f = d.filter(pred);
        if pred(t.last()) {
            let out = f.push(t.last());
            assert forall|p: int, q: int| 0 <= p < q < out.len() implies (#[trigger] out[p]).1 != (#[trigger] out[q]).1 by {
                if q == out.len() - 1 {
                    assert(f.contains(out[p]));
                    d.lemma_filter_contains_rev(pred, out[p]);
                    let k = choose|k: int| 0 <= k < d.len() && d[k] == out[p];
                    assert(t[k] == d[k]);
                    assert(t[t.len() - 1].2 != LookupResult::Ignore);
                }
            }
        }
    }
}

/// Merging keeps one entry per zone.
pub proof fn lemma_merged_distinct(s: Seq<(u32, u32, LookupResult)>)
    ensures
        distinct_zones(merged(s)),
{
    let t = with_merged(s);
    assert forall|q: int| 0 <= q < t.len() && (#[trigger] t[q]).2 != LookupResult::Ignore implies forall|p: int| 0 <= p < q ==> (#[trigger] t[p]).1 != t[q].1 by {
        assert(!seen_before(s, q));
        assert forall|p: int| 0 <= p < q implies (#[trigger] t[p]).1 != t[q].1 by {
            if t[p].1 == t[q].1 {
                assert(s[p].1 == s[q].1);
            }
        }
    }
    lemma_filter_keeps_first(t);
}

/// Merging the results of polygon tests reports each zone as inside it or on
/// its border: never inside one of its holes.
pub proof fn lemma_merged_kinds(s: Seq<(u32, u32, LookupResult)>)
    requires
        forall|i: int| 0 <= i < s.len() ==> hit_kind(#[trigger] s[i].2),
    ensures
        forall|i: int| 0 <= i < merged(s).len() ==> zone_kind(#[trigger] merged(s)[i].2),
{
    let t = with_merged(s);
    let pred = |h: (u32, u32, LookupResult)| h.2 != LookupResult::Ignore;
    assert forall|i: int| 0 <= i < t.len() implies (#[trigger] t[i]).2 == LookupResult::Ignore || zone_kind(t[i].2) by {
        lemma_override_kind(s, s[i].1, i, s.len() as int);
    }
    assert forall|i: int| 0 <= i < merged(s).len() implies zone_kind(#[trigger] merged(s)[i].2) by {
        t.lemma_filter_pred(pred, i);
        assert(t.filter(pred).contains(t.filter(pred)[i]));
        t.lemma_filter_contains_rev(pred, t.filter(pred)[i]);
    }
}

proof fn lemma_hits_kinds(polys: Seq<ZonePolygon>, geo: Seq<Vec<SegmentGeometry>>, lat: i32, lon: i32, k: int, dist: u64)
    ensures
        forall|i: int| 0 <= i < hits_from(polys, geo, lat, lon, k, dist).0.len()
            ==> hit_kind(#[trigger] hits_from(polys, geo, lat, lon, k, dist).0[i].2),
    decreases polys.len() - k,
{
    if 0 <= k < polys.len() {
        let p = polys[k];
        lemma_polygon_result_kinds(p.vertices@, p.end_code, geo[k]@, lat, lon, dist);
        let (r, d) = polygon_result(p.vertices@, p.end_code, geo[k]@, lat, lon, dist);
        lemma_hits_kinds(polys, geo, lat, lon, k + 1, d);
        let rest = hits_from(polys, geo, lat, lon, k + 1, d).0;
        let hk = hits_from(polys, geo, lat, lon, k, dist).0;
        assert forall|i: int| 0 <= i < hk.len() implies hit_kind(#[trigger] hk[i].2) by {
            if r != LookupResult::ParseError && r != LookupResult::NotInZone && i > 0 {
                assert(hk[i] == rest[i - 1]);
            } else if r != LookupResult::ParseError && r == LookupResult::NotInZone {
                assert(hk[i] == rest[i]);
            }
        }
    }
}

/// A lookup reports each zone at most once, as holding the location inside
/// it or on its border, never inside one of its holes.
pub proof fn lemma_lookup_zones(db: &Database, lat: i32, lon: i32, polys: Seq<ZonePolygon>, geo: Seq<Vec<SegmentGeometry>>)
    ensures
        lookup_outcome(db, lat, lon, polys, geo) matches Some((w, _)) ==> {
            &&& forall|i: int| 0 <= i < w.len() ==> zone_kind(#[trigger] w[i].0)
            &&& forall|p: int, q: int| 0 <= p < q < w.len() ==> (#[trigger] w[p]).2 != (#[trigger] w[q]).2
        },
{
    let hits = hits_from(polys, geo, lat, lon, 0, u64::MAX).0;
    lemma_hits_kinds(polys, geo, lat, lon, 0, u64::MAX);
    lemma_merged_kinds(hits);
    lemma_merged_distinct(hits);
    let m = merged(hits);
    if let Some((w, _)) = lookup_outcome(db, lat, lon, polys, geo) {
        assert forall|p: int, q: int| 0 <= p < q < w.len() implies (#[trigger] w[p]).2 != (#[trigger] w[q]).2 by {
            assert(w[p].2 == m[p].1);
            assert(w[q].2 == m[q].1);
        }
        assert forall|i: int| 0 <= i < w.len() implies zone_kind(#[trigger] w[i].0) by {
            assert(w[i].0 == m[i].2);
        }
    }
}

proof fn lemma_single_entry(t: Seq<(u32, u32, LookupResult)>, i: int, to: int)
    requires
        0 <= i < to <= t.len(),
        forall|p: int| i < p < t.len() ==> (#[trigger] t[p]).1 != t[i].1,
    ensures
        border_override(t, t[i].1, i, to) == (if counts_inside(t[i].2) { LookupResult::Ignore } else { t[i].2 }),
        inside_sum(t, t[i].1, i, to) == (if t[i].2 == LookupResult::InZone {
            1i32
        } else if t[i].2 == LookupResult::InExcludedZone {
            -1i32
        } else {
            0i32
        }),
    decreases to - i,
{
    if to > i + 1 {
        lemma_single_entry(t, i, to - 1);
    } else {
        assert(border_override(t, t[i].1, i, i) == LookupResult::Ignore);
        assert(inside_sum(t, t[i].1, i, i) == 0);
    }
}

proof fn lemma_filter_all_kept(t: Seq<(u32, u32, LookupResult)>)
    requires
        forall|i: int| 0 <= i < t.len() ==> (#[trigger] t[i]).2 != LookupResult::Ignore,
    ensures
        t.filter(|h: (u32, u32, LookupResult)| h.2 != LookupResult::Ignore) == t,
    decreases t.len(),
{
    reveal_with_fuel(Seq::<_>::filter, 1);
    if t.len() > 0 {
        let d = t.drop_last();
        assert forall|i: int| 0 <= i < d.len() implies (#[trigger] d[i]).2 != LookupResult::Ignore by {
            assert(d[i] == t[i]);
        }
        lemma_filter_all_kept(d);
        assert(d.push(t.last()) =~= t);
    }
}

/// Merging the results of polygon tests a second time changes nothing.
pub proof fn lemma_merge_idempotent(s: Seq<(u32, u32, LookupResult)>)
    requires
        forall|i: int| 0 <= i < s.len() ==> hit_kind(#[trigger] s[i].2),
    ensures
        merged(merged(s)) == merged(s),
{
    let t = merged(s);
    lemma_merged_kinds(s);
    lemma_merged_distinct(s);
    assert forall|i: int| 0 <= i < t.len() implies #[trigger] merged_result(t, i) == t[i].2 by {
        assert(zone_kind(t[i].2));
        assert(!seen_before(t, i)) by {
            if seen_before(t, i) {
                let j = choose|j: int| 0 <= j < i && #[trigger] t[j].1 == t[i].1;
                assert(t[j].1 != t[i].1);
            }
        }
        assert forall|p: int| i < p < t.len() implies (#[trigger] t[p]).1 != t[i].1 by {
            assert(t[i].1 != t[p].1);
        }
        lemma_single_entry(t, i, t.len() as int);
    }
    assert(with_merged(t) =~= t);
    assert forall|i: int| 0 <= i < t.len() implies (#[trigger] t[i]).2 != LookupResult::Ignore by {
        assert(zone_kind(t[i].2));
    }
    lemma_filter_all_kept(t);
}

/// Whether two sets of figures for the polygons give the same crossing
/// longitudes, one figure per vertex.
pub open spec fn same_crossing_sets(polys: Seq<ZonePolygon>, g1: Seq<Vec<SegmentGeometry>>, g2: Seq<Vec<SegmentGeometry>>) -> bool {
    &&& geometry_fits(polys, g1)
    &&& g2.len() == g1.len()
    &&& forall|k: int| 0 <= k < g1.len() ==> same_crossings((#[trigger] g1[k])@, g2[k]@)
}

proof fn lemma_hits_ignore_distance(
    polys: Seq<ZonePolygon>,
    g1: Seq<Vec<SegmentGeometry>>,
    g2: Seq<Vec<SegmentGeometry>>,
    lat: i32,
    lon: i32,
    k: int,
    d1: u64,
    d2: u64,
)
    requires
        same_crossing_sets(polys, g1, g2),
    ensures
        hits_from(polys, g1, lat, lon, k, d1).0 == hits_from(polys, g2, lat, lon, k, d2).0,
    decreases polys.len() - k,
{
    if 0 <= k < polys.len() {
        let p = polys[k];
        assert(same_crossings(g1[k]@, g2[k]@));
        lemma_result_ignores_distance(p.vertices@, p.end_code, g1[k]@, g2[k]@, lat, lon, d1, d2);
        let e1 = polygon_result(p.vertices@, p.end_code, g1[k]@, lat, lon, d1).1;
        let e2 = polygon_result(p.vertices@, p.end_code, g2[k]@, lat, lon, d2).1;
        lemma_hits_ignore_distance(polys, g1, g2, lat, lon, k + 1, e1, e2);
    }
}

/// The zones a lookup reports, with their results and fields, depend on the
/// segments' crossing longitudes only: the distance figures change nothing
/// but the reported distance (so asking for the safe zone changes no match).
pub proof fn lemma_lookup_ignores_distance(
    db: &Database,
    lat: i32,
    lon: i32,
    polys: Seq<ZonePolygon>,
    g1: Seq<Vec<SegmentGeometry>>,
    g2: Seq<Vec<SegmentGeometry>>,
)
    requires
        same_crossing_sets(polys, g1, g2),
    ensures
        match (lookup_outcome(db, lat, lon, polys, g1), lookup_outcome(db, lat, lon, polys, g2)) {
            (Some((z1, _)), Some((z2, _))) => z1 == z2,
            (None, None) => true,
            _ => false,
        },
{
    lemma_hits_ignore_distance(polys, g1, g2, lat, lon, 0, u64::MAX, u64::MAX);
}

/// The name the lookup gives a location, from the fields of the first zone:
/// the `Name` field for a country table, the `TimezoneIdPrefix` and
/// `TimezoneId` fields joined for a timezone table.
pub open spec fn simple_name(table_type: TableType, results: Seq<ZoneDetectResult>) -> Option<Seq<char>> {
    if results.len() == 0 {
        None
    } else {
        let f = pair_texts(results[0].fields@);
        match table_type {
            TableType::Country => field_value(f, "Name"@),
            TableType::Timezone => match (field_value(f, "TimezoneIdPrefix"@), field_value(f, "TimezoneId"@)) {
                (Some(p), Some(id)) => Some(p + id),
                _ => None,
            },
        }
    }
}

/// The name of the first zone of a lookup, as `simple_name` says.
pub fn simple_result(table_type: TableType, results: &Vec<ZoneDetectResult>) -> (r: Option<String>)
    ensures
        r matches Some(s) ==> simple_name(table_type, results@) == Some(s@),
        r is None ==> simple_name(table_type, results@) is None,
{
    if results.len() == 0 {
        return None;
    }
    let first = &results[0];
    match table_type {
        TableType::Country => first.get(&String::from_str("Name")),
        TableType::Timezone => {
            if let Some(prefix) = first.get(&String::from_str("TimezoneIdPrefix")) {
                if let Some(id) = first.get(&String::from_str("TimezoneId")) {
                    let mut name = prefix;
                    name.append(id.as_str());
                    return Some(name);
                }
            }
            None
        },
    }
}

proof fn lemma_hits_distance(polys: Seq<ZonePolygon>, geo: Seq<Vec<SegmentGeometry>>, lat: i32, lon: i32, k: int, dist: u64)
    ensures
        hits_from(polys, geo, lat, lon, k, dist).1 <= dist,
        forall|i: int| 0 <= i < hits_from(polys, geo, lat, lon, k, dist).0.len()
            && on_border(#[trigger] hits_from(polys, geo, lat, lon, k, dist).0[i].2)
            ==> hits_from(polys, geo, lat, lon, k, dist).1 == 0,
    decreases polys.len() - k,
{
    if 0 <= k < polys.len() {
        let p = polys[k];
        lemma_result_distance(p.vertices@, p.end_code, geo[k]@, lat, lon, dist);
        let (r, d) = polygon_result(p.vertices@, p.end_code, geo[k]@, lat, lon, dist);
        if r != LookupResult::ParseError {
            lemma_hits_distance(polys, geo, lat, lon, k + 1, d);
            let (rest, d2) = hits_from(polys, geo, lat, lon, k + 1, d);
            let out = hits_from(polys, geo, lat, lon, k, dist).0;
            if r != LookupResult::NotInZone {
                assert forall|i: int| 0 <= i < out.len() && on_border(#[trigger] out[i].2)
                    implies hits_from(polys, geo, lat, lon, k, dist).1 == 0 by {
                    if i > 0 {
                        assert(out[i] == rest[i - 1]);
                    }
                }
            }
        }
    }
}

proof fn lemma_override_found(s: Seq<(u32, u32, LookupResult)>, m: u32, from: int, to: int)
    requires
        0 <= from,
        to <= s.len(),
    ensures
        border_override(s, m, from, to) != LookupResult::Ignore ==> exists|p: int|
            from <= p < to && (#[trigger] s[p]).2 == border_override(s, m, from, to),
    decreases to - from,
{
    if to > from {
        lemma_override_found(s, m, from, to - 1);
        if s[to - 1].1 == m && !counts_inside(s[to - 1].2) {
            assert(s[to - 1].2 == border_override(s, m, from, to));
        }
    }
}

proof fn lemma_merged_border_from_hit(s: Seq<(u32, u32, LookupResult)>, i: int)
    requires
        0 <= i < merged(s).len(),
        on_border(merged(s)[i].2),
    ensures
        exists|p: int| 0 <= p < s.len() && on_border(#[trigger] s[p].2),
{
    let t = with_merged(s);
    let pred = |h: (u32, u32, LookupResult)| h.2 != LookupResult::Ignore;
    t.lemma_filter_pred(pred, i);
    assert(t.filter(pred).contains(t.filter(pred)[i]));
    t.lemma_filter_contains_rev(pred, t.filter(pred)[i]);
    let j = choose|j: int| 0 <= j < t.len() && t[j] == t.filter(pred)[i];
    lemma_override_found(s, s[j].1, j, s.len() as int);
    let p = choose|p: int| j <= p < s.len() && (#[trigger] s[p]).2 == border_override(s, s[j].1, j, s.len() as int);
    assert(on_border(s[p].2));
}

/// A lookup that reports a zone with the location on its border reports the
/// smallest distance as 0.
pub proof fn lemma_border_distance_zero(db: &Database, lat: i32, lon: i32, polys: Seq<ZonePolygon>, geo: Seq<Vec<SegmentGeometry>>)
    ensures
        lookup_outcome(db, lat, lon, polys, geo) matches Some((w, d)) ==> (forall|i: int|
            0 <= i < w.len() && on_border(#[trigger] w[i].0) ==> d == 0),
{
    let hits = hits_from(polys, geo, lat, lon, 0, u64::MAX).0;
    lemma_hits_distance(polys, geo, lat, lon, 0, u64::MAX);
    let m = merged(hits);
    if let Some((w, d)) = lookup_outcome(db, lat, lon, polys, geo) {
        assert forall|i: int| 0 <= i < w.len() && on_border(#[trigger] w[i].0) implies d == 0 by {
            assert(w[i].0 == m[i].2);
            lemma_merged_border_from_hit(hits, i);
        }
    }
}

/// The position of the `k`-th of the integers stored one after the other
/// from `index`, where the ones before it can be read.
pub open spec fn run_position(bytes: Seq<u8>, index: int, k: nat) -> Option<int>
    decreases k,
{
    if k == 0 {
        Some(index)
    } else {
        match run_position(bytes, index, (k - 1) as nat) {
            None => None,
            Some(p) => match decode_uvarint(bytes, p) {
                None => None,
                Some((_, n)) => Some(n),
            },
        }
    }
}

/// The `k`-th of the integers stored from `index`, read as a signed integer.
pub open spec fn run_signed(bytes: Seq<u8>, index: int, k: nat) -> i32 {
    svarint_i32(bytes, run_position(bytes, index, k).unwrap())
}

/// The `k`-th of the integers stored from `index`.
pub open spec fn run_unsigned(bytes: Seq<u8>, index: int, k: nat) -> u64 {
    decode_uvarint(bytes, run_position(bytes, index, k).unwrap()).unwrap().0
}

/// A bounding-box entry is six integers: the box's least latitude, least
/// longitude, greatest latitude and greatest longitude, the step to its
/// metadata and the step to its polygon. When the scan reaches an entry
/// whose box holds the location, that polygon is the first candidate it
/// gives, with its metadata and data positions moved on by the two steps;
/// when the box starts north of the location, the scan stops there.
pub proof fn lemma_box_scan_entry(
    bytes: Seq<u8>,
    data_offset: u32,
    end: u32,
    lat: i32,
    lon: i32,
    index: u32,
    polygon_id: u32,
    meta: u32,
    poly: u32,
)
    requires
        bytes.len() < u32::MAX,
        index < end,
        run_position(bytes, index as int, 6) is Some,
    ensures
        ({
            let scan = box_scan(bytes, data_offset, end, lat, lon, index, polygon_id, meta, poly);
            let v = |k: nat| run_signed(bytes, index as int, k);
            &&& lat < v(0) ==> scan.len() == 0
            &&& v(0) <= lat <= v(2) && v(1) <= lon <= v(3) ==> {
                &&& scan.len() > 0
                &&& scan[0] == Candidate {
                    polygon_id,
                    meta_id: vstd::wrapping::u32_specs::wrapping_add(meta, v(4) as u32),
                    data_index: vstd::wrapping::u32_specs::wrapping_add(
                        data_offset,
                        vstd::wrapping::u32_specs::wrapping_add(poly, run_unsigned(bytes, index as int, 5) as u32),
                    ),
                }
            }
        }),
{
    reveal_with_fuel(run_position, 7);
    lemma_box_entry_bounds(bytes, index as int);
}

} // verus!
