//! Reading the points of a polygon.
//!
//! Version 0 polygons store a vertex count followed by signed differences in
//! latitude and longitude (a zero difference yields no point but still
//! counts). Version 1 polygons store each difference as one interleaved
//! integer; a 0 introduces a marker: 0 ends the polygon, 1 is followed by a
//! start and a signed length, and replays the differences stored in that
//! range of the data section, forwards or (for a negative length) backwards
//! and negated; any other marker yields the current point again. The closing point is not stored: the reader repeats
//! the first point to close the polygon. Coordinates accumulate in wrapping
//! 32-bit arithmetic.
use crate::varint::{
    decode_uvarint, decode_uvarint_reverse, decoded_point, lemma_decode_bounds,
    lemma_last_group_before, last_group_before, svarint_i32,
    ZDDecodePoint, ZDDecodeVariableLengthSigned, ZDDecodeVariableLengthUnsigned,
    ZDDecodeVariableLengthUnsignedReverse,
};
use crate::Database;
use vstd::prelude::*;

verus! {

/// A cursor over the points of one polygon.
pub struct Reader<'a> {
    pub library: &'a Database,
    pub polygonIndex: u32,
    pub numVertices: u64,
    pub done: u8,
    pub first: u8,
    pub referenceStart: u32,
    pub referenceEnd: u32,
    pub referenceDirection: i32,
    pub pointLat: i32,
    pub pointLon: i32,
    pub firstLat: i32,
    pub firstLon: i32,
}

/// What one pass of the reading loop does.
pub enum Pass<'a> {
    /// The call returns this code with this reader.
    Return(i32, Reader<'a>),
    /// The loop goes round again with this reader and these differences.
    Again(Reader<'a>, i32, i32),
    /// A point was produced; the flag says whether a replayed range ended.
    Point(Reader<'a>, bool),
}

/// What reading the next integer of a version 1 polygon gives.
pub enum Delta<'a> {
    Fault(Reader<'a>),
    /// A replay range was set up.
    Replay(Reader<'a>),
    /// Differences to apply, and whether a replayed range ended.
    Step(Reader<'a>, i32, i32, bool),
}

impl<'a> Reader<'a> {
    pub open spec fn bytes(self) -> Seq<u8> {
        self.library.mapping@
    }

    /// A reader at the start of the polygon stored at `polygonIndex`.
    pub open spec fn start(library: &'a Database, polygonIndex: u32) -> Reader<'a> {
        Reader {
            library,
            polygonIndex,
            numVertices: 0,
            done: 0,
            first: 1,
            referenceStart: 0,
            referenceEnd: 0,
            referenceDirection: 0,
            pointLat: 0,
            pointLon: 0,
            firstLat: 0,
            firstLon: 0,
        }
    }

    /// Reads the marker that follows a 0 in a version 1 polygon.
    pub open spec fn marker(self, refDone: bool, dlat: i32, dlon: i32) -> Delta<'a> {
        let bytes = self.bytes();
        match decode_uvarint(bytes, self.polygonIndex as int) {
            None => Delta::Fault(self),
            Some((value, n2)) => {
                let r2 = Reader { polygonIndex: n2 as u32, ..self };
                if value == 0 {
                    Delta::Step(Reader { done: 2, ..r2 }, dlat, dlon, refDone)
                } else if value == 1 {
                    match decode_uvarint(bytes, n2) {
                        None => Delta::Fault(r2),
                        Some((start, n3)) => {
                            let r3 = Reader { polygonIndex: n3 as u32, ..r2 };
                            match decode_uvarint(bytes, n3) {
                                None => Delta::Fault(r3),
                                Some((_, n4)) => {
                                    let diff = svarint_i32(bytes, n3);
                                    let rs = vstd::wrapping::u32_specs::wrapping_add(self.library.data_offset, start as u32);
                                    let re = vstd::wrapping::u32_specs::wrapping_add(
                                        self.library.data_offset,
                                        vstd::wrapping::i64_specs::wrapping_add(start as i64, diff as i64) as u32,
                                    );
                                    let r4 = Reader { polygonIndex: n4 as u32, referenceDirection: diff, ..r3 };
                                    if diff < 0 {
                                        Delta::Replay(Reader {
                                            referenceStart: vstd::wrapping::u32_specs::wrapping_sub(rs, 1),
                                            referenceEnd: vstd::wrapping::u32_specs::wrapping_sub(re, 1),
                                            ..r4
                                        })
                                    } else {
                                        Delta::Replay(Reader { referenceStart: rs, referenceEnd: re, ..r4 })
                                    }
                                },
                            }
                        },
                    }
                } else {
                    Delta::Step(r2, dlat, dlon, refDone)
                }
            },
        }
    }

    /// Reads the next integer of a version 1 polygon, from the polygon itself
    /// or from the range being replayed.
    pub open spec fn delta_v1(self, dlat: i32, dlon: i32) -> Delta<'a> {
        let bytes = self.bytes();
        let read: Option<(u64, Reader<'a>, bool)> = if self.referenceDirection == 0 {
            match decode_uvarint(bytes, self.polygonIndex as int) {
                None => None,
                Some((p, n)) => Some((p, Reader { polygonIndex: n as u32, ..self }, false)),
            }
        } else if self.referenceDirection > 0 {
            match decode_uvarint(bytes, self.referenceStart as int) {
                None => None,
                Some((p, n)) => Some((p, Reader { referenceStart: n as u32, ..self }, n as u32 >= self.referenceEnd)),
            }
        } else {
            match decode_uvarint_reverse(bytes, self.referenceStart as int) {
                None => None,
                Some((p, prev, _)) => Some((p, Reader { referenceStart: prev as u32, ..self }, prev as u32 <= self.referenceEnd)),
            }
        };
        match read {
            None => Delta::Fault(self),
            Some((point, r1, refDone)) => {
                if point == 0 {
                    if self.referenceDirection != 0 {
                        Delta::Fault(r1)
                    } else {
                        r1.marker(refDone, dlat, dlon)
                    }
                } else {
                    let d = decoded_point(point);
                    if self.referenceDirection < 0 {
                        Delta::Step(r1, -d.0 as i32, -d.1 as i32, refDone)
                    } else {
                        Delta::Step(r1, d.0, d.1, refDone)
                    }
                }
            },
        }
    }

    /// Moves to the next point by the differences, or closes the polygon,
    /// then decides whether the loop goes on.
    pub open spec fn advance(self, dlat: i32, dlon: i32, refDone: bool) -> Pass<'a> {
        let moved = if self.done == 0 {
            let lat = vstd::wrapping::i32_specs::wrapping_add(self.pointLat, dlat);
            let lon = vstd::wrapping::i32_specs::wrapping_add(self.pointLon, dlon);
            if self.first != 0 {
                Reader { pointLat: lat, pointLon: lon, firstLat: lat, firstLon: lon, first: 0, ..self }
            } else {
                Reader { pointLat: lat, pointLon: lon, first: 0, ..self }
            }
        } else {
            Reader { pointLat: self.firstLat, pointLon: self.firstLon, done: 2, first: 0, ..self }
        };
        if self.library.version != 0 {
            Pass::Point(moved, refDone)
        } else {
            let nv = vstd::wrapping::u64_specs::wrapping_sub(moved.numVertices, 1);
            let counted = if nv == 0 {
                Reader { numVertices: nv, done: 1, ..moved }
            } else {
                Reader { numVertices: nv, ..moved }
            };
            if !(dlat == 0 && dlon == 0) {
                Pass::Point(counted, refDone)
            } else {
                Pass::Again(counted, dlat, dlon)
            }
        }
    }

    /// Reads the differences of a version 0 polygon.
    pub open spec fn delta_v0(self, refDone: bool) -> Pass<'a> {
        let bytes = self.bytes();
        match decode_uvarint(bytes, self.polygonIndex as int) {
            None => Pass::Return(-1i32, self),
            Some((_, n1)) => match decode_uvarint(bytes, n1) {
                None => Pass::Return(-1i32, Reader { polygonIndex: n1 as u32, ..self }),
                Some((_, n2)) => Reader { polygonIndex: n2 as u32, ..self }.advance(
                    svarint_i32(bytes, self.polygonIndex as int),
                    svarint_i32(bytes, n1),
                    refDone,
                ),
            },
        }
    }

    /// One pass of the reading loop.
    pub open spec fn pass(self, dlat: i32, dlon: i32) -> Pass<'a> {
        let bytes = self.bytes();
        let version = self.library.version;
        if self.done > 1 {
            Pass::Return(0i32, self)
        } else {
            let counted: Result<Reader<'a>, Reader<'a>> = if self.first != 0 && version == 0 {
                match decode_uvarint(bytes, self.polygonIndex as int) {
                    None => Err(self),
                    Some((nv, n)) => {
                        let r = Reader { polygonIndex: n as u32, numVertices: nv, ..self };
                        if nv == 0 { Err(r) } else { Ok(r) }
                    },
                }
            } else {
                Ok(self)
            };
            match counted {
                Err(r) => Pass::Return(-1i32, r),
                Ok(r) => {
                    if version == 1 {
                        match r.delta_v1(dlat, dlon) {
                            Delta::Fault(r1) => Pass::Return(-1i32, r1),
                            Delta::Replay(r1) => Pass::Again(r1, dlat, dlon),
                            Delta::Step(r1, a, b, refDone) => r1.advance(a, b, refDone),
                        }
                    } else if version == 0 {
                        r.delta_v0(false)
                    } else {
                        r.advance(dlat, dlon, false)
                    }
                },
            }
        }
    }

    /// How far the reader may still go in the polygon's own data.
    pub open spec fn measure(self) -> int {
        self.bytes().len() + 2 - self.polygonIndex
    }

    /// The reading loop of one call, from this reader with these differences.
    /// (A pass that goes round again has read forward, by
    /// `lemma_pass_progress`, so the fallback branch is never taken.)
    pub open spec fn read_loop(self, dlat: i32, dlon: i32) -> (i32, Reader<'a>)
        decreases self.measure(),
    {
        match self.pass(dlat, dlon) {
            Pass::Return(code, r) => (code, r),
            Pass::Point(r, refDone) => (1i32, if refDone { Reader { referenceDirection: 0, ..r } } else { r }),
            Pass::Again(r, a, b) => {
                if self.polygonIndex < r.polygonIndex <= self.bytes().len() + 1 && r.library == self.library {
                    r.read_loop(a, b)
                } else {
                    (-1i32, r)
                }
            },
        }
    }

    /// Whether the polygon has been closed.
    pub open spec fn rank_done(self) -> int {
        if self.done >= 2 { 0 } else { 1 }
    }

    /// How much of the polygon's own data is left to read.
    pub open spec fn rank_data(self) -> int {
        if self.polygonIndex <= self.bytes().len() + 1 { self.bytes().len() + 2 - self.polygonIndex } else { 0 }
    }

    /// How much of the replayed range is left to read.
    pub open spec fn rank_replay(self) -> int {
        if self.referenceDirection > 0 {
            if self.referenceStart <= self.bytes().len() + 1 { self.bytes().len() + 2 - self.referenceStart } else { 0 }
        } else if self.referenceDirection < 0 {
            self.referenceStart + 1
        } else {
            0
        }
    }

    /// Whether `self` is strictly further along its polygon than `other`.
    pub open spec fn further_than(self, other: Reader<'a>) -> bool {
        ||| self.rank_done() < other.rank_done()
        ||| (self.rank_done() == other.rank_done() && self.rank_data() < other.rank_data())
        ||| (self.rank_done() == other.rank_done() && self.rank_data() == other.rank_data()
            && self.rank_replay() < other.rank_replay())
    }

    /// One call of the reader: 1 with a new point, 0 at the end of the
    /// polygon, -1 on malformed data; and the reader afterwards.
    pub open spec fn next_point(self) -> (i32, Reader<'a>) {
        self.read_loop(0, 0)
    }
}

/// What one read of a version 1 polygon gave, without the reader.
pub enum DeltaOutcome {
    Fault,
    Replay,
    Step(i32, i32, bool),
}

/// What one pass of the reading loop gave, without the reader.
pub enum PassOutcome {
    Return(i32),
    Again(i32, i32),
    Point(bool),
}

/// Whether an outcome and a reader are the spec's `Delta`.
pub open spec fn delta_is<'a>(o: DeltaOutcome, r: Reader<'a>, d: Delta<'a>) -> bool {
    match (o, d) {
        (DeltaOutcome::Fault, Delta::Fault(r1)) => r == r1,
        (DeltaOutcome::Replay, Delta::Replay(r1)) => r == r1,
        (DeltaOutcome::Step(a, b, f), Delta::Step(r1, a1, b1, f1)) => r == r1 && a == a1 && b == b1 && f == f1,
        _ => false,
    }
}

/// Whether an outcome and a reader are the spec's `Pass`.
pub open spec fn pass_is<'a>(o: PassOutcome, r: Reader<'a>, p: Pass<'a>) -> bool {
    match (o, p) {
        (PassOutcome::Return(c), Pass::Return(c1, r1)) => r == r1 && c == c1,
        (PassOutcome::Again(a, b), Pass::Again(r1, a1, b1)) => r == r1 && a == a1 && b == b1,
        (PassOutcome::Point(f), Pass::Point(r1, f1)) => r == r1 && f == f1,
        _ => false,
    }
}

/// Each pass that goes round again has read forward in the polygon's data.
pub proof fn lemma_pass_progress<'a>(r: Reader<'a>, dlat: i32, dlon: i32)
    requires
        r.library.addressable(),
    ensures
        r.pass(dlat, dlon) matches Pass::Again(r2, _, _) ==> {
            &&& r.polygonIndex < r2.polygonIndex <= r.bytes().len() + 1
            &&& r2.library == r.library
        },
{
    let bytes = r.bytes();
    let pi = r.polygonIndex as int;
    lemma_decode_bounds(bytes, pi);
    if let Some((_, n1)) = decode_uvarint(bytes, pi) {
        lemma_decode_bounds(bytes, n1);
        if let Some((_, n2)) = decode_uvarint(bytes, n1) {
            lemma_decode_bounds(bytes, n2);
            if let Some((_, n3)) = decode_uvarint(bytes, n2) {
                lemma_decode_bounds(bytes, n3);
            }
        }
    }
}

impl<'a> Reader<'a> {
    /// A reader at the start of the polygon stored at `polygonIndex`.
    pub fn new(library: &'a Database, polygonIndex: u32) -> (r: Reader<'a>)
        ensures
            r == Reader::start(library, polygonIndex),
    {
        Reader {
            library,
            polygonIndex,
            numVertices: 0,
            done: 0,
            first: 1,
            referenceStart: 0,
            referenceEnd: 0,
            referenceDirection: 0,
            pointLat: 0,
            pointLon: 0,
            firstLat: 0,
            firstLon: 0,
        }
    }
}

fn read_marker(reader: &mut Reader, ref_done: bool, dlat: i32, dlon: i32) -> (o: DeltaOutcome)
    requires
        old(reader).library.addressable(),
    ensures
        delta_is(o, *final(reader), old(reader).marker(ref_done, dlat, dlon)),
{
    let library = reader.library;
    let mut value: u64 = 0;
    if ZDDecodeVariableLengthUnsigned(library, &mut reader.polygonIndex, &mut value) == 0 {
        return DeltaOutcome::Fault;
    }
    if value == 0 {
        reader.done = 2;
        return DeltaOutcome::Step(dlat, dlon, ref_done);
    } else if value == 1 {
        let mut diff: i32 = 0;
        let mut start: u64 = 0;
        if ZDDecodeVariableLengthUnsigned(library, &mut reader.polygonIndex, &mut start) == 0 {
            return DeltaOutcome::Fault;
        }
        if ZDDecodeVariableLengthSigned(library, &mut reader.polygonIndex, &mut diff) == 0 {
            return DeltaOutcome::Fault;
        }
        reader.referenceStart = library.data_offset.wrapping_add(start as u32);
        reader.referenceEnd = library.data_offset.wrapping_add((start as i64).wrapping_add(diff as i64) as u32);
        reader.referenceDirection = diff;
        if diff < 0 {
            reader.referenceStart = reader.referenceStart.wrapping_sub(1);
            reader.referenceEnd = reader.referenceEnd.wrapping_sub(1);
        }
        return DeltaOutcome::Replay;
    }
    DeltaOutcome::Step(dlat, dlon, ref_done)
}

fn read_delta_v1(reader: &mut Reader, dlat: i32, dlon: i32) -> (o: DeltaOutcome)
    requires
        old(reader).library.addressable(),
    ensures
        delta_is(o, *final(reader), old(reader).delta_v1(dlat, dlon)),
{
    let library = reader.library;
    let mut point: u64 = 0;
    let mut ref_done = false;
    let direction = reader.referenceDirection;
    if direction == 0 {
        if ZDDecodeVariableLengthUnsigned(library, &mut reader.polygonIndex, &mut point) == 0 {
            return DeltaOutcome::Fault;
        }
    } else if direction > 0 {
        if ZDDecodeVariableLengthUnsigned(library, &mut reader.referenceStart, &mut point) == 0 {
            return DeltaOutcome::Fault;
        }
        if reader.referenceStart >= reader.referenceEnd {
            ref_done = true;
        }
    } else {
        if ZDDecodeVariableLengthUnsignedReverse(library, &mut reader.referenceStart, &mut point) == 0 {
            return DeltaOutcome::Fault;
        }
        if reader.referenceStart <= reader.referenceEnd {
            ref_done = true;
        }
    }
    if point == 0 {
        if direction != 0 {
            return DeltaOutcome::Fault;
        }
        return read_marker(reader, ref_done, dlat, dlon);
    }
    let (mut a, mut b) = ZDDecodePoint(point);
    if direction < 0 {
        a = -a;
        b = -b;
    }
    DeltaOutcome::Step(a, b, ref_done)
}

fn advance_point(reader: &mut Reader, dlat: i32, dlon: i32, ref_done: bool) -> (o: PassOutcome)
    ensures
        pass_is(o, *final(reader), old(reader).advance(dlat, dlon, ref_done)),
{
    if reader.done == 0 {
        reader.pointLat = reader.pointLat.wrapping_add(dlat);
        reader.pointLon = reader.pointLon.wrapping_add(dlon);
        if reader.first != 0 {
            reader.firstLat = reader.pointLat;
            reader.firstLon = reader.pointLon;
        }
    } else {
        reader.pointLat = reader.firstLat;
        reader.pointLon = reader.firstLon;
        reader.done = 2;
    }
    reader.first = 0;
    if reader.library.version != 0 {
        return PassOutcome::Point(ref_done);
    }
    reader.numVertices = reader.numVertices.wrapping_sub(1);
    if reader.numVertices == 0 {
        reader.done = 1;
    }
    if !(dlat == 0 && dlon == 0) {
        return PassOutcome::Point(ref_done);
    }
    PassOutcome::Again(dlat, dlon)
}

fn read_pass(reader: &mut Reader, dlat: i32, dlon: i32) -> (o: PassOutcome)
    requires
        old(reader).library.addressable(),
    ensures
        pass_is(o, *final(reader), old(reader).pass(dlat, dlon)),
{
    let library = reader.library;
    if reader.done > 1 {
        return PassOutcome::Return(0);
    }
    if reader.first != 0 && library.version == 0 {
        if ZDDecodeVariableLengthUnsigned(library, &mut reader.polygonIndex, &mut reader.numVertices) == 0 {
            return PassOutcome::Return(-1);
        }
        if reader.numVertices == 0 {
            return PassOutcome::Return(-1);
        }
    }
    if library.version == 1 {
        match read_delta_v1(reader, dlat, dlon) {
            DeltaOutcome::Fault => PassOutcome::Return(-1),
            DeltaOutcome::Replay => PassOutcome::Again(dlat, dlon),
            DeltaOutcome::Step(a, b, ref_done) => advance_point(reader, a, b, ref_done),
        }
    } else if library.version == 0 {
        let mut a: i32 = 0;
        let mut b: i32 = 0;
        if ZDDecodeVariableLengthSigned(library, &mut reader.polygonIndex, &mut a) == 0 {
            return PassOutcome::Return(-1);
        }
        if ZDDecodeVariableLengthSigned(library, &mut reader.polygonIndex, &mut b) == 0 {
            return PassOutcome::Return(-1);
        }
        advance_point(reader, a, b, false)
    } else {
        advance_point(reader, dlat, dlon, false)
    }
}

/// Reads the next point of the polygon into `*pointLat` and `*pointLon`.
/// Returns 1 with a point, 0 once the polygon has been closed, and -1 on
/// malformed data; the points are left alone unless it returns 1.
pub fn ZDReaderGetPoint(reader: &mut Reader, pointLat: &mut i32, pointLon: &mut i32) -> (code: i32)
    requires
        old(reader).library.addressable(),
    ensures
        (code, *final(reader)) == old(reader).next_point(),
        code == 1 ==> *final(pointLat) == final(reader).pointLat && *final(pointLon) == final(reader).pointLon,
        code != 1 ==> *final(pointLat) == *old(pointLat) && *final(pointLon) == *old(pointLon),
{
    let mut dlat: i32 = 0;
    let mut dlon: i32 = 0;
    loop
        invariant
            reader.library == old(reader).library,
            reader.library.addressable(),
            reader.read_loop(dlat, dlon) == old(reader).next_point(),
            *pointLat == *old(pointLat),
            *pointLon == *old(pointLon),
        decreases reader.measure(),
    {
        let ghost before = *reader;
        proof {
            lemma_pass_progress(before, dlat, dlon);
        }
        match read_pass(reader, dlat, dlon) {
            PassOutcome::Return(code) => {
                return code;
            },
            PassOutcome::Again(a, b) => {
                dlat = a;
                dlon = b;
            },
            PassOutcome::Point(ref_done) => {
                if ref_done {
                    reader.referenceDirection = 0;
                }
                *pointLat = reader.pointLat;
                *pointLon = reader.pointLon;
                return 1;
            },
        }
    }
}

/// A pass that produces a point moves the reader further along, and no pass
/// reopens a closed polygon.
proof fn lemma_pass_further<'a>(r: Reader<'a>, dlat: i32, dlon: i32)
    requires
        r.library.addressable(),
        r.library.version < 2,
    ensures
        r.pass(dlat, dlon) matches Pass::Again(r1, _, _) ==> r1.rank_done() <= r.rank_done(),
        r.pass(dlat, dlon) matches Pass::Point(r1, refDone) ==> {
            let r2 = if refDone { Reader { referenceDirection: 0, ..r1 } } else { r1 };
            r2.further_than(r) && r2.library == r.library
        },
{
    let bytes = r.bytes();
    let pi = r.polygonIndex as int;
    lemma_pass_progress(r, dlat, dlon);
    lemma_decode_bounds(bytes, pi);
    lemma_decode_bounds(bytes, r.referenceStart as int);
    lemma_last_group_before(bytes, r.referenceStart as int);
    if let Some((_, n1)) = decode_uvarint(bytes, pi) {
        lemma_decode_bounds(bytes, n1);
        if let Some((_, n2)) = decode_uvarint(bytes, n1) {
            lemma_decode_bounds(bytes, n2);
            if let Some((_, n3)) = decode_uvarint(bytes, n2) {
                lemma_decode_bounds(bytes, n3);
            }
        }
    }
    if let Some(j) = last_group_before(bytes, r.referenceStart as int) {
        lemma_decode_bounds(bytes, j + 1);
    }
}

/// A call that produces a point leaves the reader further along.
pub proof fn lemma_next_point_further<'a>(r: Reader<'a>, dlat: i32, dlon: i32)
    requires
        r.library.addressable(),
        r.library.version < 2,
    ensures
        r.read_loop(dlat, dlon).0 == 1 ==> r.read_loop(dlat, dlon).1.further_than(r),
        r.read_loop(dlat, dlon).1.library == r.library,
    decreases r.measure(),
{
    lemma_pass_progress(r, dlat, dlon);
    lemma_pass_further(r, dlat, dlon);
    if let Pass::Again(r1, a, b) = r.pass(dlat, dlon) {
        lemma_next_point_further(r1, a, b);
    }
}

impl<'a> Reader<'a> {
    /// The points that the reader still yields, call by call, and the code of
    /// the call that ends the sequence (0 at the end of the polygon, -1 on
    /// malformed data). (Each call that yields a point leaves the reader
    /// further along, by `lemma_next_point_further`, so the fallback branch is
    /// never taken for the supported versions.)
    pub open spec fn points(self) -> (Seq<(i32, i32)>, i32)
        decreases self.rank_done(), self.rank_data(), self.rank_replay(),
    {
        let (code, r) = self.next_point();
        if code != 1 {
            (Seq::empty(), code)
        } else if r.further_than(self) && r.library == self.library {
            let (rest, end) = r.points();
            (seq![(r.pointLat, r.pointLon)] + rest, end)
        } else {
            (seq![(r.pointLat, r.pointLon)], -1i32)
        }
    }
}

/// Reads all points of the polygon stored at `start`, with the code that
/// ended the reading: 0 once the polygon was closed, -1 on malformed data.
pub fn polygon_points(library: &Database, start: u32) -> (r: (Vec<(i32, i32)>, i32))
    requires
        library.addressable(),
        library.version < 2,
    ensures
        (r.0@, r.1) == Reader::start(library, start).points(),
{
    let mut reader = Reader::new(library, start);
    let mut points: Vec<(i32, i32)> = Vec::new();
    let mut lat: i32 = 0;
    let mut lon: i32 = 0;
    loop
        invariant
            reader.library == library,
            library.addressable(),
            library.version < 2,
            Reader::start(library, start).points() == (points@ + reader.points().0, reader.points().1),
        decreases reader.rank_done(), reader.rank_data(), reader.rank_replay(),
    {
        let ghost before = reader;
        proof {
            lemma_next_point_further(before, 0, 0);
        }
        let code = ZDReaderGetPoint(&mut reader, &mut lat, &mut lon);
        if code != 1 {
            assert(points@ + Seq::<(i32, i32)>::empty() =~= points@);
            return (points, code);
        }
        points.push((lat, lon));
    }
}

proof fn lemma_v1_call<'a>(r: Reader<'a>, dlat: i32, dlon: i32)
    requires
        r.library.addressable(),
        r.library.version == 1,
        r.done == 0 || r.done == 2,
    ensures
        ({
            let (code, r2) = r.read_loop(dlat, dlon);
            &&& (r2.done == 0 || r2.done == 2)
            &&& code == 0 ==> r.done == 2
            &&& code == 1 ==> {
                &&& r.done == 0
                &&& r2.first == 0
                &&& r2.done == 2 ==> r2.pointLat == r2.firstLat && r2.pointLon == r2.firstLon
                &&& r.first == 0 ==> r2.firstLat == r.firstLat && r2.firstLon == r.firstLon
                &&& r.first != 0 ==> r2.pointLat == r2.firstLat && r2.pointLon == r2.firstLon
            }
        }),
    decreases r.measure(),
{
    lemma_pass_progress(r, dlat, dlon);
    if let Pass::Again(r1, a, b) = r.pass(dlat, dlon) {
        lemma_v1_call(r1, a, b);
    }
}

proof fn lemma_v1_rest<'a>(r: Reader<'a>)
    requires
        r.library.addressable(),
        r.library.version == 1,
        r.first == 0,
        r.done == 0 || r.done == 2,
        r.done == 2 ==> r.pointLat == r.firstLat && r.pointLon == r.firstLon,
    ensures
        r.points().1 == 0 ==> {
            &&& r.points().0.len() > 0 ==> r.points().0.last() == (r.firstLat, r.firstLon)
            &&& r.points().0.len() == 0 ==> r.done == 2
        },
    decreases r.rank_done(), r.rank_data(), r.rank_replay(),
{
    lemma_v1_call(r, 0, 0);
    lemma_next_point_further(r, 0, 0);
    let (code, r2) = r.next_point();
    if code == 1 {
        lemma_v1_rest(r2);
        let (rest, end) = r2.points();
        if end == 0 && rest.len() > 0 {
            assert((seq![(r2.pointLat, r2.pointLon)] + rest).last() == rest.last());
        }
    }
}

/// A version 1 polygon read to its end is closed: its last point is its
/// first; and where it stores a point before its end marker (its first
/// integer is not 0), that first point comes twice, at the start and at the
/// end.
pub proof fn lemma_polygon_closed(library: &Database, start: u32)
    requires
        library.addressable(),
        library.version == 1,
    ensures
        Reader::start(library, start).points().1 == 0 ==> {
            let pts = Reader::start(library, start).points().0;
            pts.len() > 0 && pts.last() == pts[0]
        },
        decode_uvarint(library.mapping@, start as int) matches Some((v, _)) && v != 0
            ==> (Reader::start(library, start).points().1 == 0 ==> Reader::start(library, start).points().0.len() >= 2),
{
    let r = Reader::start(library, start);
    lemma_v1_call(r, 0, 0);
    lemma_next_point_further(r, 0, 0);
    let (code, r1) = r.next_point();
    if code == 1 {
        lemma_v1_rest(r1);
        let (rest, end) = r1.points();
        if end == 0 && rest.len() > 0 {
            assert((seq![(r1.pointLat, r1.pointLon)] + rest).last() == rest.last());
        }
    }
}

/// The `n` pairs of signed differences stored one after the other from
/// `index` in a version 0 polygon, if all of them can be read.
pub open spec fn v0_pairs(bytes: Seq<u8>, index: int, n: nat) -> Option<Seq<(i32, i32)>>
    decreases n,
{
    if n == 0 {
        Some(Seq::empty())
    } else {
        match decode_uvarint(bytes, index) {
            None => None,
            Some((_, i1)) => match decode_uvarint(bytes, i1) {
                None => None,
                Some((_, i2)) => match v0_pairs(bytes, i2, (n - 1) as nat) {
                    None => None,
                    Some(rest) => Some(seq![(svarint_i32(bytes, index), svarint_i32(bytes, i1))] + rest),
                },
            },
        }
    }
}

proof fn lemma_v0_pairs_len(bytes: Seq<u8>, index: int, n: nat)
    ensures
        v0_pairs(bytes, index, n) matches Some(ds) ==> ds.len() == n,
    decreases n,
{
    if n > 0 {
        if let Some((_, i1)) = decode_uvarint(bytes, index) {
            if let Some((_, i2)) = decode_uvarint(bytes, i1) {
                lemma_v0_pairs_len(bytes, i2, (n - 1) as nat);
            }
        }
    }
}

/// A version 0 reader past its first vertex, with the pairs `rest` still to
/// read: the vertices not yet read and then the pair read when it closes.
spec fn v0_state<'a>(r: Reader<'a>, rest: Seq<(i32, i32)>) -> bool {
    &&& r.library.addressable()
    &&& r.library.version == 0
    &&& r.first == 0
    &&& rest.len() >= 1
    &&& v0_pairs(r.bytes(), r.polygonIndex as int, rest.len()) == Some(rest)
    &&& rest.last() != (0i32, 0i32)
    &&& r.numVertices == rest.len() - 1
    &&& r.done == (if rest.len() == 1 { 1u8 } else { 0u8 })
}

/// One call on a version 0 reader past its first vertex yields a point:
/// either the closing one, or one after which the reader is again such a
/// reader, with fewer pairs left and the same first vertex.
proof fn lemma_v0_call<'a>(r: Reader<'a>, rest: Seq<(i32, i32)>, dlat: i32, dlon: i32) -> (rest2: Seq<(i32, i32)>)
    requires
        v0_state(r, rest),
    ensures
        r.read_loop(dlat, dlon).0 == 1,
        r.read_loop(dlat, dlon).1.firstLat == r.firstLat,
        r.read_loop(dlat, dlon).1.firstLon == r.firstLon,
        r.read_loop(dlat, dlon).1.done == 2 ==> r.read_loop(dlat, dlon).1.pointLat == r.firstLat
            && r.read_loop(dlat, dlon).1.pointLon == r.firstLon,
        r.read_loop(dlat, dlon).1.done != 2 ==> v0_state(r.read_loop(dlat, dlon).1, rest2) && rest2.len() < rest.len(),
    decreases rest.len(),
{
    let bytes = r.bytes();
    let pi = r.polygonIndex as int;
    lemma_pass_progress(r, dlat, dlon);
    lemma_decode_bounds(bytes, pi);
    let (_, i1) = decode_uvarint(bytes, pi).unwrap();
    lemma_decode_bounds(bytes, i1);
    let (_, i2) = decode_uvarint(bytes, i1).unwrap();
    lemma_decode_bounds(bytes, i2);
    let tail = rest.drop_first();
    lemma_v0_pairs_len(bytes, i2, (rest.len() - 1) as nat);
    assert(rest == seq![rest[0]] + tail);
    assert(v0_pairs(bytes, i2, tail.len()) == Some(tail));
    if rest.len() >= 2 {
        assert(tail.last() == rest.last());
        match r.pass(dlat, dlon) {
            Pass::Again(r1, a, b) => {
                let rest2 = lemma_v0_call(r1, tail, a, b);
                rest2
            },
            _ => tail,
        }
    } else {
        tail
    }
}

/// Read to its end, a version 0 reader past its first vertex ends with the
/// code 0, and its last point is the first vertex.
proof fn lemma_v0_rest<'a>(r: Reader<'a>, rest: Seq<(i32, i32)>)
    requires
        v0_state(r, rest),
    ensures
        r.points().1 == 0,
        r.points().0.len() >= 1,
        r.points().0.last() == (r.firstLat, r.firstLon),
    decreases rest.len(),
{
    let rest2 = lemma_v0_call(r, rest, 0, 0);
    lemma_next_point_further(r, 0, 0);
    let (code, r2) = r.next_point();
    if r2.done == 2 {
        assert(r2.points() == (Seq::<(i32, i32)>::empty(), 0i32));
    } else {
        lemma_v0_rest(r2, rest2);
        let (more, end) = r2.points();
        assert((seq![(r2.pointLat, r2.pointLon)] + more).last() == more.last());
    }
}

/// Whether a version 0 polygon at `start` stores a vertex count `n` of at
/// least 1, then `n` pairs of differences and one pair after them, all
/// readable, with neither the first pair nor the last one (0, 0).
pub open spec fn v0_ring_stored(bytes: Seq<u8>, start: int) -> bool {
    match decode_uvarint(bytes, start) {
        None => false,
        Some((n, i1)) => n >= 1 && match v0_pairs(bytes, i1, (n + 1) as nat) {
            None => false,
            Some(ds) => ds[0] != (0i32, 0i32) && ds.last() != (0i32, 0i32),
        },
    }
}

/// A version 0 polygon is closed by repeating its first vertex, which is
/// stored once: where `v0_ring_stored` holds, reading it ends with the code 0
/// after at least two points, the last of them equal to the first.
pub proof fn lemma_v0_polygon_closed(library: &Database, start: u32)
    requires
        library.addressable(),
        library.version == 0,
        v0_ring_stored(library.mapping@, start as int),
    ensures
        Reader::start(library, start).points().1 == 0,
        Reader::start(library, start).points().0.len() >= 2,
        Reader::start(library, start).points().0.last() == Reader::start(library, start).points().0[0],
{
    let r = Reader::start(library, start);
    let bytes = library.mapping@;
    let (n, i1) = decode_uvarint(bytes, start as int).unwrap();
    let ds = v0_pairs(bytes, i1, (n + 1) as nat).unwrap();
    lemma_decode_bounds(bytes, start as int);
    lemma_decode_bounds(bytes, i1);
    let (_, i2) = decode_uvarint(bytes, i1).unwrap();
    lemma_decode_bounds(bytes, i2);
    let (_, i3) = decode_uvarint(bytes, i2).unwrap();
    lemma_decode_bounds(bytes, i3);
    lemma_v0_pairs_len(bytes, i1, (n + 1) as nat);
    lemma_v0_pairs_len(bytes, i3, n as nat);
    let tail = ds.drop_first();
    assert(ds == seq![ds[0]] + tail);
    assert(tail.last() == ds.last());
    lemma_pass_progress(r, 0, 0);
    lemma_next_point_further(r, 0, 0);
    let (code, r1) = r.next_point();
    assert(code == 1);
    assert(r1.pointLat == ds[0].0 && r1.pointLon == ds[0].1);
    assert(r1.polygonIndex == i3);
    assert(v0_pairs(bytes, i3, tail.len()) == Some(tail));
    assert(v0_state(r1, tail));
    lemma_v0_rest(r1, tail);
    let (more, end) = r1.points();
    assert((seq![(r1.pointLat, r1.pointLon)] + more).last() == more.last());
}

proof fn lemma_zero_means_closed<'a>(r: Reader<'a>, dlat: i32, dlon: i32)
    requires
        r.library.addressable(),
    ensures
        r.read_loop(dlat, dlon).0 == 0 ==> r.read_loop(dlat, dlon).1.done >= 2,
    decreases r.measure(),
{
    lemma_pass_progress(r, dlat, dlon);
    if let Pass::Again(r1, a, b) = r.pass(dlat, dlon) {
        lemma_zero_means_closed(r1, a, b);
    }
}

/// Once a call has returned 0 the polygon stays closed: every later call
/// returns 0 again and leaves the reader as it is.
pub proof fn lemma_end_is_final<'a>(r: Reader<'a>)
    requires
        r.library.addressable(),
    ensures
        r.next_point().0 == 0 ==> r.next_point().1.next_point() == (0i32, r.next_point().1),
{
    lemma_zero_means_closed(r, 0, 0);
}

proof fn lemma_add_negated(x: i32, y: i32)
    ensures
        vstd::wrapping::i32_specs::wrapping_add(x, (-y) as i32) == vstd::wrapping::i32_specs::wrapping_sub(x, y),
{
    if y == i32::MIN {
        assert((-y) as i32 == y) by (bit_vector)
            requires
                y == i32::MIN;
    }
}

/// One call on a version 1 reader that is not closing its polygon moves its
/// point by the next stored difference: the one read from the polygon itself,
/// or from the range being replayed, as stored when the range is replayed
/// forwards and negated when it is replayed backwards.
pub proof fn lemma_v1_step<'a>(r: Reader<'a>)
    requires
        r.library.addressable(),
        r.library.version == 1,
        r.done == 0,
    ensures
        ({
            let bytes = r.bytes();
            let (code, r2) = r.next_point();
            &&& r.referenceDirection == 0 ==> match decode_uvarint(bytes, r.polygonIndex as int) {
                Some((p, _)) => p != 0 ==> {
                    &&& code == 1
                    &&& r2.pointLat == vstd::wrapping::i32_specs::wrapping_add(r.pointLat, decoded_point(p).0)
                    &&& r2.pointLon == vstd::wrapping::i32_specs::wrapping_add(r.pointLon, decoded_point(p).1)
                },
                None => true,
            }
            &&& r.referenceDirection > 0 ==> match decode_uvarint(bytes, r.referenceStart as int) {
                Some((p, _)) => p != 0 ==> {
                    &&& code == 1
                    &&& r2.pointLat == vstd::wrapping::i32_specs::wrapping_add(r.pointLat, decoded_point(p).0)
                    &&& r2.pointLon == vstd::wrapping::i32_specs::wrapping_add(r.pointLon, decoded_point(p).1)
                },
                None => true,
            }
            &&& r.referenceDirection < 0 ==> match decode_uvarint_reverse(bytes, r.referenceStart as int) {
                Some((p, _, _)) => p != 0 ==> {
                    &&& code == 1
                    &&& r2.pointLat == vstd::wrapping::i32_specs::wrapping_sub(r.pointLat, decoded_point(p).0)
                    &&& r2.pointLon == vstd::wrapping::i32_specs::wrapping_sub(r.pointLon, decoded_point(p).1)
                },
                None => true,
            }
        }),
{
    let bytes = r.bytes();
    if r.referenceDirection < 0 {
        if let Some((p, _, _)) = decode_uvarint_reverse(bytes, r.referenceStart as int) {
            lemma_add_negated(r.pointLat, decoded_point(p).0);
            lemma_add_negated(r.pointLon, decoded_point(p).1);
        }
    }
}

/// The replay marker stored at `pos` in a version 1 polygon (the integers 0
/// and 1, a start and a signed length): the start, the length and the
/// position after the marker.
pub open spec fn replay_marker(bytes: Seq<u8>, pos: int) -> Option<(u64, i32, int)> {
    match decode_uvarint(bytes, pos) {
        Some((z, n1)) => if z != 0 {
            None
        } else {
            match decode_uvarint(bytes, n1) {
                Some((one, n2)) => if one != 1 {
                    None
                } else {
                    match decode_uvarint(bytes, n2) {
                        Some((start, n3)) => match decode_uvarint(bytes, n3) {
                            Some((_, n4)) => Some((start, svarint_i32(bytes, n3), n4)),
                            None => None,
                        },
                        None => None,
                    }
                },
                None => None,
            }
        },
        None => None,
    }
}

/// A replay marker names a range by its place in the data section: a call
/// that meets one reads the range from `data_offset + start`, forwards for a
/// positive length (its first stored difference added to the point) and
/// backwards for a negative one (the difference stored just before that
/// place subtracted), carries on in the polygon after the marker, and
/// finishes the range once reading reaches `data_offset + start + length`.
pub proof fn lemma_replay_in_data_section<'a>(r: Reader<'a>)
    requires
        r.library.addressable(),
        r.library.version == 1,
        r.done == 0,
        r.referenceDirection == 0,
    ensures
        ({
            let bytes = r.bytes();
            let (code, r2) = r.next_point();
            match replay_marker(bytes, r.polygonIndex as int) {
                None => true,
                Some((start, len, after)) => {
                    let rs = r.library.data_offset + start;
                    let re = rs + len;
                    &&& rs < 0x1_0000_0000 && len > 0 ==> match decode_uvarint(bytes, rs) {
                        Some((p, n)) => p != 0 ==> {
                            &&& code == 1
                            &&& r2.pointLat == vstd::wrapping::i32_specs::wrapping_add(r.pointLat, decoded_point(p).0)
                            &&& r2.pointLon == vstd::wrapping::i32_specs::wrapping_add(r.pointLon, decoded_point(p).1)
                            &&& r2.polygonIndex == after
                            &&& re < 0x1_0000_0000 ==> (r2.referenceDirection == 0 <==> n >= re)
                        },
                        None => true,
                    }
                    &&& 1 <= rs < 0x1_0000_0000 && len < 0 ==> match decode_uvarint_reverse(bytes, rs - 1) {
                        Some((p, prev, _)) => p != 0 ==> {
                            &&& code == 1
                            &&& r2.pointLat == vstd::wrapping::i32_specs::wrapping_sub(r.pointLat, decoded_point(p).0)
                            &&& r2.pointLon == vstd::wrapping::i32_specs::wrapping_sub(r.pointLon, decoded_point(p).1)
                            &&& r2.polygonIndex == after
                            &&& start + len >= 0 && re >= 1 ==> (r2.referenceDirection == 0 <==> prev <= re - 1)
                        },
                        None => true,
                    }
                },
            }
        }),
{
    let bytes = r.bytes();
    lemma_pass_progress(r, 0, 0);
    if let Some((start, len, after)) = replay_marker(bytes, r.polygonIndex as int) {
        let rs = r.library.data_offset + start;
        let pi = r.polygonIndex as int;
        lemma_decode_bounds(bytes, pi);
        let (_, n1) = decode_uvarint(bytes, pi).unwrap();
        lemma_decode_bounds(bytes, n1);
        let (_, n2) = decode_uvarint(bytes, n1).unwrap();
        lemma_decode_bounds(bytes, n2);
        let (_, n3) = decode_uvarint(bytes, n2).unwrap();
        lemma_decode_bounds(bytes, n3);
        if let Pass::Again(r1, _, _) = r.pass(0, 0) {
            assert(r.next_point() == r1.next_point());
            lemma_v1_step(r1);
            if rs < 0x1_0000_0000 && len > 0 {
                assert(r1.referenceStart == rs);
                lemma_decode_bounds(bytes, rs);
                if rs + len < 0x1_0000_0000 {
                    assert(vstd::wrapping::i64_specs::wrapping_add(start as i64, len as i64) == start + len);
                    assert(r1.referenceEnd == rs + len);
                }
            }
            if 1 <= rs < 0x1_0000_0000 && len < 0 {
                assert(r1.referenceStart == rs - 1);
                lemma_last_group_before(bytes, rs - 1);
                if let Some((p, _, _)) = decode_uvarint_reverse(bytes, rs - 1) {
                    lemma_add_negated(r.pointLat, decoded_point(p).0);
                    lemma_add_negated(r.pointLon, decoded_point(p).1);
                }
                if start + len >= 0 && rs + len >= 1 {
                    assert(vstd::wrapping::i64_specs::wrapping_add(start as i64, len as i64) == start + len);
                    assert(r1.referenceEnd == rs + len - 1);
                }
            }
        }
    }
}

/// One call on a version 0 reader past its first vertex, with more than one
/// vertex still to read, moves its point by the next pair of stored signed
/// differences when they are not both 0.
pub proof fn lemma_v0_step<'a>(r: Reader<'a>)
    requires
        r.library.addressable(),
        r.library.version == 0,
        r.done == 0,
        r.first == 0,
        r.numVertices > 1,
    ensures
        ({
            let bytes = r.bytes();
            let (code, r2) = r.next_point();
            match decode_uvarint(bytes, r.polygonIndex as int) {
                None => true,
                Some((_, i1)) => match decode_uvarint(bytes, i1) {
                    None => true,
                    Some((_, i2)) => {
                        let a = svarint_i32(bytes, r.polygonIndex as int);
                        let b = svarint_i32(bytes, i1);
                        (a, b) != (0i32, 0i32) ==> {
                            &&& code == 1
                            &&& r2.pointLat == vstd::wrapping::i32_specs::wrapping_add(r.pointLat, a)
                            &&& r2.pointLon == vstd::wrapping::i32_specs::wrapping_add(r.pointLon, b)
                            &&& r2.firstLat == r.firstLat && r2.firstLon == r.firstLon
                            &&& r2.polygonIndex == i2
                        }
                    },
                },
            }
        }),
{
    lemma_decode_bounds(r.bytes(), r.polygonIndex as int);
    if let Some((_, i1)) = decode_uvarint(r.bytes(), r.polygonIndex as int) {
        lemma_decode_bounds(r.bytes(), i1);
    }
}

} // verus!
