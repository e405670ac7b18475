//! The variable-length integer encoding of the database.
//!
//! An unsigned integer is stored little-endian in groups of 7 bits, one group
//! per byte; every byte but the last has its high bit set.
use crate::Database;
use vstd::arithmetic::power2::{lemma2_to64, lemma_pow2_adds, lemma_pow2_pos, lemma_pow2_strictly_increases, pow2};
use vstd::bits::lemma_u64_shl_is_mul;
use vstd::prelude::*;

verus! {

/// The 7 payload bits of a byte.
pub open spec fn payload(b: u8) -> u64 {
    (b & 0x7f) as u64
}

/// Whether a byte ends a variable-length integer (its high bit is clear).
pub open spec fn is_last_group(b: u8) -> bool {
    b < 0x80
}

/// The value of the variable-length integer at the front of `s`, whose first
/// group lands at bit `shift`. Shift amounts count in 32 bits and act
/// modulo 64, as a wrapping 64-bit shift does.
pub open spec fn varint_value(s: Seq<u8>, shift: u32) -> u64
    decreases s.len(),
{
    if s.len() == 0 {
        0
    } else {
        let g = vstd::wrapping::u64_specs::wrapping_shl(payload(s[0]), shift);
        if is_last_group(s[0]) {
            g
        } else {
            g | varint_value(s.drop_first(), vstd::wrapping::u32_specs::wrapping_add(shift, 7))
        }
    }
}

/// How far the read position moves when a variable-length integer is read
/// from the front of `s`: up to and including its last byte, or, when `s` ends
/// before a last byte, one past the end of `s`.
pub open spec fn varint_advance(s: Seq<u8>) -> nat
    decreases s.len(),
{
    if s.len() == 0 {
        1
    } else if is_last_group(s[0]) {
        1
    } else {
        1 + varint_advance(s.drop_first())
    }
}

/// Reads the unsigned variable-length integer at `index`: its value and the
/// position after it, or `None` when `index` lies outside the bytes.
pub open spec fn decode_uvarint(bytes: Seq<u8>, index: int) -> Option<(u64, int)> {
    if 0 <= index < bytes.len() {
        let s = bytes.skip(index);
        Some((varint_value(s, 0), index + varint_advance(s)))
    } else {
        None
    }
}

/// The position of the last byte before `i` that ends a variable-length integer.
pub open spec fn last_group_before(bytes: Seq<u8>, i: int) -> Option<int>
    decreases i,
{
    if i <= 0 {
        None
    } else if is_last_group(bytes[i - 1]) {
        Some(i - 1)
    } else {
        last_group_before(bytes, i - 1)
    }
}

/// Reads backwards the variable-length integer that ends at `index`: its value,
/// the position of the end of the integer before it (the new read position),
/// and the number of bytes read.
pub open spec fn decode_uvarint_reverse(bytes: Seq<u8>, index: int) -> Option<(u64, int, int)> {
    if 0 < index < bytes.len() && is_last_group(bytes[index]) {
        match last_group_before(bytes, index) {
            Some(j) => match decode_uvarint(bytes, j + 1) {
                Some((v, next)) => Some((v, j, next - (j + 1))),
                None => None,
            },
            None => None,
        }
    } else {
        None
    }
}

/// The signed integer stored in an unsigned one: the low bit is the sign and
/// the remaining bits the magnitude.
pub open spec fn zigzag(v: u64) -> int {
    if v % 2 == 1 {
        -((v / 2) as int)
    } else {
        (v / 2) as int
    }
}

/// The unsigned value of the variable-length integer at `index`, or 0 where
/// there is none.
pub open spec fn uvarint_or_zero(bytes: Seq<u8>, index: int) -> u64 {
    match decode_uvarint(bytes, index) {
        Some((v, _)) => v,
        None => 0,
    }
}

/// The signed 32-bit value read at `index`: the zig-zag value of the unsigned
/// integer there (0 where there is none), truncated to 32 bits.
pub open spec fn svarint_i32(bytes: Seq<u8>, index: int) -> i32 {
    zigzag(uvarint_or_zero(bytes, index)) as i32
}

/// The read position never moves back, and stays within one past the end.
pub proof fn lemma_advance_bounds(s: Seq<u8>)
    ensures
        1 <= varint_advance(s) <= s.len() + 1,
    decreases s.len(),
{
    if s.len() > 0 && !is_last_group(s[0]) {
        lemma_advance_bounds(s.drop_first());
    }
}

/// A successful read moves forward, to at most one past the end.
pub proof fn lemma_decode_bounds(bytes: Seq<u8>, index: int)
    ensures
        decode_uvarint(bytes, index) matches Some((v, next)) ==> index < next <= bytes.len() + 1,
{
    if 0 <= index < bytes.len() {
        lemma_advance_bounds(bytes.skip(index));
    }
}

/// The integer before `i` ends strictly before `i`.
pub proof fn lemma_last_group_before(bytes: Seq<u8>, i: int)
    ensures
        last_group_before(bytes, i) matches Some(j) ==> 0 <= j < i && is_last_group(bytes[j]),
    decreases i,
{
    if i > 0 && !is_last_group(bytes[i - 1]) {
        lemma_last_group_before(bytes, i - 1);
    }
}

proof fn lemma_advance_shape(s: Seq<u8>)
    requires
        varint_advance(s) <= s.len(),
    ensures
        is_last_group(s[varint_advance(s) - 1]),
        forall|k: int| 0 <= k < varint_advance(s) - 1 ==> !is_last_group(#[trigger] s[k]),
    decreases s.len(),
{
    if s.len() > 0 && !is_last_group(s[0]) {
        let t = s.drop_first();
        lemma_advance_shape(t);
        assert forall|k: int| 0 <= k < varint_advance(s) - 1 implies !is_last_group(#[trigger] s[k]) by {
            if k > 0 {
                assert(s[k] == t[k - 1]);
            }
        }
    }
}

proof fn lemma_last_group_found(bytes: Seq<u8>, j: int, e: int)
    requires
        0 <= j < e <= bytes.len(),
        is_last_group(bytes[j]),
        forall|k: int| j < k < e ==> !is_last_group(#[trigger] bytes[k]),
    ensures
        last_group_before(bytes, e) == Some(j),
    decreases e - j,
{
    if e - 1 > j {
        lemma_last_group_found(bytes, j, e - 1);
    }
}

/// Reading an integer backwards from its last byte gives back what reading
/// it forwards gave, and moves to the end of the integer before it.
pub proof fn lemma_reverse_undoes_forward(bytes: Seq<u8>, i: int)
    requires
        1 <= i < bytes.len(),
        is_last_group(bytes[i - 1]),
        decode_uvarint(bytes, i) matches Some((_, next)) && next <= bytes.len(),
    ensures
        decode_uvarint(bytes, i) matches Some((v, next)) && decode_uvarint_reverse(bytes, next - 1) == Some((v, i - 1, next - i)),
{
    let s = bytes.skip(i);
    let n = varint_advance(s);
    lemma_advance_bounds(s);
    lemma_advance_shape(s);
    assert(is_last_group(bytes[i + n - 1]));
    assert forall|k: int| i - 1 < k < i + n - 1 implies !is_last_group(#[trigger] bytes[k]) by {
        assert(bytes[k] == s[k - i]);
    }
    lemma_last_group_found(bytes, i - 1, i + n - 1);
}

/// The number that the payloads of the integer at the front of `s` write in
/// base 128, least significant first.
pub open spec fn base128(s: Seq<u8>) -> nat
    decreases s.len(),
{
    if s.len() == 0 {
        0
    } else if is_last_group(s[0]) {
        payload(s[0]) as nat
    } else {
        (payload(s[0]) + 128 * base128(s.drop_first())) as nat
    }
}

proof fn lemma_payload_small(b: u8)
    ensures
        payload(b) < 128,
{
    assert((b & 0x7f) < 128) by (bit_vector);
}

proof fn lemma_disjoint_or(a: u64, b: u64, m: u64)
    requires
        m < 64,
        a < (1u64 << m),
    ensures
        a | (b << m) == a + (b << m),
{
    assert(m < 64 && a < (1u64 << m) ==> a | (b << m) == a + (b << m)) by (bit_vector);
}

proof fn lemma_shl_u32(x: u64, sh: u32)
    requires
        sh < 64,
    ensures
        vstd::wrapping::u64_specs::wrapping_shl(x, sh) == x << (sh as u64),
{
    assert(sh < 64 ==> (x << (sh % 64)) == x << (sh as u64)) by (bit_vector);
}

#[verifier::spinoff_prover]
proof fn lemma_value_base128(s: Seq<u8>, sh: u32)
    requires
        sh + 7 * varint_advance(s) <= 64,
    ensures
        varint_value(s, sh) as nat == base128(s) * pow2(sh as nat),
        base128(s) < pow2(7 * varint_advance(s)),
    decreases s.len(),
{
    lemma_advance_bounds(s);
    lemma2_to64();
    lemma_pow2_pos(sh as nat);
    if s.len() == 0 {
        lemma_pow2_pos(7);
        let b = base128(s);
        let q = pow2(sh as nat);
        assert(b == 0);
        assert(b * q == 0) by (nonlinear_arith)
            requires
                b == 0,
        ;
        return;
    }
    let p = payload(s[0]);
    lemma_payload_small(s[0]);
    lemma_pow2_adds(sh as nat, 7);
    assert(p * pow2(sh as nat) < pow2((sh + 7) as nat)) by (nonlinear_arith)
        requires
            p < 128,
            pow2((sh + 7) as nat) == pow2(sh as nat) * pow2(7),
            pow2(7) == 128,
            pow2(sh as nat) > 0,
    ;
    if sh + 7 < 64 {
        lemma_pow2_strictly_increases((sh + 7) as nat, 64);
    }
    lemma_u64_shl_is_mul(p, sh as u64);
    lemma_shl_u32(p, sh);
    let a = vstd::wrapping::u64_specs::wrapping_shl(p, sh);
    assert(a == p * pow2(sh as nat));
    if is_last_group(s[0]) {
        assert(varint_value(s, sh) == a);
    } else {
        let rest = s.drop_first();
        let m: u32 = (sh + 7) as u32;
        assert(vstd::wrapping::u32_specs::wrapping_add(sh, 7) == m);
        lemma_value_base128(rest, m);
        let b = base128(rest);
        let v = varint_value(rest, m);
        lemma_pow2_pos(m as nat);
        lemma_pow2_adds(m as nat, 7 * varint_advance(rest));
        assert(b * pow2(m as nat) < pow2(m as nat + 7 * varint_advance(rest))) by (nonlinear_arith)
            requires
                b < pow2(7 * varint_advance(rest)),
                pow2(m as nat + 7 * varint_advance(rest)) == pow2(m as nat) * pow2(7 * varint_advance(rest)),
                pow2(m as nat) > 0,
        ;
        if m as nat + 7 * varint_advance(rest) < 64 {
            lemma_pow2_strictly_increases(m as nat + 7 * varint_advance(rest), 64);
        }
        lemma_advance_bounds(rest);
        assert(b * pow2(m as nat) < 0x1_0000_0000_0000_0000);
        assert(b <= b * pow2(m as nat)) by (nonlinear_arith)
            requires
                pow2(m as nat) > 0,
        ;
        lemma_u64_shl_is_mul(b as u64, m as u64);
        lemma_u64_shl_is_mul(1, m as u64);
        assert(v == (b as u64) << (m as u64));
        lemma_disjoint_or(a, b as u64, m as u64);
        assert(varint_value(s, sh) == a | v);
        assert(a + v == (p + 128 * b) * pow2(sh as nat)) by (nonlinear_arith)
            requires
                a == p * pow2(sh as nat),
                v == b * pow2(m as nat),
                pow2(m as nat) == pow2(sh as nat) * 128,
        ;
        lemma_pow2_adds(7, 7 * varint_advance(rest));
        assert(p + 128 * b < pow2(7 * varint_advance(s))) by (nonlinear_arith)
            requires
                p < 128,
                b < pow2(7 * varint_advance(rest)),
                7 * varint_advance(s) == 7 + 7 * varint_advance(rest),
                pow2(7 + 7 * varint_advance(rest)) == pow2(7) * pow2(7 * varint_advance(rest)),
                pow2(7) == 128,
        ;
    }
}

/// An integer of at most nine bytes (counting one more when the bytes run
/// out before its last byte) is read as the base-128 number of its payloads.
pub proof fn lemma_varint_is_base128(s: Seq<u8>)
    requires
        varint_advance(s) <= 9,
    ensures
        varint_value(s, 0) as nat == base128(s),
{
    lemma_value_base128(s, 0);
    lemma2_to64();
}

proof fn lemma_high_bit(b: u8)
    ensures
        (b & 0x80 == 0) == is_last_group(b),
{
    assert((b & 0x80 == 0) == (b < 0x80)) by (bit_vector);
}

proof fn lemma_payload(b: u8)
    ensures
        (b as u64) & 0x7f == payload(b),
{
    assert((b as u64) & 0x7f == (b & 0x7f) as u64) by (bit_vector);
}

proof fn lemma_or_assoc(a: u64, b: u64, c: u64)
    ensures
        (a | b) | c == a | (b | c),
        a | 0 == a,
        0 | a == a,
{
    assert(0 | a == a) by (bit_vector);
    assert((a | b) | c == a | (b | c)) by (bit_vector);
    assert(a | 0 == a) by (bit_vector);
}

/// Reads an unsigned variable-length integer at `*index`. On success it stores
/// the value in `*result`, moves `*index` past it and returns how far it
/// moved; it returns 0, changing nothing, when `*index` is past the end.
pub fn ZDDecodeVariableLengthUnsigned(library: &Database, index: &mut u32, result: &mut u64) -> (n: u32)
    requires
        library.addressable(),
    ensures
        match decode_uvarint(library.mapping@, *old(index) as int) {
            None => n == 0 && *final(index) == *old(index) && *final(result) == *old(result),
            Some((v, next)) => {
                &&& n == next - *old(index)
                &&& n > 0
                &&& *final(index) == next
                &&& *final(result) == v
            },
        },
{
    let len = library.mapping.len();
    if (*index as usize) >= len {
        return 0;
    }
    let ghost bytes = library.mapping@;
    let start = *index as usize;
    let ghost s = bytes.skip(start as int);
    let mut value: u64 = 0;
    let mut i: u32 = 0;
    let mut shift: u32 = 0;
    let mut p: usize = start;
    assert(s.skip(0) =~= s);
    proof {
        lemma_or_assoc(varint_value(s, 0), 0, 0);
    }
    loop
        invariant_except_break
            start <= p <= len,
            len == bytes.len(),
            bytes == library.mapping@,
            len < u32::MAX,
            i == p - start,
            s == bytes.skip(start as int),
            varint_value(s, 0) == value | varint_value(s.skip(i as int), shift),
            varint_advance(s) == i + varint_advance(s.skip(i as int)),
        ensures
            i <= len - start,
            len < u32::MAX,
            varint_value(s, 0) == value,
            varint_advance(s) == i + 1,
        decreases len - p,
    {
        if p == len {
            assert(s.skip(i as int) =~= Seq::<u8>::empty());
            proof {
                lemma_or_assoc(value, 0, 0);
            }
            break;
        }
        let byte = library.mapping[p];
        let ghost rest = s.skip(i as int);
        assert(rest[0] == byte);
        let g = ((byte as u64) & 0x7f).wrapping_shl(shift);
        proof {
            lemma_payload(byte);
            lemma_or_assoc(value, g, varint_value(rest.drop_first(), vstd::wrapping::u32_specs::wrapping_add(shift, 7)));
            lemma_high_bit(byte);
        }
        value = value | g;
        if byte & 0x80 == 0 {
            break;
        }
        assert(rest.drop_first() =~= s.skip(i + 1));
        shift = shift.wrapping_add(7);
        i = i + 1;
        p = p + 1;
    }
    i = i + 1;
    *result = value;
    *index = *index + i;
    i
}

/// Reads backwards the variable-length integer that ends at `*index`: the
/// byte at `*index` must end an integer and some earlier byte must end the
/// one before it. On success `*index` moves to that earlier byte, `*result`
/// holds the value and the length read is returned; otherwise it returns 0
/// and changes nothing.
pub fn ZDDecodeVariableLengthUnsignedReverse(library: &Database, index: &mut u32, result: &mut u64) -> (n: u32)
    requires
        library.addressable(),
    ensures
        match decode_uvarint_reverse(library.mapping@, *old(index) as int) {
            None => n == 0 && *final(index) == *old(index) && *final(result) == *old(result),
            Some((v, prev, len)) => {
                &&& n == len
                &&& n > 0
                &&& *final(index) == prev
                &&& *final(result) == v
            },
        },
{
    let ghost bytes = library.mapping@;
    let mut i: u32 = *index;
    if (*index as usize) >= library.mapping.len() {
        return 0;
    }
    proof {
        lemma_high_bit(library.mapping@[i as int]);
    }
    if library.mapping[i as usize] & 0x80 != 0 {
        return 0;
    }
    if i == 0 {
        return 0;
    }
    i = i - 1;
    loop
        invariant
            i < *old(index),
            *index == *old(index),
            bytes == library.mapping@,
            (*old(index) as int) < bytes.len(),
            last_group_before(bytes, *old(index) as int) == last_group_before(bytes, i + 1),
        ensures
            is_last_group(bytes[i as int]),
        decreases i,
    {
        proof {
            lemma_high_bit(library.mapping@[i as int]);
        }
        if library.mapping[i as usize] & 0x80 == 0 {
            break;
        }
        if i == 0 {
            assert(last_group_before(bytes, 0) == None::<int>);
            return 0;
        }
        i = i - 1;
    }
    *index = i;
    let mut i2: u32 = i + 1;
    ZDDecodeVariableLengthUnsigned(library, &mut i2, result)
}

/// Decodes the zig-zag encoding: odd values are negative.
pub fn ZDDecodeUnsignedToSigned(value: u64) -> (r: i64)
    ensures
        r == zigzag(value),
{
    assert(value & 1 != 0 <==> value % 2 == 1) by (bit_vector);
    if value & 1 != 0 {
        -((value / 2) as i64)
    } else {
        (value / 2) as i64
    }
}

/// Reads a signed variable-length integer at `*index` into `*result`,
/// truncated to 32 bits (0 when there is none); the return value and the
/// movement of `*index` are those of the unsigned read.
pub fn ZDDecodeVariableLengthSigned(library: &Database, index: &mut u32, result: &mut i32) -> (n: u32)
    requires
        library.addressable(),
    ensures
        *final(result) == svarint_i32(library.mapping@, *old(index) as int),
        match decode_uvarint(library.mapping@, *old(index) as int) {
            None => n == 0 && *final(index) == *old(index),
            Some((v, next)) => n == next - *old(index) && n > 0 && *final(index) == next,
        },
{
    let mut value: u64 = 0;
    let ret = ZDDecodeVariableLengthUnsigned(library, index, &mut value);
    *result = ZDDecodeUnsignedToSigned(value) as i32;
    ret
}

/// Bit `k` of `x`.
pub open spec fn bit64(x: u64, k: u64) -> u64 {
    (x >> k) & 1
}

/// The even-numbered bits of `w` gathered into 32 bits, by the usual
/// mask-and-shift compaction (`ZDUnshuffle` shows bit `k` is bit `2k` of `w`).
pub open spec fn unshuffled(w: u64) -> u32 {
    let x1 = w & 0x5555_5555_5555_5555;
    let x2 = (x1 | x1 >> 1u64) & 0x3333_3333_3333_3333;
    let x3 = (x2 | x2 >> 2u64) & 0x0f0f_0f0f_0f0f_0f0f;
    let x4 = (x3 | x3 >> 4u64) & 0x00ff_00ff_00ff_00ff;
    let x5 = (x4 | x4 >> 8u64) & 0x0000_ffff_0000_ffff;
    ((x5 | x5 >> 16u64) & 0xffff_ffff) as u32
}

/// A point of a polygon stored as one integer: latitude in the even bits,
/// longitude in the odd bits, each zig-zag encoded.
pub open spec fn decoded_point(point: u64) -> (i32, i32) {
    (zigzag(unshuffled(point) as u64) as i32, zigzag(unshuffled(point >> 1u64) as u64) as i32)
}

/// Gathers the even-numbered bits of `w` (bits 0, 2, 4, ...) into a 32-bit value.
pub fn ZDUnshuffle(w: u64) -> (r: u32)
    ensures
        r == unshuffled(w),
        forall|k: u64| k < 32 ==> #[trigger] bit64(r as u64, k) == bit64(w, (2 * k) as u64),
{
    let x1: u64 = w & 0x5555_5555_5555_5555;
    let x2: u64 = (x1 | x1 >> 1u64) & 0x3333_3333_3333_3333;
    let x3: u64 = (x2 | x2 >> 2u64) & 0x0f0f_0f0f_0f0f_0f0f;
    let x4: u64 = (x3 | x3 >> 4u64) & 0x00ff_00ff_00ff_00ff;
    let x5: u64 = (x4 | x4 >> 8u64) & 0x0000_ffff_0000_ffff;
    let x: u64 = (x5 | x5 >> 16u64) & 0xffff_ffff;
    assert(forall|k: u64| k < 32 ==> #[trigger] ((x >> k) & 1) == ((w >> (2 * k)) & 1)) by (bit_vector)
        requires
            x1 == w & 0x5555_5555_5555_5555,
            x2 == (x1 | x1 >> 1u64) & 0x3333_3333_3333_3333,
            x3 == (x2 | x2 >> 2u64) & 0x0f0f_0f0f_0f0f_0f0f,
            x4 == (x3 | x3 >> 4u64) & 0x00ff_00ff_00ff_00ff,
            x5 == (x4 | x4 >> 8u64) & 0x0000_ffff_0000_ffff,
            x == (x5 | x5 >> 16u64) & 0xffff_ffff,
    ;
    assert(x < 0x1_0000_0000) by (bit_vector)
        requires
            x == (x5 | x5 >> 16u64) & 0xffff_ffff,
    ;
    x as u32
}

/// Splits an encoded point into its latitude and longitude differences.
pub fn ZDDecodePoint(point: u64) -> (r: (i32, i32))
    ensures
        r == decoded_point(point),
        -0x8000_0000 < r.0 && -0x8000_0000 < r.1,
{
    let lat = ZDDecodeUnsignedToSigned(ZDUnshuffle(point) as u64) as i32;
    let lon = ZDDecodeUnsignedToSigned(ZDUnshuffle(point >> 1u64) as u64) as i32;
    (lat, lon)
}

} // verus!
