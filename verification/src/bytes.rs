//! Little-endian fields and sample encodings of the waveform byte layout.
use vstd::prelude::*;

verus! {

/// The unsigned 32-bit value stored little-endian at `off`.
pub open spec fn u32_at(b: Seq<u8>, off: int) -> int {
    b[off] as int + b[off + 1] as int * 256 + b[off + 2] as int * 65536 + b[off + 3] as int
        * 16777216
}

/// The two's-complement signed 32-bit value stored little-endian at `off`.
pub open spec fn i32_at(b: Seq<u8>, off: int) -> int {
    let u = u32_at(b, off);
    if u < 0x8000_0000 {
        u
    } else {
        u - 0x1_0000_0000
    }
}

/// The four little-endian bytes of an unsigned 32-bit value.
pub open spec fn u32_bytes(v: u32) -> Seq<u8> {
    seq![
        (v % 256) as u8,
        ((v / 256) % 256) as u8,
        ((v / 65536) % 256) as u8,
        (v / 16777216) as u8,
    ]
}

/// `b` with the four bytes at `off` replaced by the little-endian encoding of `v`.
pub open spec fn put_u32(b: Seq<u8>, off: int, v: u32) -> Seq<u8> {
    b.take(off) + u32_bytes(v) + b.skip(off + 4)
}

/// The bit pattern of a signed 32-bit value, as an unsigned value.
pub open spec fn i32_bits(v: i32) -> u32 {
    if v >= 0 {
        v as u32
    } else {
        (v + 0x1_0000_0000) as u32
    }
}

/// A byte read as a signed 8-bit sample.
pub open spec fn i8_of(b: u8) -> int {
    if b < 128 {
        b as int
    } else {
        b as int - 256
    }
}

/// Two little-endian bytes read as a signed 16-bit sample.
pub open spec fn i16_of(lo: u8, hi: u8) -> int {
    let u = lo as int + hi as int * 256;
    if u < 32768 {
        u
    } else {
        u - 65536
    }
}

/// The value that an integer becomes when stored in `n_bits` bits two's-complement
/// (wrapping), `n_bits` being 8 or 16.
pub open spec fn wrap_to(x: int, n_bits: int) -> int {
    let m: int = if n_bits == 8 { 256 } else { 65536 };
    let r = x % m;
    if r < m / 2 {
        r
    } else {
        r - m
    }
}

pub proof fn lemma_u32_bytes_roundtrip(v: u32)
    ensures
        u32_at(u32_bytes(v), 0) == v,
        u32_bytes(v).len() == 4,
{
    let x = v as int;
    assert(x == x % 256 + ((x / 256) % 256) * 256 + ((x / 65536) % 256) * 65536 + (x / 16777216)
        * 16777216) by (nonlinear_arith)
        requires
            0 <= x < 0x1_0000_0000,
    ;
}

pub proof fn lemma_put_u32(b: Seq<u8>, off: int, v: u32)
    requires
        0 <= off,
        off + 4 <= b.len(),
    ensures
        put_u32(b, off, v).len() == b.len(),
        u32_at(put_u32(b, off, v), off) == v,
        forall|j: int|
            0 <= j < b.len() && (j < off || j >= off + 4) ==> #[trigger] put_u32(b, off, v)[j]
                == b[j],
{
    lemma_u32_bytes_roundtrip(v);
    let r = put_u32(b, off, v);
    assert(r[off] == u32_bytes(v)[0]);
    assert(r[off + 1] == u32_bytes(v)[1]);
    assert(r[off + 2] == u32_bytes(v)[2]);
    assert(r[off + 3] == u32_bytes(v)[3]);
}

/// The bytes of a field are the little-endian digits of its value.
pub proof fn lemma_u32_at_digits(b: Seq<u8>, off: int)
    requires
        0 <= off,
        off + 4 <= b.len(),
    ensures
        b[off] == u32_at(b, off) % 256,
        b[off + 1] == (u32_at(b, off) / 256) % 256,
        b[off + 2] == (u32_at(b, off) / 65536) % 256,
        b[off + 3] == u32_at(b, off) / 16777216,
        0 <= u32_at(b, off) < 0x1_0000_0000,
{
    let a0 = b[off] as int;
    let a1 = b[off + 1] as int;
    let a2 = b[off + 2] as int;
    let a3 = b[off + 3] as int;
    let x = u32_at(b, off);
    assert(x % 256 == a0 && (x / 256) % 256 == a1 && (x / 65536) % 256 == a2 && x / 16777216
        == a3 && 0 <= x < 0x1_0000_0000) by (nonlinear_arith)
        requires
            x == a0 + a1 * 256 + a2 * 65536 + a3 * 16777216,
            0 <= a0 < 256,
            0 <= a1 < 256,
            0 <= a2 < 256,
            0 <= a3 < 256,
    ;
}

/// Writing back the value a field already holds leaves the bytes unchanged.
pub proof fn lemma_put_u32_same(b: Seq<u8>, off: int)
    requires
        0 <= off,
        off + 4 <= b.len(),
    ensures
        put_u32(b, off, u32_at(b, off) as u32) == b,
{
    lemma_u32_at_digits(b, off);
    assert(put_u32(b, off, u32_at(b, off) as u32) =~= b);
}

/// Two fields with the same value have the same bytes.
pub proof fn lemma_u32_at_same_bytes(a: Seq<u8>, b: Seq<u8>, off: int)
    requires
        0 <= off,
        off + 4 <= a.len(),
        off + 4 <= b.len(),
        u32_at(a, off) == u32_at(b, off),
    ensures
        forall|j: int| off <= j < off + 4 ==> a[j] == b[j],
{
    lemma_u32_at_digits(a, off);
    lemma_u32_at_digits(b, off);
}

/// Distinct byte pairs read as distinct 16-bit samples.
pub proof fn lemma_i16_of_injective(lo: u8, hi: u8, lo2: u8, hi2: u8)
    requires
        i16_of(lo, hi) == i16_of(lo2, hi2),
    ensures
        lo == lo2,
        hi == hi2,
{
    let u = lo as int + hi as int * 256;
    let u2 = lo2 as int + hi2 as int * 256;
    assert(u == u2) by (nonlinear_arith)
        requires
            0 <= lo < 256,
            0 <= hi < 256,
            0 <= lo2 < 256,
            0 <= hi2 < 256,
            u == lo + hi * 256,
            u2 == lo2 + hi2 * 256,
            (if u < 32768 { u } else { u - 65536 }) == (if u2 < 32768 { u2 } else { u2 - 65536 }),
    ;
    assert(lo == lo2 && hi == hi2) by (nonlinear_arith)
        requires
            0 <= lo < 256,
            0 <= hi < 256,
            0 <= lo2 < 256,
            0 <= hi2 < 256,
            lo + hi * 256 == lo2 + hi2 * 256,
    ;
}

pub proof fn lemma_i32_bits(v: i32)
    ensures
        (if i32_bits(v) < 0x8000_0000 {
            i32_bits(v) as int
        } else {
            i32_bits(v) - 0x1_0000_0000
        }) == v,
{
}

/// Reads the little-endian unsigned 32-bit field at `offset`.
pub fn read_u32_le(buffer: &[u8], offset: usize) -> (r: u32)
    requires
        offset + 4 <= buffer@.len(),
    ensures
        r == u32_at(buffer@, offset as int),
{
    let b0: u32 = buffer[offset] as u32;
    let b1: u32 = buffer[offset + 1] as u32;
    let b2: u32 = buffer[offset + 2] as u32;
    let b3: u32 = buffer[offset + 3] as u32;
    b0 + b1 * 256 + b2 * 65536 + b3 * 16777216
}

/// Reads the little-endian signed 32-bit field at `offset`.
pub fn read_i32_le(buffer: &[u8], offset: usize) -> (r: i32)
    requires
        offset + 4 <= buffer@.len(),
    ensures
        r == i32_at(buffer@, offset as int),
{
    let u: u32 = read_u32_le(buffer, offset);
    if u < 0x8000_0000 {
        u as i32
    } else {
        let low: i32 = (u - 0x8000_0000) as i32;
        low - 0x7fff_ffff - 1
    }
}

/// Writes `value` little-endian at `offset`.
pub fn write_u32_le(buffer: &mut Vec<u8>, offset: usize, value: u32)
    requires
        offset + 4 <= old(buffer)@.len(),
    ensures
        final(buffer)@ == put_u32(old(buffer)@, offset as int, value),
{
    let ghost old_b = buffer@;
    let n: usize = buffer.len();
    buffer.set(offset, (value % 256) as u8);
    buffer.set(offset + 1, ((value / 256) % 256) as u8);
    buffer.set(offset + 2, ((value / 65536) % 256) as u8);
    buffer.set(offset + 3, (value / 16777216) as u8);
    assert(buffer@ =~= put_u32(old_b, offset as int, value));
}

/// Writes `value` little-endian two's-complement at `offset`.
pub fn write_i32_le(buffer: &mut Vec<u8>, offset: usize, value: i32)
    requires
        offset + 4 <= old(buffer)@.len(),
    ensures
        final(buffer)@ == put_u32(old(buffer)@, offset as int, i32_bits(value)),
{
    let bits: u32 = if value >= 0 {
        value as u32
    } else {
        (value as i64 + 0x1_0000_0000i64) as u32
    };
    write_u32_le(buffer, offset, bits);
}

/// The bit pattern of a signed 32-bit value, as an unsigned value.
pub fn i32_to_bits(v: i32) -> (r: u32)
    ensures
        r == i32_bits(v),
{
    if v >= 0 {
        v as u32
    } else {
        (v as i64 + 0x1_0000_0000i64) as u32
    }
}

/// Decodes the signed 8-bit sample stored in `b`.
pub fn decode_i8(b: u8) -> (r: i32)
    ensures
        r == i8_of(b),
{
    if b < 128 {
        b as i32
    } else {
        b as i32 - 256
    }
}

/// Decodes the signed 16-bit sample stored little-endian in `lo`, `hi`.
pub fn decode_i16(lo: u8, hi: u8) -> (r: i32)
    ensures
        r == i16_of(lo, hi),
{
    let u: i32 = lo as i32 + hi as i32 * 256;
    if u < 32768 {
        u
    } else {
        u - 65536
    }
}

/// The low byte of `x`, as stored by an 8-bit write (wraps).
pub fn encode_u8(x: i64) -> (r: u8)
    ensures
        r as int == x % 256,
{
    let shifted: u64 = (x as i128 + 0x8000_0000_0000_0000i128) as u64;
    proof {
        assert((x + 0x8000_0000_0000_0000) % 256 == x % 256) by (nonlinear_arith);
    }
    (shifted % 256) as u8
}

/// The two little-endian bytes of `x`, as stored by a 16-bit write (wraps).
pub fn encode_u16(x: i64) -> (r: (u8, u8))
    ensures
        r.0 as int == (x % 65536) % 256,
        r.1 as int == (x % 65536) / 256,
{
    let shifted: u64 = (x as i128 + 0x8000_0000_0000_0000i128) as u64;
    proof {
        assert((x + 0x8000_0000_0000_0000) % 65536 == x % 65536) by (nonlinear_arith);
    }
    let low: u64 = shifted % 65536;
    ((low % 256) as u8, (low / 256) as u8)
}

pub proof fn lemma_wrap8(x: int)
    ensures
        i8_of((x % 256) as u8) == wrap_to(x, 8),
{
}

pub proof fn lemma_wrap16(x: int)
    ensures
        i16_of(((x % 65536) % 256) as u8, ((x % 65536) / 256) as u8) == wrap_to(x, 16),
{
    let r = x % 65536;
    assert(r == (r % 256) + (r / 256) * 256);
}

} // verus!
