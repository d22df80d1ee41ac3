//! The binary `.dat` layout, read as a sequence of bytes.
//!
//! All multi-byte header fields are little-endian. Version 1 has a 20-byte
//! header and a single implicit channel; version 2 has a 24-byte header with
//! an explicit channel count. The flag at offset 4 is nonzero for 8-bit
//! samples and zero for 16-bit samples. Samples follow the header as
//! `(min, max)` pairs, ordered by data point, then channel.
use vstd::prelude::*;
use crate::bytes::{i16_of, i32_at, i8_of, lemma_wrap16, lemma_wrap8, u32_at, wrap_to};
use crate::error::Error;

verus! {

/// The version field at offset 0.
pub open spec fn version_of(b: Seq<u8>) -> int {
    i32_at(b, 0)
}

/// Header size in bytes: 24 for version 2, 20 otherwise.
pub open spec fn header_size_of(b: Seq<u8>) -> int {
    if version_of(b) == 2 {
        24
    } else {
        20
    }
}

/// Whether samples are stored in 8 bits (nonzero flag at offset 4).
pub open spec fn eight_bit_of(b: Seq<u8>) -> bool {
    u32_at(b, 4) != 0
}

/// Bytes per stored sample.
pub open spec fn bytes_per_sample_of(b: Seq<u8>) -> int {
    if eight_bit_of(b) {
        1
    } else {
        2
    }
}

/// Bits per stored sample, 8 or 16.
pub open spec fn bits_of(b: Seq<u8>) -> int {
    if eight_bit_of(b) {
        8
    } else {
        16
    }
}

/// The sample rate field at offset 8.
pub open spec fn sample_rate_of(b: Seq<u8>) -> int {
    i32_at(b, 8)
}

/// The scale (audio samples per data point) field at offset 12.
pub open spec fn scale_of(b: Seq<u8>) -> int {
    i32_at(b, 12)
}

/// The length (data point count) field at offset 16, unsigned.
pub open spec fn length_of(b: Seq<u8>) -> int {
    u32_at(b, 16)
}

/// The channel count: the field at offset 20 in version 2, else 1.
pub open spec fn channels_of(b: Seq<u8>) -> int {
    if version_of(b) == 2 {
        i32_at(b, 20)
    } else {
        1
    }
}

/// Number of stored sample slots the header claims: a `(min, max)` pair per
/// data point per channel.
pub open spec fn slot_count_of(b: Seq<u8>) -> int {
    length_of(b) * channels_of(b) * 2
}

/// The error, if any, that loading `b` as a binary waveform reports.
pub open spec fn binary_error(b: Seq<u8>) -> Option<Error> {
    if b.len() < 4 {
        Some(Error::UnknownDataFormat)
    } else if version_of(b) != 1 && version_of(b) != 2 {
        Some(Error::UnsupportedVersion)
    } else if b.len() < header_size_of(b) {
        Some(Error::UnknownDataFormat)
    } else if channels_of(b) <= 0 || b.len() - header_size_of(b) != slot_count_of(b)
        * bytes_per_sample_of(b) {
        Some(Error::DataLengthMismatch)
    } else {
        None
    }
}

/// A well-formed binary waveform: a version 1 or 2 header, a positive channel
/// count, and exactly the data section that the header claims.
pub open spec fn is_valid_waveform(b: Seq<u8>) -> bool {
    binary_error(b) is None
}

/// Byte position of flat sample slot `k`.
pub open spec fn slot_byte(b: Seq<u8>, k: int) -> int {
    header_size_of(b) + if eight_bit_of(b) {
        k
    } else {
        2 * k
    }
}

/// The signed sample stored at byte position `p`.
pub open spec fn sample_at_byte(b: Seq<u8>, p: int) -> int {
    if eight_bit_of(b) {
        i8_of(b[p])
    } else {
        i16_of(b[p], b[p + 1])
    }
}

/// The signed sample in flat slot `k`.
pub open spec fn sample(b: Seq<u8>, k: int) -> int {
    sample_at_byte(b, slot_byte(b, k))
}

/// Reading flat slot `k`: the sample when `k` lies in the data section,
/// else `IndexOutOfRange`.
pub open spec fn read_slot(b: Seq<u8>, k: int) -> Result<i32, Error> {
    if 0 <= k < slot_count_of(b) {
        Ok(sample(b, k) as i32)
    } else {
        Err(Error::IndexOutOfRange)
    }
}

/// Slot of the minimum of data point `index` in channel `channel`.
pub open spec fn min_slot(b: Seq<u8>, channel: int, index: int) -> int {
    (index * channels_of(b) + channel) * 2
}

/// Slot of the maximum of data point `index` in channel `channel`.
pub open spec fn max_slot(b: Seq<u8>, channel: int, index: int) -> int {
    (index * channels_of(b) + channel) * 2 + 1
}

/// Data points that the `i32`-indexed accessors enumerate: `length` when it
/// fits in `i32`, else none (the range `0..length as i32` is empty then).
pub open spec fn point_count_of(b: Seq<u8>) -> int {
    if length_of(b) <= i32::MAX {
        length_of(b)
    } else {
        0
    }
}

/// All stored samples, in slot order.
pub open spec fn samples_of(b: Seq<u8>) -> Seq<int> {
    Seq::new(slot_count_of(b) as nat, |k: int| sample(b, k))
}

/// The minimums of channel `channel`, one per enumerated data point.
pub open spec fn channel_mins(b: Seq<u8>, channel: int) -> Seq<i32> {
    Seq::new(point_count_of(b) as nat, |i: int| sample(b, min_slot(b, channel, i)) as i32)
}

/// The maximums of channel `channel`, one per enumerated data point.
pub open spec fn channel_maxs(b: Seq<u8>, channel: int) -> Seq<i32> {
    Seq::new(point_count_of(b) as nat, |i: int| sample(b, max_slot(b, channel, i)) as i32)
}

/// `b` carries a version-2 header with exactly these fields.
pub open spec fn has_v2_header(
    b: Seq<u8>,
    eight_bit: bool,
    sample_rate: int,
    scale: int,
    length: int,
    channels: int,
) -> bool {
    &&& b.len() >= 24
    &&& i32_at(b, 0) == 2
    &&& u32_at(b, 4) == (if eight_bit {
        1int
    } else {
        0int
    })
    &&& i32_at(b, 8) == sample_rate
    &&& i32_at(b, 12) == scale
    &&& u32_at(b, 16) == length
    &&& i32_at(b, 20) == channels
}

/// Samples are within the signed range of the stored width.
pub open spec fn sample_in_range(b: Seq<u8>, v: int) -> bool {
    if eight_bit_of(b) {
        -128 <= v <= 127
    } else {
        -32768 <= v <= 32767
    }
}

pub proof fn lemma_sample_bounds(b: Seq<u8>, k: int)
    requires
        0 <= slot_byte(b, k),
        slot_byte(b, k) + bytes_per_sample_of(b) <= b.len(),
    ensures
        sample_in_range(b, sample(b, k)),
{
}

/// The slot of data point `index`, channel `channel` lies in the data section
/// whenever the point and channel do.
pub proof fn lemma_slot_in_range(length: int, channels: int, channel: int, index: int)
    requires
        0 <= index < length,
        0 <= channel < channels,
    ensures
        0 <= index * channels + channel < length * channels,
        (index * channels + channel) * 2 + 1 < length * channels * 2,
{
    assert(index * channels + channel < length * channels) by (nonlinear_arith)
        requires
            0 <= index < length,
            0 <= channel < channels,
    ;
    assert(0 <= index * channels) by (nonlinear_arith)
        requires
            0 <= index,
            0 <= channels,
    ;
}

/// `b` with flat slot `k` overwritten by `v`, wrapped to the stored width.
pub open spec fn store_slot(b: Seq<u8>, k: int, v: int) -> Seq<u8> {
    let p = slot_byte(b, k);
    if eight_bit_of(b) {
        b.update(p, (v % 256) as u8)
    } else {
        b.update(p, ((v % 65536) % 256) as u8).update(p + 1, ((v % 65536) / 256) as u8)
    }
}

/// Storing a slot keeps the header, keeps the buffer well-formed, stores the
/// wrapped value in that slot, and leaves every other slot as it was.
pub proof fn lemma_store_slot(b: Seq<u8>, k: int, v: int)
    requires
        is_valid_waveform(b),
        0 <= k < slot_count_of(b),
    ensures
        ({
            let nb = store_slot(b, k, v);
            &&& nb.len() == b.len()
            &&& forall|j: int| 0 <= j < header_size_of(b) ==> nb[j] == b[j]
            &&& version_of(nb) == version_of(b)
            &&& eight_bit_of(nb) == eight_bit_of(b)
            &&& sample_rate_of(nb) == sample_rate_of(b)
            &&& scale_of(nb) == scale_of(b)
            &&& length_of(nb) == length_of(b)
            &&& channels_of(nb) == channels_of(b)
            &&& is_valid_waveform(nb)
            &&& sample(nb, k) == wrap_to(v, bits_of(b))
            &&& forall|j: int|
                0 <= j < slot_count_of(b) && j != k ==> #[trigger] sample(nb, j) == sample(b, j)
        }),
{
    let nb = store_slot(b, k, v);
    let hs = header_size_of(b);
    assert(hs <= slot_byte(b, k));
    assert forall|j: int| 0 <= j < header_size_of(b) implies nb[j] == b[j] by {}
    assert(version_of(nb) == version_of(b));
    assert(eight_bit_of(nb) == eight_bit_of(b));
    assert(length_of(nb) == length_of(b));
    assert(channels_of(nb) == channels_of(b));
    if eight_bit_of(b) {
        lemma_wrap8(v);
    } else {
        lemma_wrap16(v);
    }
}

/// Every slot of the data section of a well-formed waveform is readable.
pub proof fn lemma_slot_readable(b: Seq<u8>, k: int)
    requires
        is_valid_waveform(b),
        0 <= k < slot_count_of(b),
    ensures
        read_slot(b, k) == Ok::<i32, Error>(sample(b, k) as i32),
        0 <= slot_byte(b, k),
        slot_byte(b, k) + bytes_per_sample_of(b) <= b.len(),
{
}

/// Distinct (point, channel) pairs own distinct slots.
pub proof fn lemma_pair_slot_distinct(ch: int, p: int, c: int, p2: int, c2: int)
    requires
        0 <= c < ch,
        0 <= c2 < ch,
        p != p2 || c != c2,
    ensures
        p * ch + c != p2 * ch + c2,
{
    if p == p2 {
    } else if p < p2 {
        assert(p * ch + c < p2 * ch + c2) by (nonlinear_arith)
            requires
                p < p2,
                0 <= c < ch,
                0 <= c2,
        ;
    } else {
        assert(p2 * ch + c2 < p * ch + c) by (nonlinear_arith)
            requires
                p2 < p,
                0 <= c2 < ch,
                0 <= c,
        ;
    }
}

} // verus!
