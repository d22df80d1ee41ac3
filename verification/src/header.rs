//! Writing buffers: the version-2 header that every converted, sliced,
//! resampled, and generated buffer carries, and single sample slots.
use vstd::prelude::*;
use crate::bytes::{
    encode_u16, encode_u8, i32_bits, lemma_i32_bits, lemma_put_u32, read_i32_le, read_u32_le,
    write_i32_le, write_u32_le,
};
use crate::layout::{has_v2_header, is_valid_waveform, lemma_slot_readable, slot_count_of, store_slot};

verus! {

/// Writes a version-2 header into the first 24 bytes of `buffer`: version 2,
/// the 8-bit flag (1 or 0), sample rate, scale, length, and channel count.
pub fn write_v2_header(
    buffer: &mut Vec<u8>,
    eight_bit: bool,
    sample_rate: i32,
    scale: i32,
    length: u32,
    channels: i32,
)
    requires
        old(buffer)@.len() >= 24,
    ensures
        final(buffer)@.len() == old(buffer)@.len(),
        has_v2_header(
            final(buffer)@,
            eight_bit,
            sample_rate as int,
            scale as int,
            length as int,
            channels as int,
        ),
        forall|j: int| 24 <= j < old(buffer)@.len() ==> #[trigger] final(buffer)@[j] == old(buffer)@[j],
{
    let ghost b0 = buffer@;
    write_i32_le(buffer, 0, 2);
    let ghost b1 = buffer@;
    write_u32_le(
        buffer,
        4,
        if eight_bit {
            1
        } else {
            0
        },
    );
    let ghost b2 = buffer@;
    write_i32_le(buffer, 8, sample_rate);
    let ghost b3 = buffer@;
    write_i32_le(buffer, 12, scale);
    let ghost b4 = buffer@;
    write_u32_le(buffer, 16, length);
    let ghost b5 = buffer@;
    write_i32_le(buffer, 20, channels);
    proof {
        lemma_put_u32(b0, 0, i32_bits(2));
        lemma_put_u32(b1, 4, if eight_bit { 1u32 } else { 0u32 });
        lemma_put_u32(b2, 8, i32_bits(sample_rate));
        lemma_put_u32(b3, 12, i32_bits(scale));
        lemma_put_u32(b4, 16, length);
        lemma_put_u32(b5, 20, i32_bits(channels));
        lemma_i32_bits(2);
        lemma_i32_bits(sample_rate);
        lemma_i32_bits(scale);
        lemma_i32_bits(channels);
        let b = buffer@;
        assert(b[0] == b1[0] && b[1] == b1[1] && b[2] == b1[2] && b[3] == b1[3]);
        assert(b[4] == b2[4] && b[5] == b2[5] && b[6] == b2[6] && b[7] == b2[7]);
        assert(b[8] == b3[8] && b[9] == b3[9] && b[10] == b3[10] && b[11] == b3[11]);
        assert(b[12] == b4[12] && b[13] == b4[13] && b[14] == b4[14] && b[15] == b4[15]);
        assert(b[16] == b5[16] && b[17] == b5[17] && b[18] == b5[18] && b[19] == b5[19]);
    }
}

/// Overwrites flat sample slot `k` of a well-formed buffer with `v`, wrapped
/// to the stored width.
pub fn store_sample(buffer: &mut Vec<u8>, k: usize, v: i64)
    requires
        is_valid_waveform(old(buffer)@),
        k < slot_count_of(old(buffer)@),
    ensures
        final(buffer)@ == store_slot(old(buffer)@, k as int, v as int),
{
    proof {
        lemma_slot_readable(buffer@, k as int);
    }
    let ghost old_b = buffer@;
    let n: usize = buffer.len();
    let header_size: usize = if read_i32_le(buffer.as_slice(), 0) == 2 {
        24
    } else {
        20
    };
    if read_u32_le(buffer.as_slice(), 4) != 0 {
        buffer.set(header_size + k, encode_u8(v));
    } else {
        let (lo, hi) = encode_u16(v);
        buffer.set(header_size + 2 * k, lo);
        buffer.set(header_size + 2 * k + 1, hi);
    }
    assert(buffer@ =~= store_slot(old_b, k as int, v as int));
}

} // verus!
