//! The JSON waveform object and its conversion to the version-2 binary layout.
use vstd::prelude::*;
use crate::bytes::{encode_u16, encode_u8, i32_bits, i32_to_bits, lemma_wrap16, lemma_wrap8, wrap_to};
use crate::error::Error;
use crate::header::write_v2_header;
use crate::layout::{has_v2_header, sample};

verus! {

/// Plain waveform data in the JSON layout.
///
/// The `data` array holds interleaved `(min, max)` pairs, ordered by data
/// point then channel. `version` and `channels` are optional in
/// single-channel files; a missing or zero `channels` is treated as 1.
#[derive(Debug, Clone, PartialEq, Eq)]
pub struct JsonWaveformData {
    /// Format version (1 or 2). Single-channel JSON may omit it.
    pub version: Option<i32>,
    /// Channel count. Missing or zero means 1.
    pub channels: Option<i32>,
    /// Audio samples per second.
    pub sample_rate: i32,
    /// Audio samples summarized per data point.
    pub samples_per_pixel: i32,
    /// Bits per stored sample. Only exactly 8 selects 8-bit storage.
    pub bits: i32,
    /// Number of data points.
    pub length: i32,
    /// Flat interleaved `(min, max)` values.
    pub data: Vec<i32>,
}

/// The channel count a JSON object stands for: missing or zero means 1.
pub open spec fn json_channels(j: JsonWaveformData) -> int {
    match j.channels {
        Some(c) => if c != 0 {
            c as int
        } else {
            1
        },
        None => 1,
    }
}

/// Bits per stored sample of the converted buffer: 8 only when `bits` is
/// exactly 8, else 16.
pub open spec fn json_sample_bits(j: JsonWaveformData) -> int {
    if j.bits == 8 {
        8
    } else {
        16
    }
}

/// The error, if any, that converting `j` reports.
pub open spec fn json_error(j: JsonWaveformData) -> Option<Error> {
    if j.data@.len() != j.length * 2 * json_channels(j) {
        Some(Error::LengthMismatch)
    } else if json_channels(j) <= 0 {
        Some(Error::DataLengthMismatch)
    } else {
        None
    }
}

/// Every value of `j` fits the signed range of the width it is stored in.
pub open spec fn json_values_fit(j: JsonWaveformData) -> bool {
    forall|k: int|
        0 <= k < j.data@.len() ==> if j.bits == 8 {
            -128 <= #[trigger] j.data@[k] <= 127
        } else {
            -32768 <= j.data@[k] <= 32767
        }
}

/// `b` is the version-2 buffer for `j`: its header carries `j`'s fields, and
/// slot `k` holds `j.data[k]` wrapped to the stored width.
pub open spec fn is_json_buffer(j: JsonWaveformData, b: Seq<u8>) -> bool {
    &&& has_v2_header(
        b,
        j.bits == 8,
        j.sample_rate as int,
        j.samples_per_pixel as int,
        i32_bits(j.length) as int,
        json_channels(j),
    )
    &&& b.len() == 24 + j.data@.len() * (if j.bits == 8 {
        1int
    } else {
        2int
    })
    &&& forall|k: int|
        0 <= k < j.data@.len() ==> #[trigger] sample(b, k) == wrap_to(
            j.data@[k] as int,
            json_sample_bits(j),
        )
}

/// Converts a JSON object to a version-2 binary buffer, or fails with
/// `LengthMismatch` when `data` does not hold `length * 2 * channels` values.
pub fn convert_json_to_binary(data: &JsonWaveformData) -> (r: Result<Vec<u8>, Error>)
    requires
        data.data@.len() * 2 + 24 <= usize::MAX,
    ensures
        match r {
            Ok(b) => data.data@.len() == data.length * 2 * json_channels(*data) && is_json_buffer(
                *data,
                b@,
            ),
            Err(e) => e == Error::LengthMismatch && data.data@.len() != data.length * 2
                * json_channels(*data),
        },
{
    let channels: i32 = match data.channels {
        Some(c) => if c != 0 {
            c
        } else {
            1
        },
        None => 1,
    };
    let eight_bit: bool = data.bits == 8;
    assert(-0x1_0000_0000_0000_0000 <= data.length as int * 2 * channels as int
        <= 0x1_0000_0000_0000_0000) by (nonlinear_arith)
        requires
            -0x8000_0000 <= data.length <= 0x7fff_ffff,
            -0x8000_0000 <= channels <= 0x7fff_ffff,
    ;
    let expected_length: i128 = data.length as i128 * 2 * channels as i128;
    if data.data.len() as i128 != expected_length {
        return Err(Error::LengthMismatch);
    }
    let n: usize = data.data.len();
    let total_size: usize = if eight_bit {
        24 + n
    } else {
        24 + n * 2
    };
    let mut buffer: Vec<u8> = vec![0u8; total_size];
    write_v2_header(
        &mut buffer,
        eight_bit,
        data.sample_rate,
        data.samples_per_pixel,
        i32_to_bits(data.length),
        channels,
    );
    let ghost header = buffer@;
    let mut i: usize = 0;
    while i < n
        invariant
            n == data.data@.len(),
            n * 2 + 24 <= usize::MAX,
            eight_bit == (data.bits == 8),
            total_size == 24 + n * (if eight_bit {
                1int
            } else {
                2int
            }),
            buffer@.len() == total_size,
            i <= n,
            has_v2_header(
                buffer@,
                eight_bit,
                data.sample_rate as int,
                data.samples_per_pixel as int,
                i32_bits(data.length) as int,
                channels as int,
            ),
            forall|k: int|
                0 <= k < i ==> #[trigger] sample(buffer@, k) == wrap_to(
                    data.data@[k] as int,
                    json_sample_bits(*data),
                ),
        decreases n - i,
    {
        let value: i32 = data.data[i];
        let ghost before = buffer@;
        if eight_bit {
            buffer.set(24 + i, encode_u8(value as i64));
            proof {
                lemma_wrap8(value as int);
            }
        } else {
            let (lo, hi) = encode_u16(value as i64);
            buffer.set(24 + 2 * i, lo);
            buffer.set(24 + 2 * i + 1, hi);
            proof {
                lemma_wrap16(value as int);
            }
        }
        proof {
            let b = buffer@;
            assert(u32_unchanged(before, b));
            assert forall|k: int| 0 <= k < i + 1 implies #[trigger] sample(b, k) == wrap_to(
                data.data@[k] as int,
                json_sample_bits(*data),
            ) by {
                if k < i {
                    assert(sample(before, k) == wrap_to(data.data@[k] as int, json_sample_bits(*data)));
                }
            }
        }
        i = i + 1;
    }
    Ok(buffer)
}

/// The first 24 bytes agree.
spec fn u32_unchanged(a: Seq<u8>, b: Seq<u8>) -> bool {
    &&& a.len() == b.len()
    &&& forall|j: int| 0 <= j < 24 ==> a[j] == b[j]
}

} // verus!
