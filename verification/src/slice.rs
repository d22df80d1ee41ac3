//! Sub-ranges of a waveform.
use vstd::prelude::*;
use crate::bytes::wrap_to;
use crate::error::Error;
use crate::header::{store_sample, write_v2_header};
use crate::layout::{
    bits_of, channels_of, eight_bit_of, has_v2_header, is_valid_waveform, lemma_sample_bounds,
    lemma_slot_readable, lemma_store_slot, length_of, read_slot, sample, sample_rate_of,
    scale_of, slot_count_of,
};
use crate::resample::lemma_wrap_in_range;
use crate::waveform::WaveformData;

verus! {

/// First data point kept: `start` clamped to `[0, length]` and to at most the
/// clamped end.
pub open spec fn slice_start(b: Seq<u8>, start: int, end: int) -> int {
    let n = length_of(b);
    let s = if start > n {
        n
    } else {
        start
    };
    let e = slice_end(b, end);
    if s > e {
        e
    } else {
        s
    }
}

/// First data point dropped: `end` clamped to at most `length`.
pub open spec fn slice_end(b: Seq<u8>, end: int) -> int {
    if end > length_of(b) {
        length_of(b)
    } else {
        end
    }
}

/// `out` is the data points `lo..hi` of `b`: a well-formed version-2 buffer
/// with `b`'s bit width, sample rate, scale, and channels, and the samples of
/// those points in order.
pub open spec fn is_slice(b: Seq<u8>, lo: int, hi: int, out: Seq<u8>) -> bool {
    let ch = channels_of(b);
    &&& is_valid_waveform(out)
    &&& has_v2_header(out, eight_bit_of(b), sample_rate_of(b), scale_of(b), hi - lo, ch)
    &&& slot_count_of(out) == (hi - lo) * ch * 2
    &&& forall|k: int| 0 <= k < (hi - lo) * ch * 2 ==> #[trigger] sample(out, k) == sample(b, lo * ch * 2 + k)
}

impl WaveformData {
    /// Returns the data points `start..end` as a new version-2 waveform.
    ///
    /// Bounds clamp to the length, and a start beyond the end gives an empty
    /// result. Fails with `NegativeStart` or `NegativeEnd` for negative bounds.
    pub fn slice(&self, start: i64, end: i64) -> (r: Result<WaveformData, Error>)
        requires
            self.wf(),
            self@.len() + 4 <= isize::MAX,
        ensures
            start < 0 ==> r == Err::<WaveformData, Error>(Error::NegativeStart),
            start >= 0 && end < 0 ==> r == Err::<WaveformData, Error>(Error::NegativeEnd),
            start >= 0 && end >= 0 ==> (r matches Ok(w) && w.wf() && is_slice(
                self@,
                slice_start(self@, start as int, end as int),
                slice_end(self@, end as int),
                w@,
            )),
    {
        let ghost b = self@;
        proof {
            self.lemma_wf();
        }
        if start < 0 {
            return Err(Error::NegativeStart);
        }
        if end < 0 {
            return Err(Error::NegativeEnd);
        }
        let length_field: i64 = self.length() as i64;
        let mut start_index: i64 = start;
        let mut end_index: i64 = end;
        if start_index > length_field {
            start_index = length_field;
        }
        if end_index > length_field {
            end_index = length_field;
        }
        if start_index > end_index {
            start_index = end_index;
        }
        let output = self.sliced_buffer(start_index, end_index);
        proof {
            assert(start_index == slice_start(b, start as int, end as int));
            assert(end_index == slice_end(b, end as int));
        }
        WaveformData::from_binary(output)
    }

    /// The version-2 buffer holding data points `start_index..end_index`.
    fn sliced_buffer(&self, start_index: i64, end_index: i64) -> (output: Vec<u8>)
        requires
            self.wf(),
            self@.len() + 4 <= isize::MAX,
            0 <= start_index <= end_index <= length_of(self@),
        ensures
            is_slice(self@, start_index as int, end_index as int, output@),
    {
        let ghost b = self@;
        proof {
            self.lemma_wf();
        }
        let length_field: i64 = self.length() as i64;
        let length: i64 = end_index - start_index;
        let channels: i64 = self.channels() as i64;
        let eight_bit: bool = self.bits() == 8;
        let n: usize = self.as_bytes().len();
        proof {
            assert(0 <= length * channels * 2 <= length_field * channels * 2) by (nonlinear_arith)
                requires
                    0 <= length <= length_field,
                    channels > 0,
            ;
            assert(start_index * channels * 2 + length * channels * 2 <= length_field * channels
                * 2) by (nonlinear_arith)
                requires
                    0 <= start_index,
                    start_index + length <= length_field,
                    channels > 0,
            ;
            assert(slot_count_of(b) <= b.len());
            assert(b.len() <= isize::MAX);
            assert(0 <= start_index * channels * 2) by (nonlinear_arith)
                requires
                    0 <= start_index,
                    channels > 0,
            ;
        }
        let slots: i64 = length * channels * 2;
        let base: i64 = start_index * channels * 2;
        let total_size: usize = if eight_bit {
            24 + slots as usize
        } else {
            24 + slots as usize * 2
        };
        let mut output: Vec<u8> = vec![0u8; total_size];
        write_v2_header(
            &mut output,
            eight_bit,
            self.sample_rate(),
            self.scale(),
            length as u32,
            channels as i32,
        );
        proof {
            assert(is_valid_waveform(output@));
        }
        let mut i: i64 = 0;
        while i < slots
            invariant
                self.wf(),
                b == self@,
                is_valid_waveform(b),
                0 <= i <= slots,
                slots == length * channels * 2,
                channels == channels_of(b),
                0 <= base,
                base + slots <= slot_count_of(b),
                base + slots <= 0x7fff_ffff_ffff_ffff,
                is_valid_waveform(output@),
                has_v2_header(output@, eight_bit_of(b), sample_rate_of(b), scale_of(b), length as int, channels as int),
                slot_count_of(output@) == slots,
                forall|k: int| 0 <= k < i ==> #[trigger] sample(output@, k) == sample(b, base + k),
            decreases slots - i,
        {
            proof {
                lemma_slot_readable(b, base + i);
                lemma_sample_bounds(b, base + i);
            }
            let value: i32 = match self.at(base + i) {
                Ok(v) => v,
                Err(_) => 0,
            };
            let ghost before = output@;
            let on: usize = output.len();
            store_sample(&mut output, i as usize, value as i64);
            proof {
                lemma_store_slot(before, i as int, value as int);
                lemma_wrap_in_range(value as int, bits_of(b));
            }
            i = i + 1;
        }
        output
    }
}

} // verus!
