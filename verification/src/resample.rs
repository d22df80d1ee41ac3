//! Min/max downsampling of a waveform to a coarser scale.
//!
//! Output data point `p` at target scale `t` summarizes the input data points
//! `floor(p * t / s) .. floor((p + 1) * t / s)` (clipped to the input length),
//! where `s` is the source scale: its minimum is the least input minimum in
//! that range and its maximum the greatest input maximum, per channel.
use vstd::prelude::*;
use crate::bytes::wrap_to;
use crate::error::Error;
use crate::header::{store_sample, write_v2_header};
use crate::layout::{
    channel_maxs, channel_mins, channels_of, eight_bit_of, has_v2_header, is_valid_waveform,
    lemma_sample_bounds, lemma_slot_in_range, lemma_slot_readable, lemma_store_slot, length_of,
    max_slot, min_slot, lemma_pair_slot_distinct, point_count_of, sample, sample_in_range, sample_rate_of, scale_of,
    slot_count_of, store_slot, bits_of, bytes_per_sample_of, header_size_of, slot_byte,
};
use crate::waveform::WaveformData;

verus! {

/// Which resample option a target scale came from. It names the error
/// reported for a target beyond the `i32` range.
#[derive(Debug, Clone, Copy, PartialEq, Eq, Structural)]
pub enum ResampleOption {
    /// The target scale was derived from a requested output width.
    Width,
    /// The target scale was requested directly.
    Scale,
}

/// The error, if any, that resampling `b` to `target` reports.
pub open spec fn resample_error(b: Seq<u8>, target: int, option: ResampleOption) -> Option<Error> {
    if target < scale_of(b) {
        Some(Error::ZoomTooLow { target: target as i64, minimum: scale_of(b) as i32 })
    } else if target > i32::MAX {
        Some(
            match option {
                ResampleOption::Width => Error::InvalidWidth,
                ResampleOption::Scale => Error::InvalidScale,
            },
        )
    } else {
        None
    }
}

/// Output data points: `ceil(n * s / t)`.
pub open spec fn resampled_length(n: int, s: int, t: int) -> int {
    (n * s + t - 1) / t
}

/// First input data point of output point `p`.
pub open spec fn range_start(p: int, s: int, t: int) -> int {
    (p * t) / s
}

/// One past the last input data point of output point `p`.
pub open spec fn range_end(p: int, s: int, t: int, n: int) -> int {
    if ((p + 1) * t) / s < n {
        ((p + 1) * t) / s
    } else {
        n
    }
}

/// The values `v[lo..hi]`.
pub open spec fn range_values(v: Seq<i32>, lo: int, hi: int) -> Seq<int> {
    Seq::new((hi - lo) as nat, |i: int| v[lo + i] as int)
}

/// The least element of a nonempty sequence.
pub open spec fn seq_min(s: Seq<int>) -> int
    decreases s.len(),
{
    if s.len() <= 1 {
        s[0]
    } else {
        let m = seq_min(s.drop_last());
        if s.last() < m {
            s.last()
        } else {
            m
        }
    }
}

/// The greatest element of a nonempty sequence.
pub open spec fn seq_max(s: Seq<int>) -> int
    decreases s.len(),
{
    if s.len() <= 1 {
        s[0]
    } else {
        let m = seq_max(s.drop_last());
        if s.last() > m {
            s.last()
        } else {
            m
        }
    }
}

/// `out` is `b` resampled to target scale `t`: a well-formed version-2 buffer
/// with `b`'s bit width, sample rate, and channel count, scale `t`,
/// `ceil(length * s / t)` data points (none for an empty input, whatever
/// the scales), and per point and channel the least
/// minimum and greatest maximum of the input points in its range.
pub open spec fn is_resampled(b: Seq<u8>, t: int, out: Seq<u8>) -> bool {
    let n = length_of(b);
    let s = scale_of(b);
    let ch = channels_of(b);
    let l = if n == 0 {
        0
    } else {
        resampled_length(n, s, t)
    };
    &&& is_valid_waveform(out)
    &&& has_v2_header(out, eight_bit_of(b), sample_rate_of(b), t, l, ch)
    &&& forall|p: int, c: int|
        0 <= p < l && 0 <= c < ch ==> {
            &&& #[trigger] sample(out, min_slot(out, c, p)) == seq_min(
                range_values(channel_mins(b, c), range_start(p, s, t), range_end(p, s, t, n)),
            )
            &&& sample(out, max_slot(out, c, p)) == seq_max(
                range_values(channel_maxs(b, c), range_start(p, s, t), range_end(p, s, t, n)),
            )
        }
}

/// The bounds of a sequence bound its least and greatest elements.
pub proof fn lemma_seq_min_max_bounds(s: Seq<int>, lo: int, hi: int)
    requires
        s.len() > 0,
        forall|i: int| 0 <= i < s.len() ==> lo <= #[trigger] s[i] <= hi,
    ensures
        lo <= seq_min(s) <= hi,
        lo <= seq_max(s) <= hi,
    decreases s.len(),
{
    if s.len() > 1 {
        lemma_seq_min_max_bounds(s.drop_last(), lo, hi);
    }
}

/// Storing an in-range value stores it unchanged.
pub proof fn lemma_wrap_in_range(v: int, bits: int)
    requires
        bits == 8 || bits == 16,
        bits == 8 ==> -128 <= v <= 127,
        bits == 16 ==> -32768 <= v <= 32767,
    ensures
        wrap_to(v, bits) == v,
{
}

/// Facts about the ranges of output points.
pub proof fn lemma_ranges(n: int, s: int, t: int, p: int)
    requires
        0 < s <= t,
        0 <= n,
        0 <= p < resampled_length(n, s, t),
    ensures
        resampled_length(n, s, t) <= n,
        0 <= range_start(p, s, t) < range_end(p, s, t, n) <= n,
{
    let l = resampled_length(n, s, t);
    assert(l * t <= n * s + t - 1) by (nonlinear_arith)
        requires
            l == (n * s + t - 1) / t,
            t > 0,
    ;
    assert(l <= n) by (nonlinear_arith)
        requires
            l * t <= n * s + t - 1,
            0 < s <= t,
            0 <= n,
    ;
    assert(p * t < n * s) by (nonlinear_arith)
        requires
            l * t <= n * s + t - 1,
            0 <= p < l,
            t > 0,
    ;
    assert(0 <= (p * t) / s < n) by (nonlinear_arith)
        requires
            p * t < n * s,
            0 <= p,
            0 < s <= t,
    ;
    assert((p * t) / s < ((p + 1) * t) / s) by (nonlinear_arith)
        requires
            0 <= p,
            0 < s <= t,
    ;
}

/// The least of `values[lo..hi]`.
fn range_min(values: &Vec<i32>, lo: usize, hi: usize) -> (r: i32)
    requires
        lo < hi <= values@.len(),
    ensures
        r == seq_min(range_values(values@, lo as int, hi as int)),
{
    let mut m: i32 = values[lo];
    let mut i: usize = lo + 1;
    while i < hi
        invariant
            lo < i <= hi <= values@.len(),
            m == seq_min(range_values(values@, lo as int, i as int)),
        decreases hi - i,
    {
        let v: i32 = values[i];
        if v < m {
            m = v;
        }
        proof {
            assert(range_values(values@, lo as int, i + 1).drop_last() =~= range_values(
                values@,
                lo as int,
                i as int,
            ));
        }
        i = i + 1;
    }
    m
}

/// The greatest of `values[lo..hi]`.
fn range_max(values: &Vec<i32>, lo: usize, hi: usize) -> (r: i32)
    requires
        lo < hi <= values@.len(),
    ensures
        r == seq_max(range_values(values@, lo as int, hi as int)),
{
    let mut m: i32 = values[lo];
    let mut i: usize = lo + 1;
    while i < hi
        invariant
            lo < i <= hi <= values@.len(),
            m == seq_max(range_values(values@, lo as int, i as int)),
        decreases hi - i,
    {
        let v: i32 = values[i];
        if v > m {
            m = v;
        }
        proof {
            assert(range_values(values@, lo as int, i + 1).drop_last() =~= range_values(
                values@,
                lo as int,
                i as int,
            ));
        }
        i = i + 1;
    }
    m
}

/// Number of output points for `n` input points at source scale `s` and
/// target scale `t`: `ceil(n * s / t)`.
fn output_length(n: i32, s: i32, t: i32) -> (r: i32)
    requires
        0 < s <= t,
        0 <= n,
    ensures
        r == resampled_length(n as int, s as int, t as int),
        0 <= r <= n,
{
    assert(0 <= n as int * s as int <= 0x7fff_ffff * 0x7fff_ffff) by (nonlinear_arith)
        requires
            0 <= n <= 0x7fff_ffff,
            0 < s <= 0x7fff_ffff,
    ;
    let l: i64 = (n as i64 * s as i64 + t as i64 - 1) / t as i64;
    proof {
        if resampled_length(n as int, s as int, t as int) > 0 {
            lemma_ranges(n as int, s as int, t as int, 0);
        }
    }
    l as i32
}

/// Input point at which output point `p` starts: `floor(p * t / s)`.
fn sample_at_pixel(p: i64, s: i32, t: i32) -> (r: i64)
    requires
        0 < s <= t,
        0 <= p <= 0x8000_0000,
    ensures
        r == range_start(p as int, s as int, t as int),
        0 <= r,
{
    assert(0 <= p as int * t as int <= 0x8000_0000 * 0x7fff_ffff) by (nonlinear_arith)
        requires
            0 <= p <= 0x8000_0000,
            0 < t <= 0x7fff_ffff,
    ;
    (p * t as i64) / s as i64
}

/// Writes the `(min, max)` pair of output point `point`, channel `channel`.
fn write_output(out: &mut Vec<u8>, point: i64, channel: i32, channels: i32, min: i32, max: i32)
    requires
        is_valid_waveform(old(out)@),
        channels == channels_of(old(out)@),
        0 <= channel < channels,
        0 <= point < length_of(old(out)@),
    ensures
        final(out)@ == store_slot(
            store_slot(old(out)@, min_slot(old(out)@, channel as int, point as int), min as int),
            max_slot(old(out)@, channel as int, point as int),
            max as int,
        ),
        is_valid_waveform(final(out)@),
{
    let ghost b = out@;
    proof {
        lemma_slot_in_range(length_of(b), channels as int, channel as int, point as int);
        lemma_store_slot(b, min_slot(b, channel as int, point as int), min as int);
        lemma_slot_readable(b, max_slot(b, channel as int, point as int));
        assert(0 <= point * channels <= point * channels + channel) by (nonlinear_arith)
            requires
                0 <= point,
                0 <= channel < channels,
        ;
    }
    let n: usize = out.len();
    let slot: usize = (point as usize * channels as usize + channel as usize) * 2;
    store_sample(out, slot, min as i64);
    store_sample(out, slot + 1, max as i64);
}

impl WaveformData {
    /// Resamples to a target scale and returns a new version-2 waveform.
    ///
    /// `option` names where the target came from. Fails with `ZoomTooLow`
    /// when the target is below the source scale, and with `InvalidWidth` or
    /// `InvalidScale` (after `option`) when it exceeds `i32::MAX`.
    pub fn resample_to_scale(&self, target: i64, option: ResampleOption) -> (r: Result<
        WaveformData,
        Error,
    >)
        requires
            self.wf(),
            resample_error(self@, target as int, option) is None ==> {
                &&& length_of(self@) == 0 || (scale_of(self@) > 0 && length_of(self@) <= i32::MAX)
                &&& self@.len() + 4 <= usize::MAX
            },
        ensures
            match r {
                Ok(w) => resample_error(self@, target as int, option) is None && w.wf()
                    && is_resampled(self@, target as int, w@),
                Err(e) => resample_error(self@, target as int, option) == Some(e),
            },
    {
        let scale: i32 = self.scale();
        if target < scale as i64 {
            return Err(Error::ZoomTooLow { target, minimum: scale });
        }
        if target > 0x7fff_ffff {
            return match option {
                ResampleOption::Width => Err(Error::InvalidWidth),
                ResampleOption::Scale => Err(Error::InvalidScale),
            };
        }
        if self.length() == 0 {
            // An empty input resamples to an empty output, whatever its scale.
            let mut out: Vec<u8> = vec![0u8; 24];
            write_v2_header(
                &mut out,
                self.bits() == 8,
                self.sample_rate(),
                target as i32,
                0,
                self.channels(),
            );
            proof {
                self.lemma_wf();
                assert(is_valid_waveform(out@));
            }
            return WaveformData::from_binary(out);
        }
        let out = self.resampled_buffer(target as i32);
        WaveformData::from_binary(out)
    }

    /// The resampled buffer at target scale `t`.
    fn resampled_buffer(&self, t: i32) -> (out: Vec<u8>)
        requires
            self.wf(),
            0 < scale_of(self@) <= t,
            0 < length_of(self@) <= i32::MAX,
            self@.len() + 4 <= usize::MAX,
        ensures
            is_resampled(self@, t as int, out@),
    {
        let ghost b = self@;
        proof {
            self.lemma_wf();
        }
        let channels: i32 = self.channels();
        let s: i32 = self.scale();
        let n: i32 = self.length() as i32;
        let eight_bit: bool = self.bits() == 8;
        let l: i32 = output_length(n, s, t);
        let len: usize = self.as_bytes().len();
        proof {
            assert(0 <= l as int * channels as int <= n as int * channels as int) by (nonlinear_arith)
                requires
                    0 <= l <= n,
                    channels > 0,
            ;
        }
        let slots: usize = l as usize * channels as usize * 2;
        let total_size: usize = if eight_bit {
            24 + slots
        } else {
            24 + slots * 2
        };
        let mut out: Vec<u8> = vec![0u8; total_size];
        write_v2_header(&mut out, eight_bit, self.sample_rate(), t, l as u32, channels);
        proof {
            assert(is_valid_waveform(out@));
        }
        // Cache the input samples per channel.
        let mut input_min: Vec<Vec<i32>> = Vec::new();
        let mut input_max: Vec<Vec<i32>> = Vec::new();
        let mut c: i32 = 0;
        while c < channels
            invariant
                self.wf(),
                b == self@,
                channels == channels_of(b),
                0 <= c <= channels,
                input_min@.len() == c,
                input_max@.len() == c,
                forall|k: int| 0 <= k < c ==> #[trigger] input_min@[k]@ == channel_mins(b, k),
                forall|k: int| 0 <= k < c ==> #[trigger] input_max@[k]@ == channel_maxs(b, k),
            decreases channels - c,
        {
            match self.channel(c) {
                Ok(reader) => {
                    input_min.push(reader.min_array());
                    input_max.push(reader.max_array());
                },
                Err(_) => {},
            }
            c = c + 1;
        }
        let mut p: i64 = 0;
        while p < l as i64
            invariant
                self.wf(),
                b == self@,
                is_valid_waveform(b),
                channels == channels_of(b),
                channels > 0,
                0 < s <= t,
                s == scale_of(b),
                n == length_of(b),
                n == point_count_of(b),
                l == resampled_length(n as int, s as int, t as int),
                0 <= l <= n,
                0 <= p <= l,
                input_min@.len() == channels,
                input_max@.len() == channels,
                forall|k: int| 0 <= k < channels ==> #[trigger] input_min@[k]@ == channel_mins(b, k),
                forall|k: int| 0 <= k < channels ==> #[trigger] input_max@[k]@ == channel_maxs(b, k),
                is_valid_waveform(out@),
                has_v2_header(out@, eight_bit_of(b), sample_rate_of(b), t as int, l as int, channels as int),
                forall|p2: int, c2: int|
                    0 <= p2 < p && 0 <= c2 < channels ==> {
                        &&& #[trigger] sample(out@, min_slot(out@, c2, p2)) == seq_min(
                            range_values(channel_mins(b, c2), range_start(p2, s as int, t as int), range_end(p2, s as int, t as int, n as int)),
                        )
                        &&& sample(out@, max_slot(out@, c2, p2)) == seq_max(
                            range_values(channel_maxs(b, c2), range_start(p2, s as int, t as int), range_end(p2, s as int, t as int, n as int)),
                        )
                    },
            decreases l - p,
        {
            proof {
                lemma_ranges(n as int, s as int, t as int, p as int);
            }
            let lo: i64 = sample_at_pixel(p, s, t);
            let next: i64 = sample_at_pixel(p + 1, s, t);
            let hi: i64 = if next < n as i64 {
                next
            } else {
                n as i64
            };
            let mut c: i32 = 0;
            while c < channels
                invariant
                    self.wf(),
                    b == self@,
                    is_valid_waveform(b),
                    channels == channels_of(b),
                    channels > 0,
                    0 < s <= t,
                    s == scale_of(b),
                    n == length_of(b),
                    n == point_count_of(b),
                    l == resampled_length(n as int, s as int, t as int),
                    0 <= l <= n,
                    0 <= p < l,
                    lo == range_start(p as int, s as int, t as int),
                    hi == range_end(p as int, s as int, t as int, n as int),
                    0 <= lo < hi <= n,
                    0 <= c <= channels,
                    input_min@.len() == channels,
                    input_max@.len() == channels,
                    forall|k: int| 0 <= k < channels ==> #[trigger] input_min@[k]@ == channel_mins(b, k),
                    forall|k: int| 0 <= k < channels ==> #[trigger] input_max@[k]@ == channel_maxs(b, k),
                    is_valid_waveform(out@),
                    has_v2_header(out@, eight_bit_of(b), sample_rate_of(b), t as int, l as int, channels as int),
                    forall|p2: int, c2: int|
                        0 <= c2 < channels && (0 <= p2 < p || (p2 == p && 0 <= c2 < c)) ==> {
                            &&& #[trigger] sample(out@, min_slot(out@, c2, p2)) == seq_min(
                                range_values(channel_mins(b, c2), range_start(p2, s as int, t as int), range_end(p2, s as int, t as int, n as int)),
                            )
                            &&& sample(out@, max_slot(out@, c2, p2)) == seq_max(
                                range_values(channel_maxs(b, c2), range_start(p2, s as int, t as int), range_end(p2, s as int, t as int, n as int)),
                            )
                        },
                decreases channels - c,
            {
                let ghost before = out@;
                let mn: i32 = range_min(&input_min[c as usize], lo as usize, hi as usize);
                let mx: i32 = range_max(&input_max[c as usize], lo as usize, hi as usize);
                proof {
                    let ci = c as int;
                    let mins = range_values(channel_mins(b, ci), lo as int, hi as int);
                    let maxs = range_values(channel_maxs(b, ci), lo as int, hi as int);
                    assert forall|i: int| 0 <= i < mins.len() implies sample_in_range(b, #[trigger] mins[i]) by {
                        lemma_slot_in_range(n as int, channels as int, ci, lo + i);
                        lemma_slot_readable(b, min_slot(b, ci, lo + i));
                        lemma_sample_bounds(b, min_slot(b, ci, lo + i));
                    }
                    assert forall|i: int| 0 <= i < maxs.len() implies sample_in_range(b, #[trigger] maxs[i]) by {
                        lemma_slot_in_range(n as int, channels as int, ci, lo + i);
                        lemma_slot_readable(b, max_slot(b, ci, lo + i));
                        lemma_sample_bounds(b, max_slot(b, ci, lo + i));
                    }
                    if eight_bit_of(b) {
                        lemma_seq_min_max_bounds(mins, -128, 127);
                        lemma_seq_min_max_bounds(maxs, -128, 127);
                    } else {
                        lemma_seq_min_max_bounds(mins, -32768, 32767);
                        lemma_seq_min_max_bounds(maxs, -32768, 32767);
                    }
                }
                write_output(&mut out, p, c, channels, mn, mx);
                proof {
                    let ci = c as int;
                    let pi = p as int;
                    lemma_slot_in_range(l as int, channels as int, ci, pi);
                    let k1 = min_slot(before, ci, pi);
                    let mid = store_slot(before, k1, mn as int);
                    lemma_store_slot(before, k1, mn as int);
                    let k2 = max_slot(before, ci, pi);
                    lemma_store_slot(mid, k2, mx as int);
                    lemma_wrap_in_range(mn as int, bits_of(b));
                    lemma_wrap_in_range(mx as int, bits_of(b));
                    assert forall|p2: int, c2: int|
                        0 <= c2 < channels && (0 <= p2 < p || (p2 == p && 0 <= c2 < c + 1)) implies {
                            &&& #[trigger] sample(out@, min_slot(out@, c2, p2)) == seq_min(
                                range_values(channel_mins(b, c2), range_start(p2, s as int, t as int), range_end(p2, s as int, t as int, n as int)),
                            )
                            &&& sample(out@, max_slot(out@, c2, p2)) == seq_max(
                                range_values(channel_maxs(b, c2), range_start(p2, s as int, t as int), range_end(p2, s as int, t as int, n as int)),
                            )
                        } by {
                        if p2 != pi || c2 != ci {
                            lemma_pair_slot_distinct(channels as int, pi, ci, p2, c2);
                            lemma_slot_in_range(l as int, channels as int, c2, p2);
                            let j1 = min_slot(before, c2, p2);
                            let j2 = max_slot(before, c2, p2);
                            assert(j1 != k1 && j1 != k2 && j2 != k1 && j2 != k2);
                            assert(sample(out@, j1) == sample(mid, j1));
                            assert(sample(mid, j1) == sample(before, j1));
                            assert(sample(out@, j2) == sample(before, j2));
                            assert(min_slot(out@, c2, p2) == j1);
                        } else {
                            assert(sample(out@, k1) == sample(mid, k1));
                            assert(sample(mid, k1) == mn);
                            assert(sample(out@, k2) == mx);
                            assert(min_slot(out@, c2, p2) == k1);
                        }
                    }
                }
                c = c + 1;
                proof {
                    assert(is_valid_waveform(out@));
                    assert(has_v2_header(out@, eight_bit_of(b), sample_rate_of(b), t as int, l as int, channels as int));
                }
            }
            p = p + 1;
        }
        out
    }
}

} // verus!
