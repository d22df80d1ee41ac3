//! Peak generation: `(min, max)` pairs over blocks of audio levels.
//!
//! A level is an audio sample already scaled to the sample range and floored
//! (`None` where that value is not a number). For each block of `scale`
//! consecutive levels and each output channel, the stored minimum is the least
//! level raised to at least the bottom of the sample range, and the stored
//! maximum the greatest level lowered to at most its top. A block with no level
//! stores `i64::MAX` as minimum and `i64::MIN` as maximum, wrapped to the
//! sample width. A trailing partial block is stored too.
use vstd::prelude::*;
use crate::bytes::wrap_to;
use crate::header::{store_sample, write_v2_header};
use crate::layout::{
    has_v2_header, is_valid_waveform, lemma_slot_in_range, lemma_store_slot, max_slot, min_slot,
    sample, slot_count_of, length_of, channels_of, bits_of, store_slot, lemma_pair_slot_distinct,
};

verus! {

/// Peak-generation input.
pub struct PeakOptions {
    /// Levels summarized per output data point.
    pub scale: i32,
    /// Output sample width. Only exactly 8 selects 8-bit storage.
    pub bits: i32,
    /// Audio samples per second, written to the header.
    pub sample_rate: i32,
    /// Number of levels per channel to summarize.
    pub length: i32,
    /// Levels, one sequence per output channel.
    pub levels: Vec<Vec<Option<i64>>>,
}

/// Output data points for `count` levels at `scale` levels per point:
/// `ceil(count / scale)`.
pub open spec fn peaks_length(count: int, scale: int) -> int {
    (count + scale - 1) / scale
}

/// The least level of a sequence, if any.
pub open spec fn least_level(s: Seq<Option<i64>>) -> Option<int>
    decreases s.len(),
{
    if s.len() == 0 {
        None
    } else {
        let rest = least_level(s.drop_last());
        match s.last() {
            None => rest,
            Some(v) => match rest {
                None => Some(v as int),
                Some(m) => Some(
                    if (v as int) < m {
                        v as int
                    } else {
                        m
                    },
                ),
            },
        }
    }
}

/// The greatest level of a sequence, if any.
pub open spec fn greatest_level(s: Seq<Option<i64>>) -> Option<int>
    decreases s.len(),
{
    if s.len() == 0 {
        None
    } else {
        let rest = greatest_level(s.drop_last());
        match s.last() {
            None => rest,
            Some(v) => match rest {
                None => Some(v as int),
                Some(m) => Some(
                    if (v as int) > m {
                        v as int
                    } else {
                        m
                    },
                ),
            },
        }
    }
}

/// The stored minimum of a block: its least level, raised to at least
/// `range_min`; `i64::MAX` when the block has no level.
pub open spec fn block_min(s: Seq<Option<i64>>, range_min: int) -> int {
    match least_level(s) {
        None => i64::MAX as int,
        Some(m) => if m < range_min {
            range_min
        } else {
            m
        },
    }
}

/// The stored maximum of a block: its greatest level, lowered to at most
/// `range_max`; `i64::MIN` when the block has no level.
pub open spec fn block_max(s: Seq<Option<i64>>, range_max: int) -> int {
    match greatest_level(s) {
        None => i64::MIN as int,
        Some(m) => if m > range_max {
            range_max
        } else {
            m
        },
    }
}

/// The levels of block `p`: `levels[p * scale .. min((p + 1) * scale, length)]`.
pub open spec fn block(levels: Seq<Option<i64>>, p: int, scale: int, length: int) -> Seq<Option<i64>> {
    let lo = p * scale;
    let hi = if (p + 1) * scale < length {
        (p + 1) * scale
    } else {
        length
    };
    levels.subrange(lo, hi)
}

/// Bottom and top of the sample range for a bit width flag.
pub open spec fn range_bottom(eight_bit: bool) -> int {
    if eight_bit {
        -128
    } else {
        -32768
    }
}

pub open spec fn range_top(eight_bit: bool) -> int {
    if eight_bit {
        127
    } else {
        32767
    }
}

/// `out` is the peak buffer of `o`: a version-2 header with `o`'s width,
/// sample rate, scale, `ceil(length / scale)` points, and one channel per
/// level sequence; then per block and channel the wrapped stored minimum and
/// maximum.
pub open spec fn is_peak_buffer(o: PeakOptions, out: Seq<u8>) -> bool {
    let eight_bit = o.bits == 8;
    let d = peaks_length(o.length as int, o.scale as int);
    let ch = o.levels@.len() as int;
    let width = if eight_bit {
        8int
    } else {
        16int
    };
    &&& has_v2_header(out, eight_bit, o.sample_rate as int, o.scale as int, d, ch)
    &&& out.len() == 24 + d * ch * 2 * (if eight_bit {
        1int
    } else {
        2int
    })
    &&& forall|p: int, c: int|
        0 <= p < d && 0 <= c < ch ==> {
            &&& #[trigger] sample(out, (p * ch + c) * 2) == wrap_to(
                block_min(block(o.levels@[c]@, p, o.scale as int, o.length as int), range_bottom(eight_bit)),
                width,
            )
            &&& sample(out, (p * ch + c) * 2 + 1) == wrap_to(
                block_max(block(o.levels@[c]@, p, o.scale as int, o.length as int), range_top(eight_bit)),
                width,
            )
        }
}

/// Number of output data points: `ceil(audio_sample_count / scale)`.
pub fn calculate_waveform_data_length(audio_sample_count: i32, scale: i32) -> (r: i32)
    requires
        audio_sample_count >= 0,
        scale > 0,
    ensures
        r == peaks_length(audio_sample_count as int, scale as int),
        0 <= r <= audio_sample_count,
{
    let mut data_length: i32 = audio_sample_count / scale;
    proof {
        assert(data_length * scale <= audio_sample_count) by (nonlinear_arith)
            requires
                data_length == audio_sample_count / scale,
                scale > 0,
                audio_sample_count >= 0,
        ;
        assert(0 <= data_length <= audio_sample_count) by (nonlinear_arith)
            requires
                data_length == audio_sample_count / scale,
                scale > 0,
                audio_sample_count >= 0,
        ;
    }
    let samples_remaining: i32 = audio_sample_count - data_length * scale;
    if samples_remaining > 0 {
        proof {
            assert(data_length < audio_sample_count) by (nonlinear_arith)
                requires
                    data_length * scale < audio_sample_count,
                    scale >= 1,
                    data_length >= 0,
            ;
        }
        data_length = data_length + 1;
    }
    proof {
        let c = audio_sample_count as int;
        let s = scale as int;
        let q = c / s;
        assert(c == q * s + c % s) by (nonlinear_arith)
            requires
                q == c / s,
                s > 0,
        ;
        assert((c + s - 1) / s == if c % s > 0 {
            q + 1
        } else {
            q
        }) by (nonlinear_arith)
            requires
                c == q * s + c % s,
                0 <= c % s < s,
                s > 0,
        ;
    }
    data_length
}

/// The stored minimum of `levels[lo..hi]`.
fn block_min_of(levels: &Vec<Option<i64>>, lo: usize, hi: usize, range_min: i64) -> (r: i64)
    requires
        lo <= hi <= levels@.len(),
    ensures
        r == block_min(levels@.subrange(lo as int, hi as int), range_min as int),
{
    let mut acc: Option<i64> = None;
    let mut i: usize = lo;
    while i < hi
        invariant
            lo <= i <= hi <= levels@.len(),
            acc == (match least_level(levels@.subrange(lo as int, i as int)) {
                None => None::<i64>,
                Some(m) => Some((if m < range_min { range_min as int } else { m }) as i64),
            }),
            least_level(levels@.subrange(lo as int, i as int)) matches Some(m) ==> i64::MIN <= m <= i64::MAX,
        decreases hi - i,
    {
        match levels[i] {
            Some(v) => {
                match acc {
                    None => {
                        acc = Some(
                            if v < range_min {
                                range_min
                            } else {
                                v
                            },
                        );
                    },
                    Some(a) => {
                        if v < a {
                            acc = Some(
                                if v < range_min {
                                    range_min
                                } else {
                                    v
                                },
                            );
                        }
                    },
                }
            },
            None => {},
        }
        proof {
            assert(levels@.subrange(lo as int, i + 1).drop_last() =~= levels@.subrange(
                lo as int,
                i as int,
            ));
        }
        i = i + 1;
    }
    match acc {
        None => i64::MAX,
        Some(a) => a,
    }
}

/// The stored maximum of `levels[lo..hi]`.
fn block_max_of(levels: &Vec<Option<i64>>, lo: usize, hi: usize, range_max: i64) -> (r: i64)
    requires
        lo <= hi <= levels@.len(),
    ensures
        r == block_max(levels@.subrange(lo as int, hi as int), range_max as int),
{
    let mut acc: Option<i64> = None;
    let mut i: usize = lo;
    while i < hi
        invariant
            lo <= i <= hi <= levels@.len(),
            acc == (match greatest_level(levels@.subrange(lo as int, i as int)) {
                None => None::<i64>,
                Some(m) => Some((if m > range_max { range_max as int } else { m }) as i64),
            }),
            greatest_level(levels@.subrange(lo as int, i as int)) matches Some(m) ==> i64::MIN <= m <= i64::MAX,
        decreases hi - i,
    {
        match levels[i] {
            Some(v) => {
                match acc {
                    None => {
                        acc = Some(
                            if v > range_max {
                                range_max
                            } else {
                                v
                            },
                        );
                    },
                    Some(a) => {
                        if v > a {
                            acc = Some(
                                if v > range_max {
                                    range_max
                                } else {
                                    v
                                },
                            );
                        }
                    },
                }
            },
            None => {},
        }
        proof {
            assert(levels@.subrange(lo as int, i + 1).drop_last() =~= levels@.subrange(
                lo as int,
                i as int,
            ));
        }
        i = i + 1;
    }
    match acc {
        None => i64::MIN,
        Some(a) => a,
    }
}

/// Generates a version-2 peak buffer from per-channel levels.
///
/// For each block of `scale` consecutive levels (the last one possibly
/// partial) and each output channel, stores the block's minimum and maximum
/// as described in this module's documentation.
pub fn generate_peaks(options: &PeakOptions) -> (out: Vec<u8>)
    requires
        options.scale > 0,
        options.length >= 0,
        options.levels@.len() <= i32::MAX,
        forall|c: int| 0 <= c < options.levels@.len() ==> #[trigger] options.levels@[c]@.len() >= options.length,
        24 + peaks_length(options.length as int, options.scale as int) * options.levels@.len() * 2
            * (if options.bits == 8 {
            1int
        } else {
            2int
        }) <= usize::MAX,
    ensures
        is_peak_buffer(*options, out@),
{
    let scale: i32 = options.scale;
    let length: i32 = options.length;
    let eight_bit: bool = options.bits == 8;
    let channels: usize = options.levels.len();
    let range_min: i64 = if eight_bit {
        -128
    } else {
        -32768
    };
    let range_max: i64 = if eight_bit {
        127
    } else {
        32767
    };
    let data_length: i32 = calculate_waveform_data_length(length, scale);
    proof {
        assert(0 <= data_length as int * channels as int) by (nonlinear_arith)
            requires
                data_length >= 0,
        ;
    }
    let slots: usize = data_length as usize * channels * 2;
    let total_size: usize = if eight_bit {
        24 + slots
    } else {
        24 + slots * 2
    };
    let mut buffer: Vec<u8> = vec![0u8; total_size];
    write_v2_header(
        &mut buffer,
        eight_bit,
        options.sample_rate,
        scale,
        data_length as u32,
        channels as i32,
    );
    if channels == 0 {
        return buffer;
    }
    proof {
        assert(is_valid_waveform(buffer@));
    }
    let ghost ch = channels as int;
    let ghost width = if eight_bit {
        8int
    } else {
        16int
    };
    let mut p: i32 = 0;
    while p < data_length
        invariant
            scale == options.scale,
            length == options.length,
            eight_bit == (options.bits == 8),
            channels == options.levels@.len(),
            ch == channels,
            0 < ch <= i32::MAX,
            scale > 0,
            length >= 0,
            range_min == range_bottom(eight_bit),
            range_max == range_top(eight_bit),
            width == (if eight_bit { 8int } else { 16int }),
            forall|c: int| 0 <= c < ch ==> #[trigger] options.levels@[c]@.len() >= length,
            data_length == peaks_length(length as int, scale as int),
            0 <= data_length <= length,
            0 <= p <= data_length,
            is_valid_waveform(buffer@),
            has_v2_header(buffer@, eight_bit, options.sample_rate as int, scale as int, data_length as int, ch),
            buffer@.len() == 24 + data_length * ch * 2 * (if eight_bit { 1int } else { 2int }),
            forall|p2: int, c2: int|
                0 <= p2 < p && 0 <= c2 < ch ==> {
                    &&& #[trigger] sample(buffer@, (p2 * ch + c2) * 2) == wrap_to(
                        block_min(block(options.levels@[c2]@, p2, scale as int, length as int), range_bottom(eight_bit)),
                        width,
                    )
                    &&& sample(buffer@, (p2 * ch + c2) * 2 + 1) == wrap_to(
                        block_max(block(options.levels@[c2]@, p2, scale as int, length as int), range_top(eight_bit)),
                        width,
                    )
                },
        decreases data_length - p,
    {
        proof {
            assert(0 <= p as int * scale as int <= length && p as int * scale as int <= (p as int + 1) * scale as int && (p as int + 1) * scale as int <= 0x7fff_ffff as int * 0x7fff_ffff as int)
                by (nonlinear_arith)
                requires
                    0 <= p < data_length,
                    data_length == (length + scale - 1) / (scale as int),
                    scale > 0,
                    length >= 0,
                    length <= 0x7fff_ffff,
                    scale <= 0x7fff_ffff,
                    data_length <= length,
            ;
        }
        let lo: i64 = p as i64 * scale as i64;
        let next: i64 = (p as i64 + 1) * scale as i64;
        let hi: i64 = if next < length as i64 {
            next
        } else {
            length as i64
        };
        let mut c: usize = 0;
        while c < channels
            invariant
                scale == options.scale,
                length == options.length,
                eight_bit == (options.bits == 8),
                channels == options.levels@.len(),
                ch == channels,
                0 < ch <= i32::MAX,
                range_min == range_bottom(eight_bit),
                range_max == range_top(eight_bit),
                width == (if eight_bit { 8int } else { 16int }),
                forall|c: int| 0 <= c < ch ==> #[trigger] options.levels@[c]@.len() >= length,
                data_length == peaks_length(length as int, scale as int),
                0 <= data_length <= length,
                0 <= p < data_length,
                lo == p * scale,
                hi == (if (p + 1) * scale < length { (p + 1) * scale } else { length as int }),
                0 <= lo <= hi <= length,
                0 <= c <= channels,
                is_valid_waveform(buffer@),
                has_v2_header(buffer@, eight_bit, options.sample_rate as int, scale as int, data_length as int, ch),
                buffer@.len() == 24 + data_length * ch * 2 * (if eight_bit { 1int } else { 2int }),
                forall|p2: int, c2: int|
                    0 <= c2 < ch && (0 <= p2 < p || (p2 == p && 0 <= c2 < c)) ==> {
                        &&& #[trigger] sample(buffer@, (p2 * ch + c2) * 2) == wrap_to(
                            block_min(block(options.levels@[c2]@, p2, scale as int, length as int), range_bottom(eight_bit)),
                            width,
                        )
                        &&& sample(buffer@, (p2 * ch + c2) * 2 + 1) == wrap_to(
                            block_max(block(options.levels@[c2]@, p2, scale as int, length as int), range_top(eight_bit)),
                            width,
                        )
                    },
            decreases channels - c,
        {
            let ghost before = buffer@;
            let levels: &Vec<Option<i64>> = &options.levels[c];
            let mn: i64 = block_min_of(levels, lo as usize, hi as usize, range_min);
            let mx: i64 = block_max_of(levels, lo as usize, hi as usize, range_max);
            proof {
                lemma_slot_in_range(data_length as int, ch, c as int, p as int);
                assert(0 <= p * ch <= p * ch + c) by (nonlinear_arith)
                    requires
                        0 <= p,
                        0 <= c < ch,
                ;
            }
            let n: usize = buffer.len();
            let slot: usize = (p as usize * channels + c) * 2;
            store_sample(&mut buffer, slot, mn);
            let ghost mid = buffer@;
            store_sample(&mut buffer, slot + 1, mx);
            proof {
                let ci = c as int;
                let pi = p as int;
                let k1 = (pi * ch + ci) * 2;
                let k2 = k1 + 1;
                lemma_store_slot(before, k1, mn as int);
                lemma_store_slot(mid, k2, mx as int);
                assert forall|p2: int, c2: int|
                    0 <= c2 < ch && (0 <= p2 < p || (p2 == p && 0 <= c2 < c + 1)) implies {
                        &&& #[trigger] sample(buffer@, (p2 * ch + c2) * 2) == wrap_to(
                            block_min(block(options.levels@[c2]@, p2, scale as int, length as int), range_bottom(eight_bit)),
                            width,
                        )
                        &&& sample(buffer@, (p2 * ch + c2) * 2 + 1) == wrap_to(
                            block_max(block(options.levels@[c2]@, p2, scale as int, length as int), range_top(eight_bit)),
                            width,
                        )
                    } by {
                    if p2 != pi || c2 != ci {
                        lemma_pair_slot_distinct(ch, pi, ci, p2, c2);
                        lemma_slot_in_range(data_length as int, ch, c2, p2);
                        let j1 = (p2 * ch + c2) * 2;
                        assert(sample(buffer@, j1) == sample(mid, j1));
                        assert(sample(mid, j1) == sample(before, j1));
                        assert(sample(buffer@, j1 + 1) == sample(before, j1 + 1));
                    } else {
                        assert(sample(buffer@, k1) == sample(mid, k1));
                        assert(levels@ == options.levels@[c2]@);
                    }
                }
            }
            c = c + 1;
            proof {
                assert(is_valid_waveform(buffer@));
                assert(has_v2_header(buffer@, eight_bit, options.sample_rate as int, scale as int, data_length as int, ch));
            }
        }
        p = p + 1;
    }
    proof {
        assert(p == data_length);
        assert(has_v2_header(buffer@, eight_bit, options.sample_rate as int, scale as int, data_length as int, ch));
        assert(buffer@.len() == 24 + data_length * ch * 2 * (if eight_bit { 1int } else { 2int }));
        assert forall|p2: int, c2: int|
            0 <= p2 < data_length && 0 <= c2 < ch implies {
                &&& #[trigger] sample(buffer@, (p2 * (options.levels@.len() as int) + c2) * 2) == wrap_to(
                    block_min(block(options.levels@[c2]@, p2, options.scale as int, options.length as int), range_bottom(eight_bit)),
                    width,
                )
                &&& sample(buffer@, (p2 * (options.levels@.len() as int) + c2) * 2 + 1) == wrap_to(
                    block_max(block(options.levels@[c2]@, p2, options.scale as int, options.length as int), range_top(eight_bit)),
                    width,
                )
            } by {
            assert(sample(buffer@, (p2 * ch + c2) * 2) == wrap_to(
                block_min(block(options.levels@[c2]@, p2, scale as int, length as int), range_bottom(eight_bit)),
                width,
            ));
        }
        assert(is_peak_buffer(*options, buffer@));
    }
    buffer
}

} // verus!
