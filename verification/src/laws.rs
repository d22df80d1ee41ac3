//! Properties that relate the library's operations to each other.
use vstd::prelude::*;
use crate::bytes::{
    i32_at, i32_bits, lemma_i16_of_injective, lemma_i32_bits, lemma_put_u32, lemma_u32_at_same_bytes,
    put_u32, u32_at, wrap_to,
};
use crate::concat::{compatible, concat_buffer, concat_error, data_sections, length_total};
use crate::error::Error;
use crate::generator::{
    block, block_max, block_min, greatest_level, is_peak_buffer, least_level, peaks_length,
    range_bottom, range_top, PeakOptions,
};
use crate::json::{is_json_buffer, json_channels, json_error, json_sample_bits, json_values_fit, JsonWaveformData};
use crate::layout::{
    binary_error, bits_of, channel_maxs, channel_mins, channels_of, eight_bit_of, header_size_of,
    is_valid_waveform, lemma_sample_bounds, lemma_slot_in_range, lemma_slot_readable,
    lemma_store_slot, length_of, max_slot, min_slot, point_count_of, read_slot, sample,
    sample_rate_of, samples_of, scale_of, slot_byte, slot_count_of, store_slot, version_of,
};
use crate::resample::{
    is_resampled, lemma_ranges, lemma_wrap_in_range, range_end, range_start, range_values, resampled_length,
    seq_max, seq_min,
};
use crate::slice::is_slice;
use crate::waveform::{is_json_of, WaveformData};

verus! {

/// Reloading: the bytes of a loaded waveform load again, so
/// `from_binary(w.as_bytes())` succeeds with the same bytes.
pub proof fn law_reload_bytes(w: WaveformData)
    requires
        w.wf(),
    ensures
        binary_error(w@) is None,
{
    w.lemma_wf();
}

/// Sample indexing: for a channel of a well-formed waveform, the minimum and
/// maximum of every data point in `0..length` read successfully, and every
/// negative index or index at or beyond `length` reads as `IndexOutOfRange`.
pub proof fn law_sample_index_range(b: Seq<u8>, channel: int, index: int)
    requires
        is_valid_waveform(b),
        0 <= channel < channels_of(b),
    ensures
        0 <= index < length_of(b) ==> read_slot(b, min_slot(b, channel, index)) == Ok::<i32, Error>(
            sample(b, min_slot(b, channel, index)) as i32,
        ) && read_slot(b, max_slot(b, channel, index)) == Ok::<i32, Error>(
            sample(b, max_slot(b, channel, index)) as i32,
        ),
        index < 0 || index >= length_of(b) ==> read_slot(b, min_slot(b, channel, index)) == Err::<i32, Error>(
            Error::IndexOutOfRange,
        ) && read_slot(b, max_slot(b, channel, index)) == Err::<i32, Error>(
            Error::IndexOutOfRange,
        ),
{
    let ch = channels_of(b);
    if index < 0 {
        assert(index * ch + channel < 0) by (nonlinear_arith)
            requires
                index < 0,
                0 <= channel < ch,
        ;
    } else if index < length_of(b) {
        lemma_slot_in_range(length_of(b), ch, channel, index);
        lemma_slot_readable(b, min_slot(b, channel, index));
        lemma_slot_readable(b, max_slot(b, channel, index));
    } else {
        assert(index * ch + channel >= length_of(b) * ch) by (nonlinear_arith)
            requires
                index >= length_of(b),
                ch > 0,
                channel >= 0,
        ;
    }
}

/// JSON round trip: a JSON object whose values fit their sample width comes
/// back from `to_json` after `from_json` with the same data, length, sample
/// rate, and samples per pixel; `bits` becomes 8 or 16, `channels` explicit,
/// and `version` 2.
pub proof fn law_json_roundtrip(j: JsonWaveformData, b: Seq<u8>, j2: JsonWaveformData)
    requires
        json_error(j) is None,
        is_json_buffer(j, b),
        json_values_fit(j),
        is_json_of(b, j2),
    ensures
        j2.data@ == j.data@,
        j2.length == j.length,
        j2.sample_rate == j.sample_rate,
        j2.samples_per_pixel == j.samples_per_pixel,
        j2.bits == json_sample_bits(j),
        j2.channels == Some(json_channels(j) as i32),
        j2.version == Some(2i32),
{
    let ch = json_channels(j);
    let n = j.data@.len();
    assert(j.length >= 0) by (nonlinear_arith)
        requires
            n == j.length * 2 * ch,
            ch > 0,
            n >= 0,
    ;
    lemma_i32_bits(j.length);
    assert(i32_bits(j.length) == j.length);
    assert(length_of(b) == j.length);
    assert(point_count_of(b) == j.length);
    assert(j.length * ch * 2 == n) by (nonlinear_arith)
        requires
            n == j.length * 2 * ch,
    ;
    assert forall|k: int| 0 <= k < n implies #[trigger] j2.data@[k] == j.data@[k] by {
        let v = j.data@[k] as int;
        assert(sample(b, k) == wrap_to(v, json_sample_bits(j)));
        if j.bits == 8 {
            assert(-128 <= j.data@[k] <= 127);
        } else {
            assert(-32768 <= j.data@[k] <= 32767);
        }
        lemma_wrap_in_range(v, json_sample_bits(j));
    }
    assert(j2.data@ =~= j.data@);
}

/// JSON reload: the JSON object of a waveform whose length fits `i32` loads
/// again, into a waveform with the same header fields and samples.
pub proof fn law_json_reload(b: Seq<u8>, j: JsonWaveformData, b2: Seq<u8>)
    requires
        is_valid_waveform(b),
        length_of(b) <= i32::MAX,
        is_json_of(b, j),
        is_json_buffer(j, b2),
    ensures
        json_error(j) is None,
        samples_of(b2) == samples_of(b),
        length_of(b2) == length_of(b),
        channels_of(b2) == channels_of(b),
        sample_rate_of(b2) == sample_rate_of(b),
        scale_of(b2) == scale_of(b),
        bits_of(b2) == bits_of(b),
{
    let ch = channels_of(b);
    let len = length_of(b);
    assert(json_channels(j) == ch);
    assert(j.length == len);
    assert(len * ch * 2 == len * 2 * ch) by (nonlinear_arith);
    lemma_i32_bits(j.length);
    assert(json_sample_bits(j) == bits_of(b));
    assert forall|k: int| 0 <= k < slot_count_of(b) implies #[trigger] sample(b2, k) == sample(b, k) by {
        lemma_slot_readable(b, k);
        lemma_sample_bounds(b, k);
        assert(j.data@[k] == sample(b, k) as i32);
        lemma_wrap_in_range(sample(b, k), bits_of(b));
    }
    assert(samples_of(b2) =~= samples_of(b));
}

/// JSON reload of a version-2 waveform: when its 8-bit flag is 0 or 1 and
/// its length fits `i32`, the JSON object loads back into exactly the same
/// bytes.
pub proof fn law_json_reload_v2_bytes(b: Seq<u8>, j: JsonWaveformData, b2: Seq<u8>)
    requires
        is_valid_waveform(b),
        version_of(b) == 2,
        u32_at(b, 4) <= 1,
        length_of(b) <= i32::MAX,
        is_json_of(b, j),
        is_json_buffer(j, b2),
    ensures
        b2 == b,
{
    law_json_reload(b, j, b2);
    let n = slot_count_of(b);
    assert(b2.len() == b.len());
    // Header fields agree, so their bytes agree.
    assert(u32_at(b2, 0) == u32_at(b, 0));
    assert(u32_at(b2, 4) == u32_at(b, 4));
    assert(u32_at(b2, 8) == u32_at(b, 8));
    assert(u32_at(b2, 12) == u32_at(b, 12));
    assert(u32_at(b2, 16) == u32_at(b, 16));
    assert(u32_at(b2, 20) == u32_at(b, 20));
    lemma_u32_at_same_bytes(b2, b, 0);
    lemma_u32_at_same_bytes(b2, b, 4);
    lemma_u32_at_same_bytes(b2, b, 8);
    lemma_u32_at_same_bytes(b2, b, 12);
    lemma_u32_at_same_bytes(b2, b, 16);
    lemma_u32_at_same_bytes(b2, b, 20);
    // Samples agree, so the data bytes agree.
    assert forall|i: int| 24 <= i < b.len() implies b2[i] == b[i] by {
        if eight_bit_of(b) {
            let k = i - 24;
            assert(samples_of(b2)[k] == samples_of(b)[k]);
            assert(slot_byte(b, k) == i);
        } else {
            let k = (i - 24) / 2;
            assert(0 <= k < n);
            assert(samples_of(b2)[k] == samples_of(b)[k]);
            assert(slot_byte(b, k) == 24 + 2 * k);
            lemma_i16_of_injective(b2[24 + 2 * k], b2[24 + 2 * k + 1], b[24 + 2 * k], b[24 + 2 * k + 1]);
        }
    }
    assert(b2 =~= b);
}

/// Writing a sample: after storing `v` in slot `k`, reading slot `k` gives
/// `v` wrapped to the sample width, every other slot reads as before, and the
/// header is unchanged.
pub proof fn law_store_then_read(b: Seq<u8>, k: int, v: int)
    requires
        is_valid_waveform(b),
        0 <= k < slot_count_of(b),
    ensures
        read_slot(store_slot(b, k, v), k) == Ok::<i32, Error>(wrap_to(v, bits_of(b)) as i32),
        forall|j: int|
            0 <= j < slot_count_of(b) && j != k ==> #[trigger] read_slot(store_slot(b, k, v), j)
                == read_slot(b, j),
        length_of(store_slot(b, k, v)) == length_of(b),
        channels_of(store_slot(b, k, v)) == channels_of(b),
        bits_of(store_slot(b, k, v)) == bits_of(b),
        sample_rate_of(store_slot(b, k, v)) == sample_rate_of(b),
        scale_of(store_slot(b, k, v)) == scale_of(b),
{
    lemma_store_slot(b, k, v);
    let nb = store_slot(b, k, v);
    lemma_slot_readable(nb, k);
    assert forall|j: int|
        0 <= j < slot_count_of(b) && j != k implies #[trigger] read_slot(nb, j) == read_slot(b, j) by {
        lemma_slot_readable(nb, j);
        lemma_slot_readable(b, j);
    }
}

/// Slicing the whole range `0..length` keeps the header fields and every
/// sample.
pub proof fn law_slice_whole(b: Seq<u8>, out: Seq<u8>)
    requires
        is_valid_waveform(b),
        is_slice(b, 0, length_of(b), out),
    ensures
        samples_of(out) == samples_of(b),
        length_of(out) == length_of(b),
        channels_of(out) == channels_of(b),
        bits_of(out) == bits_of(b),
        sample_rate_of(out) == sample_rate_of(b),
        scale_of(out) == scale_of(b),
{
    assert(samples_of(out) =~= samples_of(b));
}

/// Resampling to the source scale keeps the length and every channel's
/// minimums and maximums.
pub proof fn law_resample_same_scale(b: Seq<u8>, out: Seq<u8>)
    requires
        is_valid_waveform(b),
        length_of(b) == 0 || scale_of(b) > 0,
        length_of(b) <= i32::MAX,
        is_resampled(b, scale_of(b), out),
    ensures
        length_of(out) == length_of(b),
        channels_of(out) == channels_of(b),
        forall|c: int| 0 <= c < channels_of(b) ==> #[trigger] channel_mins(out, c) == channel_mins(b, c),
        forall|c: int| 0 <= c < channels_of(b) ==> #[trigger] channel_maxs(out, c) == channel_maxs(b, c),
{
    let n = length_of(b);
    let s = scale_of(b);
    let ch = channels_of(b);
    if n == 0 {
        assert forall|c: int| 0 <= c < ch implies #[trigger] channel_mins(out, c) == channel_mins(b, c) by {
            assert(channel_mins(out, c) =~= channel_mins(b, c));
        }
        assert forall|c: int| 0 <= c < ch implies #[trigger] channel_maxs(out, c) == channel_maxs(b, c) by {
            assert(channel_maxs(out, c) =~= channel_maxs(b, c));
        }
    } else {
        assert(resampled_length(n, s, s) == n) by (nonlinear_arith)
            requires
                s > 0,
                n >= 0,
        ;
        assert forall|c: int| 0 <= c < ch implies #[trigger] channel_mins(out, c) == channel_mins(b, c) by {
            assert forall|p: int| 0 <= p < n implies #[trigger] channel_mins(out, c)[p] == channel_mins(b, c)[p] by {
                lemma_resample_same_scale_point(b, out, c, p);
            }
            assert(channel_mins(out, c) =~= channel_mins(b, c));
        }
        assert forall|c: int| 0 <= c < ch implies #[trigger] channel_maxs(out, c) == channel_maxs(b, c) by {
            assert forall|p: int| 0 <= p < n implies #[trigger] channel_maxs(out, c)[p] == channel_maxs(b, c)[p] by {
                lemma_resample_same_scale_point(b, out, c, p);
            }
            assert(channel_maxs(out, c) =~= channel_maxs(b, c));
        }
    }
}

proof fn lemma_resample_same_scale_point(b: Seq<u8>, out: Seq<u8>, c: int, p: int)
    requires
        is_valid_waveform(b),
        scale_of(b) > 0,
        length_of(b) <= i32::MAX,
        is_resampled(b, scale_of(b), out),
        resampled_length(length_of(b), scale_of(b), scale_of(b)) == length_of(b),
        0 <= c < channels_of(b),
        0 <= p < length_of(b),
    ensures
        channel_mins(out, c)[p] == channel_mins(b, c)[p],
        channel_maxs(out, c)[p] == channel_maxs(b, c)[p],
{
    let n = length_of(b);
    let s = scale_of(b);
    let ch = channels_of(b);
    assert(range_start(p, s, s) == p) by (nonlinear_arith)
        requires
            s > 0,
    ;
    assert(((p + 1) * s) / s == p + 1) by (nonlinear_arith)
        requires
            s > 0,
    ;
    let mins = range_values(channel_mins(b, c), p, p + 1);
    let maxs = range_values(channel_maxs(b, c), p, p + 1);
    assert(mins.len() == 1);
    assert(seq_min(mins) == mins[0]);
    assert(seq_max(maxs) == maxs[0]);
    lemma_slot_in_range(n, ch, c, p);
    lemma_slot_readable(b, min_slot(b, c, p));
    lemma_slot_readable(b, max_slot(b, c, p));
    lemma_sample_bounds(b, min_slot(b, c, p));
    lemma_sample_bounds(b, max_slot(b, c, p));
    assert(sample(out, min_slot(out, c, p)) == seq_min(mins));
}

/// Generated peaks load: with at least one level sequence the generated
/// buffer is a well-formed waveform of `ceil(length / scale)` points, one
/// channel per level sequence.
pub proof fn law_peaks_load(o: PeakOptions, out: Seq<u8>)
    requires
        o.scale > 0,
        o.length >= 0,
        o.levels@.len() > 0,
        o.levels@.len() <= i32::MAX,
        is_peak_buffer(o, out),
    ensures
        binary_error(out) is None,
        length_of(out) == peaks_length(o.length as int, o.scale as int),
        channels_of(out) == o.levels@.len(),
        scale_of(out) == o.scale,
        sample_rate_of(out) == o.sample_rate,
        bits_of(out) == (if o.bits == 8 {
            8int
        } else {
            16int
        }),
{
    let d = peaks_length(o.length as int, o.scale as int);
    assert(0 <= d) by (nonlinear_arith)
        requires
            d == (o.length + o.scale - 1) / (o.scale as int),
            o.scale > 0,
            o.length >= 0,
    ;
    let ch = o.levels@.len() as int;
    assert(d * ch * 2 * (if o.bits == 8 { 1int } else { 2int }) == length_of(out) * channels_of(out) * 2 * (if eight_bit_of(out) { 1int } else { 2int }));
}

/// Split channels: in a peak buffer generated from several level sequences,
/// channel `c` holds the same minimums and maximums as the buffer generated
/// from sequence `c` alone with the same settings.
pub proof fn law_peaks_split(o: PeakOptions, out: Seq<u8>, oc: PeakOptions, out_c: Seq<u8>, c: int)
    requires
        o.scale > 0,
        o.length >= 0,
        0 <= c < o.levels@.len(),
        oc.scale == o.scale,
        oc.bits == o.bits,
        oc.sample_rate == o.sample_rate,
        oc.length == o.length,
        oc.levels@.len() == 1,
        oc.levels@[0]@ == o.levels@[c]@,
        is_peak_buffer(o, out),
        is_peak_buffer(oc, out_c),
    ensures
        channels_of(out) == o.levels@.len(),
        length_of(out) == length_of(out_c),
        channel_mins(out, c) == channel_mins(out_c, 0),
        channel_maxs(out, c) == channel_maxs(out_c, 0),
{
    let d = peaks_length(o.length as int, o.scale as int);
    let ch = o.levels@.len() as int;
    assert(0 <= d <= o.length) by (nonlinear_arith)
        requires
            d == (o.length + o.scale - 1) / (o.scale as int),
            o.scale > 0,
            o.length >= 0,
    ;
    assert(channels_of(out) == ch);
    assert(channels_of(out_c) == 1);
    assert forall|p: int| 0 <= p < d implies #[trigger] channel_mins(out, c)[p] == channel_mins(out_c, 0)[p] by {
        assert(min_slot(out, c, p) == (p * ch + c) * 2);
        assert(min_slot(out_c, 0, p) == (p * 1 + 0) * 2);
    }
    assert forall|p: int| 0 <= p < d implies #[trigger] channel_maxs(out, c)[p] == channel_maxs(out_c, 0)[p] by {
        assert(max_slot(out, c, p) == (p * ch + c) * 2 + 1);
        assert(max_slot(out_c, 0, p) == (p * 1 + 0) * 2 + 1);
        assert(channel_mins(out, c)[p] == channel_mins(out_c, 0)[p]);
    }
    assert(channel_mins(out, c) =~= channel_mins(out_c, 0));
    assert(channel_maxs(out, c) =~= channel_maxs(out_c, 0));
}

/// The samples of the buffers, one buffer after another.
pub open spec fn concat_samples(bufs: Seq<Seq<u8>>) -> Seq<int>
    decreases bufs.len(),
{
    if bufs.len() == 0 {
        Seq::empty()
    } else {
        concat_samples(bufs.drop_last()) + samples_of(bufs.last())
    }
}

/// The sample in slot `k` of a data section (bytes after the header).
pub open spec fn section_sample(d: Seq<u8>, k: int, eight_bit: bool) -> int {
    if eight_bit {
        crate::bytes::i8_of(d[k])
    } else {
        crate::bytes::i16_of(d[2 * k], d[2 * k + 1])
    }
}

/// Data sections of buffers with one sample width, placed one after
/// another, hold their samples one after another.
proof fn lemma_sections(eight_bit: bool, bufs: Seq<Seq<u8>>)
    requires
        forall|i: int|
            0 <= i < bufs.len() ==> {
                &&& is_valid_waveform(#[trigger] bufs[i])
                &&& eight_bit_of(bufs[i]) == eight_bit
            },
    ensures
        data_sections(bufs).len() == concat_samples(bufs).len() * (if eight_bit {
            1int
        } else {
            2int
        }),
        forall|k: int|
            0 <= k < concat_samples(bufs).len() ==> section_sample(data_sections(bufs), k, eight_bit)
                == #[trigger] concat_samples(bufs)[k],
    decreases bufs.len(),
{
    if bufs.len() > 0 {
        let init = bufs.drop_last();
        let b = bufs.last();
        lemma_sections(eight_bit, init);
        assert(is_valid_waveform(bufs[bufs.len() - 1]));
        let hs = header_size_of(b);
        let d0 = data_sections(init);
        let s0 = concat_samples(init);
        let d = data_sections(bufs);
        let sb = samples_of(b);
        assert(d == d0 + b.skip(hs));
        assert(concat_samples(bufs) == s0 + sb);
        assert forall|k: int|
            0 <= k < concat_samples(bufs).len() implies section_sample(d, k, eight_bit)
                == #[trigger] concat_samples(bufs)[k] by {
            if k < s0.len() {
                assert(section_sample(d0, k, eight_bit) == s0[k]);
            } else {
                let k2 = k - s0.len();
                lemma_slot_readable(b, k2);
            }
        }
    }
}

/// Concatenation: compatible waveforms whose lengths sum below 2^32
/// concatenate into a well-formed waveform whose length is the sum, whose
/// header fields are the first waveform's, and whose samples are the
/// operands' samples one after another, whatever each operand's header
/// version.
#[verifier::spinoff_prover]
pub proof fn law_concat(first: Seq<u8>, others: Seq<Seq<u8>>)
    requires
        is_valid_waveform(first),
        forall|i: int|
            0 <= i < others.len() ==> {
                &&& is_valid_waveform(#[trigger] others[i])
                &&& compatible(first, others[i])
            },
        length_total(seq![first] + others) < 0x1_0000_0000,
    ensures
        concat_error(first, others) is None,
        binary_error(concat_buffer(first, others)) is None,
        length_of(concat_buffer(first, others)) == length_total(seq![first] + others),
        version_of(concat_buffer(first, others)) == version_of(first),
        channels_of(concat_buffer(first, others)) == channels_of(first),
        bits_of(concat_buffer(first, others)) == bits_of(first),
        sample_rate_of(concat_buffer(first, others)) == sample_rate_of(first),
        scale_of(concat_buffer(first, others)) == scale_of(first),
        samples_of(concat_buffer(first, others)) == concat_samples(seq![first] + others),
{
    reveal(concat_buffer);
    let hs = header_size_of(first);
    let eight_bit = eight_bit_of(first);
    let ch = channels_of(first);
    let all = seq![first] + others;
    assert forall|i: int| 0 <= i < all.len() implies {
        &&& is_valid_waveform(#[trigger] all[i])
        &&& eight_bit_of(all[i]) == eight_bit
        &&& channels_of(all[i]) == ch
    } by {
        if i > 0 {
            assert(all[i] == others[i - 1]);
        }
    }
    assert(!(exists|i: int| 0 <= i < others.len() && !compatible(first, #[trigger] others[i])));
    lemma_sections(eight_bit, all);
    let total = length_total(all);
    lemma_length_total_bounds(all);
    vstd::arithmetic::div_mod::lemma_small_mod(total as nat, 0x1_0000_0000);
    let d = data_sections(all);
    let body = first.take(hs) + d;
    let cb = concat_buffer(first, others);
    lemma_put_u32(body, 16, total as u32);
    assert(cb == put_u32(body, 16, total as u32));
    assert(forall|j: int| 0 <= j < 16 ==> cb[j] == first[j]);
    assert(forall|j: int| 20 <= j < hs ==> cb[j] == first[j]);
    assert(version_of(cb) == version_of(first));
    assert(eight_bit_of(cb) == eight_bit);
    assert(channels_of(cb) == ch);
    lemma_concat_samples_len(all, ch);
    assert(samples_of(cb) =~= concat_samples(all));
}

/// Concatenating no operands gives back the waveform's bytes unchanged.
pub proof fn law_concat_none(first: Seq<u8>)
    requires
        is_valid_waveform(first),
    ensures
        concat_error(first, Seq::empty()) is None,
        concat_buffer(first, Seq::empty()) == first,
{
    reveal(concat_buffer);
    reveal_with_fuel(data_sections, 2);
    reveal_with_fuel(length_total, 2);
    let all = seq![first] + Seq::<Seq<u8>>::empty();
    let hs = header_size_of(first);
    assert(all.drop_last() =~= Seq::<Seq<u8>>::empty());
    assert(all.last() == first);
    assert(data_sections(all) == first.skip(hs));
    assert(length_total(all) == length_of(first));
    vstd::arithmetic::div_mod::lemma_small_mod(length_of(first) as nat, 0x1_0000_0000);
    let body = first.take(hs) + first.skip(hs);
    assert(body =~= first);
    crate::bytes::lemma_put_u32_same(first, 16);
}

/// The total sample count of buffers with one channel count is the total
/// length times the channel count times 2.
proof fn lemma_concat_samples_len(bufs: Seq<Seq<u8>>, ch: int)
    requires
        ch >= 0,
        forall|i: int| 0 <= i < bufs.len() ==> #[trigger] channels_of(bufs[i]) == ch,
    ensures
        concat_samples(bufs).len() == length_total(bufs) * ch * 2,
    decreases bufs.len(),
{
    if bufs.len() > 0 {
        let init = bufs.drop_last();
        assert forall|i: int| 0 <= i < init.len() implies #[trigger] channels_of(init[i]) == ch by {
            assert(init[i] == bufs[i]);
        }
        lemma_concat_samples_len(init, ch);
        assert(channels_of(bufs[bufs.len() - 1]) == ch);
        assert(length_of(bufs.last()) * ch * 2 >= 0) by (nonlinear_arith)
            requires
                length_of(bufs.last()) >= 0,
                ch >= 0,
        ;
        assert(length_total(bufs) * ch * 2 == length_total(init) * ch * 2 + length_of(bufs.last())
            * ch * 2) by (nonlinear_arith)
            requires
                length_total(bufs) == length_total(init) + length_of(bufs.last()),
        ;
    }
}

/// The total length is not negative.
proof fn lemma_length_total_bounds(bufs: Seq<Seq<u8>>)
    ensures
        length_total(bufs) >= 0,
    decreases bufs.len(),
{
    if bufs.len() > 0 {
        lemma_length_total_bounds(bufs.drop_last());
    }
}

/// The least element of a nonempty sequence is at most each element and is
/// one of them; the greatest is at least each element and is one of them.
proof fn lemma_seq_extremes(s: Seq<int>)
    requires
        s.len() > 0,
    ensures
        forall|k: int| 0 <= k < s.len() ==> seq_min(s) <= #[trigger] s[k] && s[k] <= seq_max(s),
        exists|k: int| 0 <= k < s.len() && #[trigger] s[k] == seq_min(s),
        exists|k: int| 0 <= k < s.len() && #[trigger] s[k] == seq_max(s),
    decreases s.len(),
{
    if s.len() == 1 {
        assert(s[0] == seq_min(s));
        assert(s[0] == seq_max(s));
    } else {
        let init = s.drop_last();
        lemma_seq_extremes(init);
        assert forall|k: int| 0 <= k < s.len() implies seq_min(s) <= #[trigger] s[k] && s[k] <= seq_max(s) by {
            if k < init.len() {
                assert(s[k] == init[k]);
            }
        }
        let k1 = choose|k: int| 0 <= k < init.len() && #[trigger] init[k] == seq_min(init);
        let k2 = choose|k: int| 0 <= k < init.len() && #[trigger] init[k] == seq_max(init);
        assert(s[k1] == init[k1]);
        assert(s[k2] == init[k2]);
        assert(s[s.len() - 1] == s.last());
    }
}

/// Resampled length: the output has `ceil(length * s / t)` points, so the
/// output points cover every input point and no output point starts past
/// the input.
pub proof fn law_resample_length(b: Seq<u8>, t: int, out: Seq<u8>)
    requires
        is_valid_waveform(b),
        0 < scale_of(b) <= t,
        is_resampled(b, t, out),
    ensures
        length_of(out) * t >= length_of(b) * scale_of(b),
        (length_of(out) - 1) * t < length_of(b) * scale_of(b),
{
    let n = length_of(b);
    let s = scale_of(b);
    let l = length_of(out);
    if n > 0 {
        assert(l == (n * s + t - 1) / t);
        assert(l * t >= n * s && (l - 1) * t < n * s) by (nonlinear_arith)
            requires
                l == (n * s + t - 1) / t,
                t > 0,
        ;
    }
}

/// Resampled extremes: the minimum of output point `p` is at most the
/// minimum of every input point `i` whose position `i * s` falls in
/// `[p * t, (p + 1) * t)`, and the maximum at least its maximum.
pub proof fn law_resample_bounds(b: Seq<u8>, t: int, out: Seq<u8>, c: int, p: int, i: int)
    requires
        is_valid_waveform(b),
        0 < scale_of(b) <= t,
        length_of(b) <= i32::MAX,
        is_resampled(b, t, out),
        0 <= c < channels_of(b),
        0 <= p < length_of(out),
        0 <= i < length_of(b),
        (p * t) / scale_of(b) <= i < ((p + 1) * t) / scale_of(b),
    ensures
        sample(out, min_slot(out, c, p)) <= sample(b, min_slot(b, c, i)),
        sample(out, max_slot(out, c, p)) >= sample(b, max_slot(b, c, i)),
{
    let n = length_of(b);
    let s = scale_of(b);
    lemma_ranges(n, s, t, p);
    let lo = range_start(p, s, t);
    let hi = range_end(p, s, t, n);
    let mins = range_values(channel_mins(b, c), lo, hi);
    let maxs = range_values(channel_maxs(b, c), lo, hi);
    lemma_seq_extremes(mins);
    lemma_seq_extremes(maxs);
    let k = i - lo;
    assert(mins[k] == channel_mins(b, c)[i] as int);
    assert(maxs[k] == channel_maxs(b, c)[i] as int);
    lemma_slot_in_range(n, channels_of(b), c, i);
    lemma_slot_readable(b, min_slot(b, c, i));
    lemma_slot_readable(b, max_slot(b, c, i));
    lemma_sample_bounds(b, min_slot(b, c, i));
    lemma_sample_bounds(b, max_slot(b, c, i));
}

/// Resampled extremes are attained: the minimum (maximum) of output point
/// `p` is the minimum (maximum) of some input point in its range.
pub proof fn law_resample_attained(b: Seq<u8>, t: int, out: Seq<u8>, c: int, p: int)
    requires
        is_valid_waveform(b),
        0 < scale_of(b) <= t,
        length_of(b) <= i32::MAX,
        is_resampled(b, t, out),
        0 <= c < channels_of(b),
        0 <= p < length_of(out),
    ensures
        exists|i: int|
            0 <= i < length_of(b) && (p * t) / scale_of(b) <= i < ((p + 1) * t) / scale_of(b)
                && sample(out, min_slot(out, c, p)) == #[trigger] sample(b, min_slot(b, c, i)),
        exists|i: int|
            0 <= i < length_of(b) && (p * t) / scale_of(b) <= i < ((p + 1) * t) / scale_of(b)
                && sample(out, max_slot(out, c, p)) == #[trigger] sample(b, max_slot(b, c, i)),
{
    let n = length_of(b);
    let s = scale_of(b);
    lemma_ranges(n, s, t, p);
    let lo = range_start(p, s, t);
    let hi = range_end(p, s, t, n);
    let mins = range_values(channel_mins(b, c), lo, hi);
    let maxs = range_values(channel_maxs(b, c), lo, hi);
    lemma_seq_extremes(mins);
    lemma_seq_extremes(maxs);
    let k1 = choose|k: int| 0 <= k < mins.len() && #[trigger] mins[k] == seq_min(mins);
    let k2 = choose|k: int| 0 <= k < maxs.len() && #[trigger] maxs[k] == seq_max(maxs);
    let i1 = lo + k1;
    let i2 = lo + k2;
    lemma_slot_in_range(n, channels_of(b), c, i1);
    lemma_slot_in_range(n, channels_of(b), c, i2);
    lemma_sample_bounds(b, min_slot(b, c, i1));
    lemma_sample_bounds(b, max_slot(b, c, i2));
    lemma_slot_readable(b, min_slot(b, c, i1));
    lemma_slot_readable(b, max_slot(b, c, i2));
    assert(mins[k1] == channel_mins(b, c)[i1] as int);
    assert(maxs[k2] == channel_maxs(b, c)[i2] as int);
}

/// Concatenation refuses mismatched operands: an operand whose channel
/// count, sample rate, bit width, or scale differs from the receiver's makes
/// concatenation fail with `IncompatibleWaveforms`.
pub proof fn law_concat_mismatch(first: Seq<u8>, others: Seq<Seq<u8>>, i: int)
    requires
        0 <= i < others.len(),
        channels_of(others[i]) != channels_of(first) || sample_rate_of(others[i]) != sample_rate_of(
            first,
        ) || bits_of(others[i]) != bits_of(first) || scale_of(others[i]) != scale_of(first),
    ensures
        concat_error(first, others) == Some(Error::IncompatibleWaveforms),
{
    assert(!compatible(first, others[i]));
}

/// Concatenation succeeds only when every operand has the receiver's channel
/// count, sample rate, bit width, and scale.
pub proof fn law_concat_accepts_only_matching(first: Seq<u8>, others: Seq<Seq<u8>>)
    requires
        concat_error(first, others) is None,
    ensures
        forall|i: int|
            0 <= i < others.len() ==> channels_of(#[trigger] others[i]) == channels_of(first)
                && sample_rate_of(others[i]) == sample_rate_of(first) && bits_of(others[i])
                == bits_of(first) && scale_of(others[i]) == scale_of(first),
{
    assert forall|i: int| 0 <= i < others.len() implies channels_of(#[trigger] others[i])
        == channels_of(first) && sample_rate_of(others[i]) == sample_rate_of(first) && bits_of(
        others[i],
    ) == bits_of(first) && scale_of(others[i]) == scale_of(first) by {
        if !compatible(first, others[i]) {
            assert(exists|j: int| 0 <= j < others.len() && !compatible(first, #[trigger] others[j]));
        }
    }
}

/// The least and greatest levels of a sequence bound every level present and
/// are among them; there are none exactly when no level is present.
proof fn lemma_level_extremes(s: Seq<Option<i64>>)
    ensures
        least_level(s) is None <==> (forall|k: int| 0 <= k < s.len() ==> #[trigger] s[k] is None),
        greatest_level(s) is None <==> (forall|k: int| 0 <= k < s.len() ==> #[trigger] s[k] is None),
        least_level(s) matches Some(m) ==> forall|k: int|
            0 <= k < s.len() ==> (#[trigger] s[k] matches Some(v) ==> m <= v),
        greatest_level(s) matches Some(m) ==> forall|k: int|
            0 <= k < s.len() ==> (#[trigger] s[k] matches Some(v) ==> v <= m),
        least_level(s) matches Some(m) ==> exists|k: int|
            0 <= k < s.len() && #[trigger] s[k] == Some(m as i64) && i64::MIN <= m <= i64::MAX,
        greatest_level(s) matches Some(m) ==> exists|k: int|
            0 <= k < s.len() && #[trigger] s[k] == Some(m as i64) && i64::MIN <= m <= i64::MAX,
    decreases s.len(),
{
    if s.len() > 0 {
        let init = s.drop_last();
        lemma_level_extremes(init);
        let last = s.len() - 1;
        assert(s[last] == s.last());
        assert forall|k: int| 0 <= k < init.len() implies #[trigger] init[k] == s[k] by {}
        match least_level(init) {
            Some(m) => {
                let k = choose|k: int| 0 <= k < init.len() && #[trigger] init[k] == Some(m as i64) && i64::MIN <= m <= i64::MAX;
                assert(s[k] == init[k]);
            },
            None => {},
        }
        match greatest_level(init) {
            Some(m) => {
                let k = choose|k: int| 0 <= k < init.len() && #[trigger] init[k] == Some(m as i64) && i64::MIN <= m <= i64::MAX;
                assert(s[k] == init[k]);
            },
            None => {},
        }
        match least_level(s) {
            Some(m) => {
                assert forall|k: int| 0 <= k < s.len() implies (#[trigger] s[k] matches Some(v) ==> m <= v) by {
                    if k < init.len() {
                        assert(init[k] == s[k]);
                    }
                }
            },
            None => {},
        }
        match greatest_level(s) {
            Some(m) => {
                assert forall|k: int| 0 <= k < s.len() implies (#[trigger] s[k] matches Some(v) ==> v <= m) by {
                    if k < init.len() {
                        assert(init[k] == s[k]);
                    }
                }
            },
            None => {},
        }
        if least_level(s) is None {
            assert forall|k: int| 0 <= k < s.len() implies #[trigger] s[k] is None by {
                if k < init.len() {
                    assert(init[k] == s[k]);
                }
            }
        }
        if forall|k: int| 0 <= k < s.len() ==> #[trigger] s[k] is None {
            assert forall|k: int| 0 <= k < init.len() implies #[trigger] init[k] is None by {
                assert(init[k] == s[k]);
            }
        }
    }
}

/// Block extremes: the stored minimum of a block is at most each level in it
/// (raised to `range_min`) and equals one of them, or `i64::MAX` when the
/// block holds no level; the stored maximum is at least each level (lowered
/// to `range_max`) and equals one of them, or `i64::MIN`.
pub proof fn law_block_extremes(s: Seq<Option<i64>>, range_min: int, range_max: int)
    ensures
        forall|k: int|
            0 <= k < s.len() ==> (#[trigger] s[k] matches Some(v) ==> block_min(s, range_min) <= (
            if v < range_min {
                range_min
            } else {
                v as int
            }) && block_max(s, range_max) >= (if v > range_max {
                range_max
            } else {
                v as int
            })),
        (exists|k: int| 0 <= k < s.len() && #[trigger] s[k] is Some) ==> {
            &&& range_min <= block_min(s, range_min)
            &&& block_max(s, range_max) <= range_max
            &&& exists|k: int|
                0 <= k < s.len() && (#[trigger] s[k] matches Some(v) && block_min(s, range_min) == (
                if v < range_min {
                    range_min
                } else {
                    v as int
                }))
            &&& exists|k: int|
                0 <= k < s.len() && (#[trigger] s[k] matches Some(v) && block_max(s, range_max) == (
                if v > range_max {
                    range_max
                } else {
                    v as int
                }))
        },
        (forall|k: int| 0 <= k < s.len() ==> #[trigger] s[k] is None) ==> block_min(s, range_min)
            == i64::MAX && block_max(s, range_max) == i64::MIN,
{
    lemma_level_extremes(s);
    if exists|k: int| 0 <= k < s.len() && #[trigger] s[k] is Some {
        let k0 = choose|k: int| 0 <= k < s.len() && #[trigger] s[k] is Some;
        assert(!(s[k0] is None));
        let m1 = least_level(s)->0;
        let m2 = greatest_level(s)->0;
        let k1 = choose|k: int| 0 <= k < s.len() && #[trigger] s[k] == Some(m1 as i64) && i64::MIN <= m1 <= i64::MAX;
        let k2 = choose|k: int| 0 <= k < s.len() && #[trigger] s[k] == Some(m2 as i64) && i64::MIN <= m2 <= i64::MAX;
        assert(s[k1] matches Some(v) && block_min(s, range_min) == (if v < range_min {
            range_min
        } else {
            v as int
        }));
        assert(s[k2] matches Some(v) && block_max(s, range_max) == (if v > range_max {
            range_max
        } else {
            v as int
        }));
    }
}

/// Generated peaks bound their block: for every level `v` of channel `c`
/// that lies in the sample range and falls in block `p` (levels
/// `p * scale .. (p + 1) * scale`), the stored minimum of that point is at
/// most `v` and the stored maximum at least `v`.
pub proof fn law_peaks_bounds(o: PeakOptions, out: Seq<u8>, c: int, p: int, i: int, v: i64)
    requires
        o.scale > 0,
        o.length >= 0,
        is_peak_buffer(o, out),
        0 <= c < o.levels@.len(),
        o.levels@[c]@.len() >= o.length,
        0 <= p,
        p * o.scale <= i < (p + 1) * o.scale,
        i < o.length,
        o.levels@[c]@[i] == Some(v),
        range_bottom(o.bits == 8) <= v <= range_top(o.bits == 8),
    ensures
        sample(out, min_slot(out, c, p)) <= v,
        sample(out, max_slot(out, c, p)) >= v,
{
    let sc = o.scale as int;
    let n = o.length as int;
    let eb = o.bits == 8;
    let d = peaks_length(n, sc);
    let ch = o.levels@.len() as int;
    assert(p < d) by (nonlinear_arith)
        requires
            d == (n + sc - 1) / sc,
            sc > 0,
            0 <= p,
            p * sc <= i < n,
    ;
    let blk = block(o.levels@[c]@, p, sc, n);
    let lo = p * sc;
    let k = i - lo;
    assert(blk[k] == Some(v));
    law_block_extremes(blk, range_bottom(eb), range_top(eb));
    assert(blk[k] is Some);
    let mn = block_min(blk, range_bottom(eb));
    let mx = block_max(blk, range_top(eb));
    let width = if eb {
        8int
    } else {
        16int
    };
    lemma_wrap_in_range(mn, width);
    lemma_wrap_in_range(mx, width);
    assert(channels_of(out) == ch);
    assert(min_slot(out, c, p) == (p * ch + c) * 2);
    assert(max_slot(out, c, p) == (p * ch + c) * 2 + 1);
    assert(sample(out, (p * ch + c) * 2) == wrap_to(mn, width));
}

} // verus!
