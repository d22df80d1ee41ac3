//! The parsed waveform: a validated binary buffer with its header fields and
//! interleaved `(min, max)` samples.
use vstd::prelude::*;
use crate::bytes::{
    decode_i16, decode_i8, lemma_i32_bits, encode_u16, encode_u8, i32_at, i32_bits, put_u32, read_i32_le, read_u32_le, u32_at,
    write_i32_le, write_u32_le, lemma_put_u32,
};
use crate::error::Error;
use crate::header::store_sample;
use crate::json::{convert_json_to_binary, is_json_buffer, json_channels, json_error, JsonWaveformData};
use crate::layout::{
    binary_error, bytes_per_sample_of, channels_of, eight_bit_of, has_v2_header,
    header_size_of, is_valid_waveform, length_of, read_slot, sample_rate_of, scale_of,
    slot_byte, slot_count_of, version_of, bits_of, store_slot, lemma_store_slot,
    lemma_slot_readable, lemma_slot_in_range, point_count_of, sample,
};

verus! {

/// A parsed waveform: header fields plus interleaved `(min, max)` samples.
///
/// The data is held as the version-1 or version-2 binary buffer it was loaded
/// from. JSON input is converted to version 2 on load. Transforms and
/// generated buffers are always version 2.
#[derive(Debug, Clone, PartialEq, Eq)]
pub struct WaveformData {
    data: Vec<u8>,
    offset: usize,
}

impl View for WaveformData {
    type V = Seq<u8>;

    closed spec fn view(&self) -> Seq<u8> {
        self.data@
    }
}

/// `j` is the JSON object of waveform bytes `b`: version 2, `b`'s channels,
/// sample rate, scale (as `samples_per_pixel`), bits, and length field read as
/// `i32`, and the samples of every enumerated data point in slot order.
pub open spec fn is_json_of(b: Seq<u8>, j: JsonWaveformData) -> bool {
    &&& j.version == Some(2i32)
    &&& j.channels == Some(channels_of(b) as i32)
    &&& j.sample_rate == sample_rate_of(b)
    &&& j.samples_per_pixel == scale_of(b)
    &&& j.bits == bits_of(b)
    &&& j.length == i32_at(b, 16)
    &&& j.data@ == Seq::new(
        (point_count_of(b) * channels_of(b) * 2) as nat,
        |k: int| sample(b, k) as i32,
    )
}

/// A converted JSON buffer is a valid waveform exactly when its channel count
/// is positive, given that the value count matched.
proof fn lemma_json_buffer_validity(j: JsonWaveformData, b: Seq<u8>)
    requires
        j.data@.len() == j.length * 2 * json_channels(j),
        is_json_buffer(j, b),
    ensures
        json_channels(j) > 0 ==> binary_error(b) is None,
        json_channels(j) <= 0 ==> binary_error(b) == Some(Error::DataLengthMismatch),
{
    lemma_i32_bits(j.length);
    if json_channels(j) > 0 {
        assert(j.length >= 0) by (nonlinear_arith)
            requires
                j.data@.len() == j.length * 2 * json_channels(j),
                json_channels(j) > 0,
        ;
        assert(i32_bits(j.length) == j.length);
        assert(j.length * json_channels(j) * 2 == j.length * 2 * json_channels(j))
            by (nonlinear_arith);
    }
}

impl WaveformData {
    /// The buffer is a well-formed waveform and `offset` is its header size.
    pub closed spec fn wf(&self) -> bool {
        &&& is_valid_waveform(self.data@)
        &&& self.offset == header_size_of(self.data@)
    }

    pub proof fn lemma_wf(&self)
        requires
            self.wf(),
        ensures
            is_valid_waveform(self@),
    {
    }

    /// Builds a waveform from a binary `.dat` buffer.
    ///
    /// Accepts version 1 (20-byte header, single channel) and version 2
    /// (24-byte header). Fails with `UnknownDataFormat` when the buffer is
    /// shorter than the version field or than the header of its version, with
    /// `UnsupportedVersion` for any version other than 1 or 2, and with
    /// `DataLengthMismatch` when the channel count is not positive or the
    /// header's `length * channels * 2` samples do not exactly fill the bytes
    /// after the header.
    pub fn from_binary(data: Vec<u8>) -> (r: Result<WaveformData, Error>)
        ensures
            match r {
                Ok(w) => binary_error(data@) is None && w@ == data@ && w.wf(),
                Err(e) => binary_error(data@) == Some(e),
            },
    {
        if data.len() < 4 {
            return Err(Error::UnknownDataFormat);
        }
        let version: i32 = read_i32_le(data.as_slice(), 0);
        if version != 1 && version != 2 {
            return Err(Error::UnsupportedVersion);
        }
        let offset: usize = if version == 2 {
            24
        } else {
            20
        };
        if data.len() < offset {
            return Err(Error::UnknownDataFormat);
        }
        let length: u32 = read_u32_le(data.as_slice(), 16);
        let channels: i32 = if version == 2 {
            read_i32_le(data.as_slice(), 20)
        } else {
            1
        };
        if channels <= 0 {
            return Err(Error::DataLengthMismatch);
        }
        let bytes_per_sample: u128 = if read_u32_le(data.as_slice(), 4) != 0 {
            1
        } else {
            2
        };
        assert(length as u128 * channels as u128 <= 0xffff_ffffu128 * 0x7fff_ffffu128)
            by (nonlinear_arith)
            requires
                length <= 0xffff_ffffu32,
                0 < channels <= 0x7fff_ffffi32,
        ;
        let data_bytes: u128 = length as u128 * channels as u128 * 2 * bytes_per_sample;
        if (data.len() - offset) as u128 != data_bytes {
            return Err(Error::DataLengthMismatch);
        }
        Ok(WaveformData { data, offset })
    }

    /// Returns the number of data points (the `length` field).
    pub fn length(&self) -> (r: u32)
        requires
            self.wf(),
        ensures
            r == length_of(self@),
    {
        read_u32_le(self.data.as_slice(), 16)
    }

    /// Returns the bits per stored sample: 8 when the header flag is nonzero,
    /// else 16.
    pub fn bits(&self) -> (r: i32)
        requires
            self.wf(),
        ensures
            r == bits_of(self@),
    {
        if read_u32_le(self.data.as_slice(), 4) != 0 {
            8
        } else {
            16
        }
    }

    fn version(&self) -> (r: i32)
        requires
            self.wf(),
        ensures
            r == version_of(self@),
    {
        read_i32_le(self.data.as_slice(), 0)
    }

    /// Size of this waveform's header: 24 bytes for version 2, else 20.
    pub(crate) fn header_size(&self) -> (r: usize)
        requires
            self.wf(),
        ensures
            r == header_size_of(self@),
            r <= self@.len(),
    {
        self.offset
    }

    /// Returns the channel count. Version 1 is always 1.
    pub fn channels(&self) -> (r: i32)
        requires
            self.wf(),
        ensures
            r == channels_of(self@),
            r > 0,
    {
        if self.version() == 2 {
            read_i32_le(self.data.as_slice(), 20)
        } else {
            1
        }
    }

    /// Returns the audio samples per second from the header.
    pub fn sample_rate(&self) -> (r: i32)
        requires
            self.wf(),
        ensures
            r == sample_rate_of(self@),
    {
        read_i32_le(self.data.as_slice(), 8)
    }

    /// Returns the audio samples summarized per data point.
    pub fn scale(&self) -> (r: i32)
        requires
            self.wf(),
        ensures
            r == scale_of(self@),
    {
        read_i32_le(self.data.as_slice(), 12)
    }

    /// Reads flat sample slot `index`: the stored sample, or `IndexOutOfRange`
    /// when the slot lies outside the data section (negative, or at or past
    /// the slot count).
    pub(crate) fn at(&self, index: i64) -> (r: Result<i32, Error>)
        requires
            self.wf(),
        ensures
            r == read_slot(self@, index as int),
    {
        proof {
            self.lemma_wf();
        }
        if index < 0 {
            return Err(Error::IndexOutOfRange);
        }
        let n: i128 = self.data.len() as i128;
        let off: i128 = self.offset as i128;
        if read_u32_le(self.data.as_slice(), 4) != 0 {
            let byte: i128 = off + index as i128;
            if byte < 0 || byte >= n {
                return Err(Error::IndexOutOfRange);
            }
            Ok(decode_i8(self.data[byte as usize]))
        } else {
            let byte: i128 = off + index as i128 * 2;
            if byte < 0 || byte + 2 > n {
                return Err(Error::IndexOutOfRange);
            }
            let b: usize = byte as usize;
            Ok(decode_i16(self.data[b], self.data[b + 1]))
        }
    }

    /// Overwrites flat sample slot `index` with `sample`, wrapped to the
    /// stored width.
    pub(crate) fn set_at(&mut self, index: i64, sample: i32)
        requires
            old(self).wf(),
            0 <= index < slot_count_of(old(self)@),
        ensures
            final(self).wf(),
            final(self)@ == store_slot(old(self)@, index as int, sample as int),
    {
        proof {
            lemma_store_slot(self@, index as int, sample as int);
            lemma_slot_readable(self@, index as int);
        }
        let n: usize = self.data.len();
        store_sample(&mut self.data, index as usize, sample as i64);
    }

    /// Builds a waveform from a JSON object, converting it to a version-2
    /// buffer. Fails with `LengthMismatch` when `data` does not hold
    /// `length * 2 * channels` values (a missing or zero `channels` counts as
    /// 1), and with `DataLengthMismatch` when the channel count is negative.
    pub fn from_json(data: &JsonWaveformData) -> (r: Result<WaveformData, Error>)
        requires
            data.data@.len() * 2 + 24 <= usize::MAX,
        ensures
            match r {
                Ok(w) => json_error(*data) is None && w.wf() && is_json_buffer(*data, w@),
                Err(e) => json_error(*data) == Some(e),
            },
    {
        let buffer = match convert_json_to_binary(data) {
            Ok(b) => b,
            Err(e) => return Err(e),
        };
        proof {
            lemma_json_buffer_validity(*data, buffer@);
        }
        WaveformData::from_binary(buffer)
    }

    /// Returns the waveform as a JSON object.
    ///
    /// Always reports `version = 2`; `samples_per_pixel` carries the scale;
    /// `length` is the length field read as `i32`. The `data` array holds the
    /// samples of every enumerated data point, interleaved by data point, then
    /// channel, then `(min, max)`.
    pub fn to_json(&self) -> (j: JsonWaveformData)
        requires
            self.wf(),
        ensures
            is_json_of(self@, j),
    {
        let ghost b = self@;
        let channels: i32 = self.channels();
        let length: u32 = self.length();
        let n: i32 = if length <= 0x7fff_ffff {
            length as i32
        } else {
            0
        };
        let mut data: Vec<i32> = Vec::new();
        let mut i: i32 = 0;
        while i < n
            invariant
                self.wf(),
                b == self@,
                channels == channels_of(b),
                channels > 0,
                n == point_count_of(b),
                0 <= i <= n,
                data@ =~= Seq::new((i * channels * 2) as nat, |k: int| sample(b, k) as i32),
            decreases n - i,
        {
            let mut channel: i32 = 0;
            while channel < channels
                invariant
                    self.wf(),
                    b == self@,
                    channels == channels_of(b),
                    channels > 0,
                    n == point_count_of(b),
                    0 <= i < n,
                    0 <= channel <= channels,
                    data@ =~= Seq::new(
                        ((i * channels + channel) * 2) as nat,
                        |k: int| sample(b, k) as i32,
                    ),
                decreases channels - channel,
            {
                proof {
                    assert(0 <= i * channels) by (nonlinear_arith)
                        requires
                            0 <= i,
                            0 < channels,
                    ;
                    lemma_slot_in_range(length_of(b), channels as int, channel as int, i as int);
                    lemma_slot_readable(b, (i * channels + channel) * 2);
                    lemma_slot_readable(b, (i * channels + channel) * 2 + 1);
                }
                match self.channel(channel) {
                    Ok(reader) => {
                        match reader.min_sample(i) {
                            Ok(v) => data.push(v),
                            Err(_) => {},
                        }
                        match reader.max_sample(i) {
                            Ok(v) => data.push(v),
                            Err(_) => {},
                        }
                    },
                    Err(_) => {},
                }
                channel = channel + 1;
            }
            proof {
                assert((i * channels + channels) * 2 == (i + 1) * channels * 2) by (nonlinear_arith);
            }
            i = i + 1;
        }
        JsonWaveformData {
            version: Some(2),
            channels: Some(channels),
            sample_rate: self.sample_rate(),
            samples_per_pixel: self.scale(),
            bits: self.bits(),
            length: read_i32_le(self.data.as_slice(), 16),
            data,
        }
    }

    /// Returns the underlying binary buffer as a borrowed slice.
    ///
    /// For a binary input this is the original buffer with its original
    /// header; for a JSON input it is the converted version-2 buffer.
    pub fn as_bytes(&self) -> (r: &[u8])
        ensures
            r@ == self@,
    {
        self.data.as_slice()
    }

    /// Returns a copy of the underlying binary buffer.
    pub fn to_array_buffer(&self) -> (r: Vec<u8>)
        ensures
            r@ == self@,
    {
        let mut out: Vec<u8> = Vec::with_capacity(self.data.len());
        let n: usize = self.data.len();
        let mut i: usize = 0;
        while i < n
            invariant
                n == self.data@.len(),
                i <= n,
                out@ == self.data@.take(i as int),
            decreases n - i,
        {
            out.push(self.data[i]);
            i = i + 1;
            assert(out@ =~= self.data@.take(i as int));
        }
        assert(self.data@.take(n as int) =~= self.data@);
        out
    }
}

} // verus!
