//! Per-channel sample access.
use vstd::prelude::*;
use crate::error::Error;
use crate::layout::{
    channel_maxs, channel_mins, channels_of, header_size_of, length_of, lemma_slot_in_range,
    max_slot, min_slot, point_count_of, read_slot, sample, slot_byte, slot_count_of,
    store_slot, bytes_per_sample_of,
};
use crate::waveform::WaveformData;

verus! {

/// Read the `(min, max)` samples of a single channel.
///
/// Get one with [`WaveformData::channel`]. Index positions run from 0 to
/// `length - 1`. Indexing at or beyond `length` returns `IndexOutOfRange`.
#[derive(Debug)]
pub struct WaveformDataChannel<'a> {
    waveform: &'a WaveformData,
    channel_index: i32,
}

/// The flat slot index `(index * channels + channel) * 2 + extra`, computed
/// without overflow for any `i32` index and a channel below the count.
fn slot_of(index: i32, channels: i32, channel: i32, extra: i64) -> (r: i64)
    requires
        0 <= channel < channels,
        0 <= extra <= 1,
    ensures
        r == (index * channels + channel) * 2 + extra,
{
    assert(-0x4000_0000_0000_0000 <= index as int * channels as int && index as int
        * channels as int + channels as int <= 0x4000_0000_0000_0000) by (nonlinear_arith)
        requires
            -0x8000_0000 <= index <= 0x7fff_ffff,
            0 < channels <= 0x7fff_ffff,
    ;
    (index as i64 * channels as i64 + channel as i64) * 2 + extra
}

/// In a well-formed waveform, the sample slots of every point and channel are
/// readable.
proof fn lemma_point_readable(b: Seq<u8>, channel: int, index: int)
    requires
        crate::layout::is_valid_waveform(b),
        0 <= channel < channels_of(b),
        0 <= index < length_of(b),
    ensures
        read_slot(b, min_slot(b, channel, index)) == Ok::<i32, Error>(
            sample(b, min_slot(b, channel, index)) as i32,
        ),
        read_slot(b, max_slot(b, channel, index)) == Ok::<i32, Error>(
            sample(b, max_slot(b, channel, index)) as i32,
        ),
{
    lemma_slot_in_range(length_of(b), channels_of(b), channel, index);
    crate::layout::lemma_slot_readable(b, min_slot(b, channel, index));
    crate::layout::lemma_slot_readable(b, max_slot(b, channel, index));
}

impl<'a> WaveformDataChannel<'a> {
    /// The bytes of the waveform this channel reads.
    pub closed spec fn waveform_view(&self) -> Seq<u8> {
        self.waveform@
    }

    /// The channel this reader reads.
    pub closed spec fn index(&self) -> int {
        self.channel_index as int
    }

    /// The waveform is well-formed and the channel is below its channel count.
    pub closed spec fn wf(&self) -> bool {
        &&& self.waveform.wf()
        &&& 0 <= self.channel_index < channels_of(self.waveform@)
    }

    pub(crate) fn new(waveform: &'a WaveformData, channel_index: i32) -> (r: Self)
        requires
            waveform.wf(),
            0 <= channel_index < channels_of(waveform@),
        ensures
            r.wf(),
            r.waveform_view() == waveform@,
            r.index() == channel_index,
    {
        WaveformDataChannel { waveform, channel_index }
    }

    /// Returns the minimum value at `index`, or `IndexOutOfRange` when its
    /// slot falls outside the data section.
    pub fn min_sample(&self, index: i32) -> (r: Result<i32, Error>)
        requires
            self.wf(),
        ensures
            r == read_slot(self.waveform_view(), min_slot(self.waveform_view(), self.index(), index as int)),
    {
        let channels: i32 = self.waveform.channels();
        let slot: i64 = slot_of(index, channels, self.channel_index, 0);
        self.waveform.at(slot)
    }

    /// Returns the maximum value at `index`, or `IndexOutOfRange` when its
    /// slot falls outside the data section.
    pub fn max_sample(&self, index: i32) -> (r: Result<i32, Error>)
        requires
            self.wf(),
        ensures
            r == read_slot(self.waveform_view(), max_slot(self.waveform_view(), self.index(), index as int)),
    {
        let channels: i32 = self.waveform.channels();
        let slot: i64 = slot_of(index, channels, self.channel_index, 1);
        self.waveform.at(slot)
    }

    /// Returns every minimum value, one per data point, in order.
    pub fn min_array(&self) -> (r: Vec<i32>)
        requires
            self.wf(),
        ensures
            r@ == channel_mins(self.waveform_view(), self.index()),
    {
        let ghost b = self.waveform_view();
        let length: u32 = self.waveform.length();
        let n: i32 = if length <= 0x7fff_ffff {
            length as i32
        } else {
            0
        };
        let mut values: Vec<i32> = Vec::new();
        let mut i: i32 = 0;
        while i < n
            invariant
                self.wf(),
                b == self.waveform_view(),
                n == point_count_of(b),
                0 <= i <= n,
                values@ =~= channel_mins(b, self.index()).take(i as int),
            decreases n - i,
        {
            proof {
                self.waveform.lemma_wf();
                lemma_point_readable(b, self.index(), i as int);
            }
            let v = self.min_sample(i);
            match v {
                Ok(x) => values.push(x),
                Err(_) => {},
            }
            i = i + 1;
        }
        values
    }

    /// Returns every maximum value, one per data point, in order.
    pub fn max_array(&self) -> (r: Vec<i32>)
        requires
            self.wf(),
        ensures
            r@ == channel_maxs(self.waveform_view(), self.index()),
    {
        let ghost b = self.waveform_view();
        let length: u32 = self.waveform.length();
        let n: i32 = if length <= 0x7fff_ffff {
            length as i32
        } else {
            0
        };
        let mut values: Vec<i32> = Vec::new();
        let mut i: i32 = 0;
        while i < n
            invariant
                self.wf(),
                b == self.waveform_view(),
                n == point_count_of(b),
                0 <= i <= n,
                values@ =~= channel_maxs(b, self.index()).take(i as int),
            decreases n - i,
        {
            proof {
                self.waveform.lemma_wf();
                lemma_point_readable(b, self.index(), i as int);
            }
            let v = self.max_sample(i);
            match v {
                Ok(x) => values.push(x),
                Err(_) => {},
            }
            i = i + 1;
        }
        values
    }
}

/// Writes the `(min, max)` samples of a single channel.
///
/// Get one with [`WaveformData::channel_mut`]. Held separately from
/// [`WaveformDataChannel`] because writing borrows the waveform mutably.
#[derive(Debug)]
pub struct WaveformDataChannelMut<'a> {
    waveform: &'a mut WaveformData,
    channels: i32,
    channel_index: i32,
}

impl<'a> WaveformDataChannelMut<'a> {
    /// The waveform as this writer currently holds it.
    pub closed spec fn current(&self) -> WaveformData {
        *self.waveform
    }

    /// The borrow of the waveform this writer writes through.
    pub closed spec fn target(&self) -> &'a mut WaveformData {
        self.waveform
    }

    /// The channel this writer writes.
    pub closed spec fn index(&self) -> int {
        self.channel_index as int
    }

    /// The writer addresses a channel of its waveform and knows its channel
    /// count.
    pub closed spec fn wf(&self) -> bool {
        &&& self.waveform.wf()
        &&& self.channels == channels_of(self.waveform@)
        &&& 0 <= self.channel_index < self.channels
    }

    /// A well-formed writer holds a well-formed waveform and addresses one of
    /// its channels.
    pub proof fn lemma_wf(&self)
        requires
            self.wf(),
        ensures
            self.current().wf(),
            0 <= self.index() < channels_of(self.current()@),
    {
    }

    /// Once the writer is no longer used, the waveform it wrote through holds
    /// exactly what the writer last held.
    pub proof fn lemma_resolved(&self)
        requires
            has_resolved(*self),
        ensures
            *final(self.target()) == self.current(),
    {
    }

    fn new(waveform: &'a mut WaveformData, channels: i32, channel_index: i32) -> (r: Self)
        requires
            old(waveform).wf(),
            channels == channels_of(old(waveform)@),
            0 <= channel_index < channels,
        ensures
            r.wf(),
            r.index() == channel_index,
            r.current() == *old(waveform),
            *final(r.target()) == *final(waveform),
    {
        WaveformDataChannelMut { waveform, channels, channel_index }
    }

    /// Sets the minimum value at data point `index`. Values wrap into the
    /// sample width.
    pub fn set_min_sample(&mut self, index: i32, sample: i32)
        requires
            old(self).wf(),
            0 <= index < length_of(old(self).current()@),
        ensures
            final(self).wf(),
            final(self).index() == old(self).index(),
            final(self).current()@ == store_slot(
                old(self).current()@,
                min_slot(old(self).current()@, old(self).index(), index as int),
                sample as int,
            ),
            *final(final(self).target()) == *final(old(self).target()),
    {
        let slot: i64 = slot_of(index, self.channels, self.channel_index, 0);
        proof {
            self.waveform.lemma_wf();
            lemma_slot_in_range(
                length_of(self.waveform@),
                self.channels as int,
                self.channel_index as int,
                index as int,
            );
            crate::layout::lemma_store_slot(
                self.waveform@,
                (index * self.channels + self.channel_index) * 2,
                sample as int,
            );
        }
        self.waveform.set_at(slot, sample);
    }

    /// Sets the maximum value at data point `index`. Values wrap into the
    /// sample width.
    pub fn set_max_sample(&mut self, index: i32, sample: i32)
        requires
            old(self).wf(),
            0 <= index < length_of(old(self).current()@),
        ensures
            final(self).wf(),
            final(self).index() == old(self).index(),
            final(self).current()@ == store_slot(
                old(self).current()@,
                max_slot(old(self).current()@, old(self).index(), index as int),
                sample as int,
            ),
            *final(final(self).target()) == *final(old(self).target()),
    {
        let slot: i64 = slot_of(index, self.channels, self.channel_index, 1);
        proof {
            self.waveform.lemma_wf();
            lemma_slot_in_range(
                length_of(self.waveform@),
                self.channels as int,
                self.channel_index as int,
                index as int,
            );
            crate::layout::lemma_store_slot(
                self.waveform@,
                (index * self.channels + self.channel_index) * 2 + 1,
                sample as int,
            );
        }
        self.waveform.set_at(slot, sample);
    }
}

impl WaveformData {
    /// Returns a reader for channel `index`, or `InvalidChannel(index)` when
    /// `index` is negative or at/above the channel count.
    pub fn channel(&self, index: i32) -> (r: Result<WaveformDataChannel<'_>, Error>)
        requires
            self.wf(),
        ensures
            r is Ok <==> 0 <= index < channels_of(self@),
            r matches Ok(c) ==> c.wf() && c.waveform_view() == self@ && c.index() == index,
            r matches Err(e) ==> e == Error::InvalidChannel(index as i64),
    {
        if index >= 0 && index < self.channels() {
            Ok(WaveformDataChannel::new(self, index))
        } else {
            Err(Error::InvalidChannel(index as i64))
        }
    }

    /// Returns a writer for channel `index`, or `InvalidChannel(index)` when
    /// `index` is negative or at/above the channel count.
    pub fn channel_mut(&mut self, index: i32) -> (r: Result<WaveformDataChannelMut<'_>, Error>)
        requires
            old(self).wf(),
        ensures
            r is Ok <==> 0 <= index < channels_of(old(self)@),
            r matches Ok(c) ==> {
                &&& c.wf()
                &&& c.index() == index
                &&& c.current() == *old(self)
                &&& *final(c.target()) == *final(self)
            },
            r matches Err(e) ==> e == Error::InvalidChannel(index as i64) && *final(self) == *old(
                self,
            ),
    {
        let channels: i32 = self.channels();
        if index >= 0 && index < channels {
            Ok(WaveformDataChannelMut::new(self, channels, index))
        } else {
            Err(Error::InvalidChannel(index as i64))
        }
    }
}

} // verus!

