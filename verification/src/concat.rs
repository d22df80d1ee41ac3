//! Concatenation of compatible waveforms.
use vstd::prelude::*;
use crate::bytes::{put_u32, write_u32_le};
use crate::error::Error;
use crate::layout::{
    binary_error, bits_of, channels_of, header_size_of, length_of, sample_rate_of, scale_of,
};
use crate::waveform::WaveformData;

verus! {

/// Two waveforms agree on channel count, sample rate, bit width, and scale.
pub open spec fn compatible(a: Seq<u8>, b: Seq<u8>) -> bool {
    &&& channels_of(a) == channels_of(b)
    &&& sample_rate_of(a) == sample_rate_of(b)
    &&& bits_of(a) == bits_of(b)
    &&& scale_of(a) == scale_of(b)
}

/// The buffers' data sections (the bytes after each buffer's own header),
/// one after another.
pub open spec fn data_sections(bufs: Seq<Seq<u8>>) -> Seq<u8>
    decreases bufs.len(),
{
    if bufs.len() == 0 {
        Seq::empty()
    } else {
        data_sections(bufs.drop_last()) + bufs.last().skip(header_size_of(bufs.last()))
    }
}

/// Sum of the buffers' length fields.
pub open spec fn length_total(bufs: Seq<Seq<u8>>) -> int
    decreases bufs.len(),
{
    if bufs.len() == 0 {
        0
    } else {
        length_total(bufs.drop_last()) + length_of(bufs.last())
    }
}

/// The error, if any, that concatenating `others` onto `first` reports before
/// the result is validated: an operand that disagrees with `first`.
pub open spec fn concat_error(first: Seq<u8>, others: Seq<Seq<u8>>) -> Option<Error> {
    if exists|i: int| 0 <= i < others.len() && !compatible(first, #[trigger] others[i]) {
        Some(Error::IncompatibleWaveforms)
    } else {
        None
    }
}

#[verifier::opaque]
/// The concatenated buffer: `first`'s header with the length field set to
/// the sum of all length fields (modulo 2^32), followed by the data section
/// of `first` and then of every operand.
pub open spec fn concat_buffer(first: Seq<u8>, others: Seq<Seq<u8>>) -> Seq<u8> {
    let all = seq![first] + others;
    put_u32(
        first.take(header_size_of(first)) + data_sections(all),
        16,
        (length_total(all) % 0x1_0000_0000) as u32,
    )
}

/// The views of the operands.
pub open spec fn operand_views(others: Seq<&WaveformData>) -> Seq<Seq<u8>> {
    Seq::new(others.len(), |i: int| others[i]@)
}

/// Appends `buffer[from..]` to `out`.
fn append_from(out: &mut Vec<u8>, buffer: &[u8], from: usize)
    requires
        from <= buffer@.len(),
    ensures
        final(out)@ == old(out)@ + buffer@.skip(from as int),
{
    let ghost before = out@;
    let mut j: usize = from;
    while j < buffer.len()
        invariant
            from <= j <= buffer@.len(),
            out@ =~= before + buffer@.subrange(from as int, j as int),
        decreases buffer@.len() - j,
    {
        out.push(buffer[j]);
        j = j + 1;
    }
    assert(buffer@.subrange(from as int, buffer@.len() as int) =~= buffer@.skip(from as int));
}

impl WaveformData {
    /// Whether `other` has this waveform's channels, sample rate, bits, and
    /// scale.
    fn compatible_with(&self, other: &WaveformData) -> (r: bool)
        requires
            self.wf(),
            other.wf(),
        ensures
            r == compatible(self@, other@),
    {
        self.channels() == other.channels() && self.sample_rate() == other.sample_rate()
            && self.bits() == other.bits() && self.scale() == other.scale()
    }

    /// Concatenates waveforms onto this one.
    ///
    /// Every operand must match this waveform's channels, sample rate, bits,
    /// and scale, else `IncompatibleWaveforms`. The result copies this
    /// waveform's header, sums the lengths, and appends this waveform's data
    /// section and then each operand's; it is then validated like any binary
    /// input.
    pub fn concat(&self, others: &[&WaveformData]) -> (r: Result<WaveformData, Error>)
        requires
            self.wf(),
            forall|i: int| 0 <= i < others@.len() ==> (#[trigger] others@[i]).wf(),
        ensures
            match r {
                Ok(w) => concat_error(self@, operand_views(others@)) is None && binary_error(
                    concat_buffer(self@, operand_views(others@)),
                ) is None && w@ == concat_buffer(self@, operand_views(others@)) && w.wf(),
                Err(e) => concat_error(self@, operand_views(others@)) == Some(e) || (concat_error(
                    self@,
                    operand_views(others@),
                ) is None && binary_error(concat_buffer(self@, operand_views(others@))) == Some(
                    e,
                )),
            },
    {
        let ghost views = operand_views(others@);
        let ghost first = self@;
        let mut i: usize = 0;
        while i < others.len()
            invariant
                self.wf(),
                first == self@,
                views == operand_views(others@),
                forall|k: int| 0 <= k < others@.len() ==> (#[trigger] others@[k]).wf(),
                i <= others@.len(),
                forall|k: int| 0 <= k < i ==> compatible(first, #[trigger] views[k]),
            decreases others@.len() - i,
        {
            let other: &WaveformData = others[i];
            if !self.compatible_with(other) {
                proof {
                    assert(!compatible(first, views[i as int]));
                }
                return Err(Error::IncompatibleWaveforms);
            }
            i = i + 1;
        }
        let ghost all = seq![first] + views;
        let header_size: usize = self.header_size();
        let bytes: &[u8] = self.as_bytes();
        // The receiver's header, then its own data section.
        let mut out: Vec<u8> = Vec::new();
        let mut j: usize = 0;
        while j < header_size
            invariant
                bytes@ == first,
                header_size == header_size_of(first),
                header_size <= first.len(),
                j <= header_size,
                out@ =~= first.take(j as int),
            decreases header_size - j,
        {
            out.push(bytes[j]);
            j = j + 1;
        }
        append_from(&mut out, bytes, header_size);
        let mut total: u64 = self.length() as u64;
        proof {
            reveal_with_fuel(data_sections, 2);
            reveal_with_fuel(length_total, 2);
            assert(all.take(1).drop_last() =~= Seq::<Seq<u8>>::empty());
            assert(all.take(1).last() == first);
            assert(out@ =~= first.take(header_size as int) + data_sections(all.take(1)));
            vstd::arithmetic::div_mod::lemma_small_mod(total as nat, 0x1_0000_0000);
        }
        // Each operand's data section, after its own header.
        let mut k: usize = 0;
        while k < others.len()
            invariant
                first == self@,
                views == operand_views(others@),
                all == seq![first] + views,
                header_size == header_size_of(first),
                forall|m: int| 0 <= m < others@.len() ==> (#[trigger] others@[m]).wf(),
                k <= others@.len(),
                out@ =~= first.take(header_size as int) + data_sections(all.take(k + 1)),
                total == length_total(all.take(k + 1)) % 0x1_0000_0000,
            decreases others@.len() - k,
        {
            let other: &WaveformData = others[k];
            let hs: usize = other.header_size();
            let len: u32 = other.length();
            proof {
                assert(other@ == views[k as int]);
                assert(all[k + 1] == views[k as int]);
                assert(all.take(k + 2).drop_last() =~= all.take(k + 1));
                vstd::arithmetic::div_mod::lemma_add_mod_noop(
                    length_total(all.take(k + 1)),
                    len as int,
                    0x1_0000_0000,
                );
                vstd::arithmetic::div_mod::lemma_small_mod(len as nat, 0x1_0000_0000);
            }
            append_from(&mut out, other.as_bytes(), hs);
            total = (total + len as u64) % 0x1_0000_0000;
            k = k + 1;
        }
        proof {
            assert(all.take(others@.len() + 1int) =~= all);
            reveal(concat_buffer);
        }
        write_u32_le(&mut out, 16, total as u32);
        WaveformData::from_binary(out)
    }
}

} // verus!
