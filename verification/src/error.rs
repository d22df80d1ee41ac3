//! Error type for waveform parsing and manipulation.
use vstd::prelude::*;

verus! {

/// Errors returned when parsing, accessing, or transforming waveform data.
#[derive(Debug, Clone, PartialEq, Eq, Structural)]
pub enum Error {
    /// Input was neither JSON waveform data nor a binary waveform buffer.
    UnknownDataFormat,
    /// Binary header carried a version other than 1 or 2.
    UnsupportedVersion,
    /// JSON `data` length did not match `length * 2 * channels`.
    LengthMismatch,
    /// Binary `length` and channel fields disagree with the bytes after the header.
    DataLengthMismatch,
    /// Channel index was negative or at/above the channel count.
    InvalidChannel(i64),
    /// Sample index fell outside the stored data section.
    IndexOutOfRange,
    /// `resample` got a `width` that was not a positive value.
    InvalidWidth,
    /// `resample` got a `scale` that was not a positive value.
    InvalidScale,
    /// `resample` got neither a `width` nor a `scale`.
    MissingResampleOption,
    /// `resample` target scale was below the source scale.
    ZoomTooLow {
        /// Requested target scale.
        target: i64,
        /// Source scale, the minimum allowed.
        minimum: i32,
    },
    /// Negative `startIndex` or `startTime` passed to `slice`.
    NegativeStart,
    /// Negative `endIndex` or `endTime` passed to `slice`.
    NegativeEnd,
    /// `concat` operands disagreed on channels, sample rate, bits, or scale.
    IncompatibleWaveforms,
}

/// The character of a decimal digit `d < 10`.
pub open spec fn digit_char(d: int) -> char {
    (48 + d) as char
}

/// The decimal digits of a natural number, most significant first.
pub open spec fn digits(n: nat) -> Seq<char>
    decreases n,
{
    if n < 10 {
        seq![digit_char(n as int)]
    } else {
        digits(n / 10) + seq![digit_char(n as int % 10)]
    }
}

/// The decimal representation of an integer, with a leading `-` when negative.
pub open spec fn decimal(n: int) -> Seq<char> {
    if n < 0 {
        seq!['-'] + digits((-n) as nat)
    } else {
        digits(n as nat)
    }
}

/// The one-character string of decimal digit `d`.
fn digit_str(d: u64) -> (s: &'static str)
    requires
        d < 10,
    ensures
        s@ == seq![digit_char(d as int)],
{
    proof {
        reveal_strlit("0");
        reveal_strlit("1");
        reveal_strlit("2");
        reveal_strlit("3");
        reveal_strlit("4");
        reveal_strlit("5");
        reveal_strlit("6");
        reveal_strlit("7");
        reveal_strlit("8");
        reveal_strlit("9");
    }
    if d == 0 {
        "0"
    } else if d == 1 {
        "1"
    } else if d == 2 {
        "2"
    } else if d == 3 {
        "3"
    } else if d == 4 {
        "4"
    } else if d == 5 {
        "5"
    } else if d == 6 {
        "6"
    } else if d == 7 {
        "7"
    } else if d == 8 {
        "8"
    } else {
        "9"
    }
}

/// Appends the decimal digits of `m` to `out`.
fn append_digits(out: &mut String, m: u64)
    ensures
        final(out)@ == old(out)@ + digits(m as nat),
    decreases m,
{
    if m >= 10 {
        append_digits(out, m / 10);
    }
    out.append(digit_str(m % 10));
    proof {
        if m >= 10 {
            assert(digits(m as nat) == digits((m / 10) as nat) + seq![digit_char(m as int % 10)]);
        }
    }
}

/// The decimal representation of `n`: a leading `-` when negative, then its
/// digits without leading zeros.
fn decimal_string(n: i64) -> (s: String)
    ensures
        s@ == decimal(n as int),
{
    let mut s = String::new();
    if n < 0 {
        proof {
            reveal_strlit("-");
        }
        s.append("-");
        let m: u64 = (0i128 - n as i128) as u64;
        append_digits(&mut s, m);
    } else {
        append_digits(&mut s, n as u64);
    }
    s
}

/// The message text of each error.
pub open spec fn error_message(e: Error) -> Seq<char> {
    match e {
        Error::UnknownDataFormat => "WaveformData.create(): Unknown data format"@,
        Error::UnsupportedVersion => "WaveformData.create(): This waveform data version not supported"@,
        Error::LengthMismatch => "WaveformData.create(): Length mismatch in JSON waveform data"@,
        Error::DataLengthMismatch => "WaveformData.create(): Length mismatch in binary waveform data"@,
        Error::InvalidChannel(index) => "Invalid channel: "@ + decimal(index as int),
        Error::IndexOutOfRange => "Index out of range"@,
        Error::InvalidWidth => "WaveformData.resample(): width should be a positive integer value"@,
        Error::InvalidScale => "WaveformData.resample(): scale should be a positive integer value"@,
        Error::MissingResampleOption => "WaveformData.resample(): Missing scale or width option"@,
        Error::ZoomTooLow { target, minimum } => "WaveformData.resample(): Zoom level "@ + decimal(
            target as int,
        ) + " too low, minimum: "@ + decimal(minimum as int),
        Error::NegativeStart => "startIndex or startTime must not be negative"@,
        Error::NegativeEnd => "endIndex or endTime must not be negative"@,
        Error::IncompatibleWaveforms => "WaveformData.concat(): Waveforms are incompatible"@,
    }
}

impl Error {
    /// Returns the message text that the operation reports for this error.
    pub fn message(&self) -> (s: String)
        ensures
            s@ == error_message(*self),
    {
        match self {
            Error::UnknownDataFormat => String::from_str("WaveformData.create(): Unknown data format"),
            Error::UnsupportedVersion => String::from_str(
                "WaveformData.create(): This waveform data version not supported",
            ),
            Error::LengthMismatch => String::from_str(
                "WaveformData.create(): Length mismatch in JSON waveform data",
            ),
            Error::DataLengthMismatch => String::from_str(
                "WaveformData.create(): Length mismatch in binary waveform data",
            ),
            Error::InvalidChannel(index) => {
                let mut s = String::from_str("Invalid channel: ");
                let d = decimal_string(*index);
                s.append(d.as_str());
                s
            },
            Error::IndexOutOfRange => String::from_str("Index out of range"),
            Error::InvalidWidth => String::from_str(
                "WaveformData.resample(): width should be a positive integer value",
            ),
            Error::InvalidScale => String::from_str(
                "WaveformData.resample(): scale should be a positive integer value",
            ),
            Error::MissingResampleOption => String::from_str(
                "WaveformData.resample(): Missing scale or width option",
            ),
            Error::ZoomTooLow { target, minimum } => {
                let mut s = String::from_str("WaveformData.resample(): Zoom level ");
                let t = decimal_string(*target);
                s.append(t.as_str());
                s.append(" too low, minimum: ");
                let m = decimal_string(*minimum as i64);
                s.append(m.as_str());
                s
            },
            Error::NegativeStart => String::from_str("startIndex or startTime must not be negative"),
            Error::NegativeEnd => String::from_str("endIndex or endTime must not be negative"),
            Error::IncompatibleWaveforms => String::from_str(
                "WaveformData.concat(): Waveforms are incompatible",
            ),
        }
    }
}

} // verus!
