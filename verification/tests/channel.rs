#![allow(dead_code)]
//! Channel access: arrays, indexed samples, range errors, direct setters.

use waveform_data::{Error, JsonWaveformData, WaveformData};

#[derive(Clone, Copy, Debug)]
enum Format {
    Json,
    Binary,
}

fn sample_data(channels: i32) -> Vec<i32> {
    if channels == 1 {
        vec![0, 0, -10, 10, 0, 0, -5, 7, -5, 7, 0, 0, 0, 0, 0, 0, 0, 0, -2, 2]
    } else {
        vec![
            0, 0, 0, 0, -10, 10, -8, 8, 0, 0, -2, 2, -5, 7, -6, 3, -5, 7, -6, 3, 0, 0, 0, 0, 0, 0,
            0, 0, 0, 0, 0, 0, 0, 0, 0, 0, -2, 2, -3, 3,
        ]
    }
}

fn json_data(channels: i32, bits: i32) -> JsonWaveformData {
    let data = sample_data(channels);
    if channels == 1 {
        JsonWaveformData {
            version: None,
            channels: None,
            sample_rate: 48000,
            samples_per_pixel: 512,
            bits,
            length: 10,
            data,
        }
    } else {
        JsonWaveformData {
            version: Some(2),
            channels: Some(channels),
            sample_rate: 48000,
            samples_per_pixel: 512,
            bits,
            length: 10,
            data,
        }
    }
}

fn binary_data(channels: i32, bits: i32, version_override: Option<i32>) -> Vec<u8> {
    let data = sample_data(channels);
    let version = version_override.unwrap_or(if channels == 1 { 1 } else { 2 });
    let header_size = if version == 2 { 24usize } else { 20 };
    let eight_bit = bits == 8;
    let bytes_per_sample = if eight_bit { 1usize } else { 2 };
    let total = header_size + data.len() * bytes_per_sample;
    let mut buffer = vec![0u8; total];
    put_i32(&mut buffer, 0, version);
    put_u32(&mut buffer, 4, if eight_bit { 1 } else { 0 });
    put_i32(&mut buffer, 8, 48000);
    put_i32(&mut buffer, 12, 512);
    put_u32(&mut buffer, 16, (data.len() / (2 * channels as usize)) as u32);
    if version == 2 {
        put_i32(&mut buffer, 20, channels);
    }
    let mut index = header_size;
    if eight_bit {
        for &value in &data {
            buffer[index] = value as i8 as u8;
            index += 1;
        }
    } else {
        for &value in &data {
            let bytes = (value as i16).to_le_bytes();
            buffer[index] = bytes[0];
            buffer[index + 1] = bytes[1];
            index += 2;
        }
    }
    buffer
}

fn make_data(format: Format, channels: i32, bits: i32) -> WaveformData {
    match format {
        Format::Json => WaveformData::from_json(&json_data(channels, bits)).unwrap(),
        Format::Binary => WaveformData::from_binary(binary_data(channels, bits, None)).unwrap(),
    }
}

fn put_i32(buffer: &mut [u8], offset: usize, value: i32) {
    buffer[offset..offset + 4].copy_from_slice(&value.to_le_bytes());
}

fn put_u32(buffer: &mut [u8], offset: usize, value: u32) {
    buffer[offset..offset + 4].copy_from_slice(&value.to_le_bytes());
}

const FORMATS: [Format; 2] = [Format::Binary, Format::Json];
const BITS: [i32; 2] = [8, 16];

#[test]
fn single_channel_arrays() {
    for format in FORMATS {
        for bits in BITS {
            let wf = make_data(format, 1, bits);
            assert_eq!(
                wf.channel(0).unwrap().min_array(),
                vec![0, -10, 0, -5, -5, 0, 0, 0, 0, -2]
            );
            assert_eq!(
                wf.channel(0).unwrap().max_array(),
                vec![0, 10, 0, 7, 7, 0, 0, 0, 0, 2]
            );
        }
    }
}

#[test]
fn single_channel_indexed_samples() {
    for format in FORMATS {
        for bits in BITS {
            let wf = make_data(format, 1, bits);
            let ch = wf.channel(0).unwrap();
            assert_eq!(ch.min_sample(0).unwrap(), 0);
            assert_eq!(ch.min_sample(4).unwrap(), -5);
            assert_eq!(ch.min_sample(9).unwrap(), -2);
            assert_eq!(ch.max_sample(0).unwrap(), 0);
            assert_eq!(ch.max_sample(4).unwrap(), 7);
            assert_eq!(ch.max_sample(9).unwrap(), 2);
        }
    }
}

#[test]
fn single_channel_out_of_range() {
    for format in FORMATS {
        for bits in BITS {
            let wf = make_data(format, 1, bits);
            let ch = wf.channel(0).unwrap();
            assert_eq!(ch.min_sample(10).unwrap_err(), Error::IndexOutOfRange);
            assert_eq!(ch.max_sample(10).unwrap_err(), Error::IndexOutOfRange);
        }
    }
}

#[test]
fn single_channel_invalid_channel() {
    for format in FORMATS {
        for bits in BITS {
            let wf = make_data(format, 1, bits);
            assert!(wf.channel(0).is_ok());
            assert_eq!(wf.channel(1).unwrap_err(), Error::InvalidChannel(1));
            assert_eq!(wf.channel(-1).unwrap_err(), Error::InvalidChannel(-1));
        }
    }
}

#[test]
fn two_channel_arrays() {
    for format in FORMATS {
        for bits in BITS {
            let wf = make_data(format, 2, bits);
            assert_eq!(
                wf.channel(0).unwrap().min_array(),
                vec![0, -10, 0, -5, -5, 0, 0, 0, 0, -2]
            );
            assert_eq!(
                wf.channel(0).unwrap().max_array(),
                vec![0, 10, 0, 7, 7, 0, 0, 0, 0, 2]
            );
            assert_eq!(
                wf.channel(1).unwrap().min_array(),
                vec![0, -8, -2, -6, -6, 0, 0, 0, 0, -3]
            );
            assert_eq!(
                wf.channel(1).unwrap().max_array(),
                vec![0, 8, 2, 3, 3, 0, 0, 0, 0, 3]
            );
        }
    }
}

#[test]
fn two_channel_invalid_channel() {
    for format in FORMATS {
        for bits in BITS {
            let wf = make_data(format, 2, bits);
            assert!(wf.channel(0).is_ok());
            assert!(wf.channel(1).is_ok());
            assert_eq!(wf.channel(2).unwrap_err(), Error::InvalidChannel(2));
            assert_eq!(wf.channel(-1).unwrap_err(), Error::InvalidChannel(-1));
        }
    }
}

#[test]
fn two_channel_out_of_range() {
    for format in FORMATS {
        for bits in BITS {
            let wf = make_data(format, 2, bits);
            assert_eq!(
                wf.channel(0).unwrap().min_sample(10).unwrap_err(),
                Error::IndexOutOfRange
            );
            assert_eq!(
                wf.channel(1).unwrap().max_sample(10).unwrap_err(),
                Error::IndexOutOfRange
            );
        }
    }
}

#[test]
fn direct_setters_round_trip() {
    for bits in BITS {
        let mut wf = make_data(Format::Binary, 2, bits);
        {
            let mut ch = wf.channel_mut(1).unwrap();
            ch.set_min_sample(3, -42);
            ch.set_max_sample(3, 41);
        }
        let ch = wf.channel(1).unwrap();
        assert_eq!(ch.min_sample(3).unwrap(), -42);
        assert_eq!(ch.max_sample(3).unwrap(), 41);
        // The neighbour channel is untouched.
        assert_eq!(wf.channel(0).unwrap().min_sample(3).unwrap(), -5);
    }
}

#[test]
fn invalid_channel_mut() {
    let mut wf = make_data(Format::Binary, 1, 8);
    assert_eq!(wf.channel_mut(1).unwrap_err(), Error::InvalidChannel(1));
}
