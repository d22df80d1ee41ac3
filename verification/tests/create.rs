#![allow(dead_code)]
//! Format detection and construction.

use waveform_data::{Error, JsonWaveformData, WaveformData};

#[derive(Clone, Copy, Debug)]
enum Format {
    Json,
    Binary,
}

fn sample_data(channels: i32) -> Vec<i32> {
    if channels == 1 {
        vec![0, 0, -10, 10, 0, 0, -5, 7, -5, 7, 0, 0, 0, 0, 0, 0, 0, 0, -2, 2]
    } else {
        vec![
            0, 0, 0, 0, -10, 10, -8, 8, 0, 0, -2, 2, -5, 7, -6, 3, -5, 7, -6, 3, 0, 0, 0, 0, 0, 0,
            0, 0, 0, 0, 0, 0, 0, 0, 0, 0, -2, 2, -3, 3,
        ]
    }
}

fn json_data(channels: i32, bits: i32) -> JsonWaveformData {
    let data = sample_data(channels);
    if channels == 1 {
        JsonWaveformData {
            version: None,
            channels: None,
            sample_rate: 48000,
            samples_per_pixel: 512,
            bits,
            length: 10,
            data,
        }
    } else {
        JsonWaveformData {
            version: Some(2),
            channels: Some(channels),
            sample_rate: 48000,
            samples_per_pixel: 512,
            bits,
            length: 10,
            data,
        }
    }
}

fn binary_data(channels: i32, bits: i32, version_override: Option<i32>) -> Vec<u8> {
    let data = sample_data(channels);
    let version = version_override.unwrap_or(if channels == 1 { 1 } else { 2 });
    let header_size = if version == 2 { 24usize } else { 20 };
    let eight_bit = bits == 8;
    let bytes_per_sample = if eight_bit { 1usize } else { 2 };
    let total = header_size + data.len() * bytes_per_sample;
    let mut buffer = vec![0u8; total];
    put_i32(&mut buffer, 0, version);
    put_u32(&mut buffer, 4, if eight_bit { 1 } else { 0 });
    put_i32(&mut buffer, 8, 48000);
    put_i32(&mut buffer, 12, 512);
    put_u32(&mut buffer, 16, (data.len() / (2 * channels as usize)) as u32);
    if version == 2 {
        put_i32(&mut buffer, 20, channels);
    }
    let mut index = header_size;
    if eight_bit {
        for &value in &data {
            buffer[index] = value as i8 as u8;
            index += 1;
        }
    } else {
        for &value in &data {
            let bytes = (value as i16).to_le_bytes();
            buffer[index] = bytes[0];
            buffer[index + 1] = bytes[1];
            index += 2;
        }
    }
    buffer
}

fn make_data(format: Format, channels: i32, bits: i32) -> WaveformData {
    match format {
        Format::Json => WaveformData::from_json(&json_data(channels, bits)).unwrap(),
        Format::Binary => WaveformData::from_binary(binary_data(channels, bits, None)).unwrap(),
    }
}

fn put_i32(buffer: &mut [u8], offset: usize, value: i32) {
    buffer[offset..offset + 4].copy_from_slice(&value.to_le_bytes());
}

fn put_u32(buffer: &mut [u8], offset: usize, value: u32) {
    buffer[offset..offset + 4].copy_from_slice(&value.to_le_bytes());
}

#[test]
fn rejects_short_binary_as_unknown_format() {
    // An empty or sub-header buffer has no version field.
    assert_eq!(
        WaveformData::from_binary(Vec::new()).unwrap_err(),
        Error::UnknownDataFormat
    );
    assert_eq!(
        WaveformData::from_binary(vec![0u8, 0, 0]).unwrap_err(),
        Error::UnknownDataFormat
    );
}

#[test]
fn creates_from_json_object() {
    let data = json_data(1, 8);
    let waveform = WaveformData::from_json(&data).unwrap();
    assert_eq!(waveform.length(), 10);
}

#[test]
fn creates_from_binary_buffer() {
    let data = binary_data(2, 8, None);
    let waveform = WaveformData::from_binary(data).unwrap();
    assert_eq!(waveform.channels(), 2);
}

#[test]
fn rejects_unknown_version() {
    let data = binary_data(1, 8, Some(3));
    assert_eq!(
        WaveformData::from_binary(data).unwrap_err(),
        Error::UnsupportedVersion
    );
}

#[test]
fn unsupported_version_message() {
    for version in [0, 3, 99] {
        let data = binary_data(1, 8, Some(version));
        let err = WaveformData::from_binary(data).unwrap_err();
        assert_eq!(
            err.message(),
            "WaveformData.create(): This waveform data version not supported"
        );
    }
}

#[test]
fn json_length_mismatch() {
    let mut data = json_data(1, 8);
    data.data.pop();
    assert_eq!(
        WaveformData::from_json(&data).unwrap_err(),
        Error::LengthMismatch
    );
}

#[test]
fn json_channels_defaults_to_one() {
    // Missing channels means a single channel of 20 interleaved values.
    let mut data = json_data(1, 8);
    data.channels = None;
    let waveform = WaveformData::from_json(&data).unwrap();
    assert_eq!(waveform.channels(), 1);

    data.channels = Some(0);
    let waveform = WaveformData::from_json(&data).unwrap();
    assert_eq!(waveform.channels(), 1);
}
