#![allow(dead_code)]
//! Concatenation: same format, cross format, multiple, incompatible.

use waveform_data::{Error, JsonWaveformData, WaveformData};

#[derive(Clone, Copy, Debug)]
enum Format {
    Json,
    Binary,
}

fn sample_data(channels: i32) -> Vec<i32> {
    if channels == 1 {
        vec![0, 0, -10, 10, 0, 0, -5, 7, -5, 7, 0, 0, 0, 0, 0, 0, 0, 0, -2, 2]
    } else {
        vec![
            0, 0, 0, 0, -10, 10, -8, 8, 0, 0, -2, 2, -5, 7, -6, 3, -5, 7, -6, 3, 0, 0, 0, 0, 0, 0,
            0, 0, 0, 0, 0, 0, 0, 0, 0, 0, -2, 2, -3, 3,
        ]
    }
}

fn json_data(channels: i32, bits: i32) -> JsonWaveformData {
    let data = sample_data(channels);
    if channels == 1 {
        JsonWaveformData {
            version: None,
            channels: None,
            sample_rate: 48000,
            samples_per_pixel: 512,
            bits,
            length: 10,
            data,
        }
    } else {
        JsonWaveformData {
            version: Some(2),
            channels: Some(channels),
            sample_rate: 48000,
            samples_per_pixel: 512,
            bits,
            length: 10,
            data,
        }
    }
}

fn binary_data(channels: i32, bits: i32, version_override: Option<i32>) -> Vec<u8> {
    let data = sample_data(channels);
    let version = version_override.unwrap_or(if channels == 1 { 1 } else { 2 });
    let header_size = if version == 2 { 24usize } else { 20 };
    let eight_bit = bits == 8;
    let bytes_per_sample = if eight_bit { 1usize } else { 2 };
    let total = header_size + data.len() * bytes_per_sample;
    let mut buffer = vec![0u8; total];
    put_i32(&mut buffer, 0, version);
    put_u32(&mut buffer, 4, if eight_bit { 1 } else { 0 });
    put_i32(&mut buffer, 8, 48000);
    put_i32(&mut buffer, 12, 512);
    put_u32(&mut buffer, 16, (data.len() / (2 * channels as usize)) as u32);
    if version == 2 {
        put_i32(&mut buffer, 20, channels);
    }
    let mut index = header_size;
    if eight_bit {
        for &value in &data {
            buffer[index] = value as i8 as u8;
            index += 1;
        }
    } else {
        for &value in &data {
            let bytes = (value as i16).to_le_bytes();
            buffer[index] = bytes[0];
            buffer[index + 1] = bytes[1];
            index += 2;
        }
    }
    buffer
}

fn make_data(format: Format, channels: i32, bits: i32) -> WaveformData {
    match format {
        Format::Json => WaveformData::from_json(&json_data(channels, bits)).unwrap(),
        Format::Binary => WaveformData::from_binary(binary_data(channels, bits, None)).unwrap(),
    }
}

fn put_i32(buffer: &mut [u8], offset: usize, value: i32) {
    buffer[offset..offset + 4].copy_from_slice(&value.to_le_bytes());
}

fn put_u32(buffer: &mut [u8], offset: usize, value: u32) {
    buffer[offset..offset + 4].copy_from_slice(&value.to_le_bytes());
}

fn duration(wf: &WaveformData) -> f64 {
    wf.length() as f64 * wf.scale() as f64 / wf.sample_rate() as f64
}

#[test]
fn concat_single_channel_doubles() {
    for format in [Format::Binary, Format::Json] {
        let a = make_data(format, 1, 8);
        let b = make_data(format, 1, 8);
        let out = a.concat(&[&b]).unwrap();
        assert_eq!(out.channels(), 1);
        assert_eq!(out.length(), 20);
        assert_eq!(duration(&out), 0.21333333333333335);
        assert_eq!(
            out.channel(0).unwrap().min_array(),
            vec![0, -10, 0, -5, -5, 0, 0, 0, 0, -2, 0, -10, 0, -5, -5, 0, 0, 0, 0, -2]
        );
    }
}

#[test]
fn concat_two_channel_cross_format() {
    let a = make_data(Format::Binary, 2, 8);
    let b = make_data(Format::Json, 2, 8);
    let out = a.concat(&[&b]).unwrap();
    assert_eq!(out.channels(), 2);
    assert_eq!(out.length(), 20);
    assert_eq!(duration(&out), 0.21333333333333335);
    assert_eq!(
        out.channel(0).unwrap().min_array(),
        vec![0, -10, 0, -5, -5, 0, 0, 0, 0, -2, 0, -10, 0, -5, -5, 0, 0, 0, 0, -2]
    );
}

#[test]
fn concat_three_way() {
    let a = make_data(Format::Binary, 1, 8);
    let b = make_data(Format::Binary, 1, 8);
    let c = make_data(Format::Binary, 1, 8);
    let out = a.concat(&[&b, &c]).unwrap();
    assert_eq!(out.length(), 30);
    assert_eq!(duration(&out), 0.32);
}

#[test]
fn concat_incompatible_channels() {
    let mono = make_data(Format::Binary, 1, 8);
    let stereo = make_data(Format::Binary, 2, 8);
    assert_eq!(
        mono.concat(&[&stereo]).unwrap_err(),
        Error::IncompatibleWaveforms
    );
    assert_eq!(
        stereo.concat(&[&mono]).unwrap_err(),
        Error::IncompatibleWaveforms
    );
}

#[test]
fn concat_incompatible_bits() {
    let eight = make_data(Format::Binary, 1, 8);
    let sixteen = make_data(Format::Binary, 1, 16);
    assert_eq!(
        eight.concat(&[&sixteen]).unwrap_err(),
        Error::IncompatibleWaveforms
    );
}
