#![allow(dead_code)]
//! Resampling: option guards, header upgrade, and golden values.

use waveform_data::{Error, JsonWaveformData, ResampleOption, WaveformData};

#[derive(Clone, Copy, Debug)]
enum Format {
    Json,
    Binary,
}

fn sample_data(channels: i32) -> Vec<i32> {
    if channels == 1 {
        vec![0, 0, -10, 10, 0, 0, -5, 7, -5, 7, 0, 0, 0, 0, 0, 0, 0, 0, -2, 2]
    } else {
        vec![
            0, 0, 0, 0, -10, 10, -8, 8, 0, 0, -2, 2, -5, 7, -6, 3, -5, 7, -6, 3, 0, 0, 0, 0, 0, 0,
            0, 0, 0, 0, 0, 0, 0, 0, 0, 0, -2, 2, -3, 3,
        ]
    }
}

fn json_data(channels: i32, bits: i32) -> JsonWaveformData {
    let data = sample_data(channels);
    if channels == 1 {
        JsonWaveformData {
            version: None,
            channels: None,
            sample_rate: 48000,
            samples_per_pixel: 512,
            bits,
            length: 10,
            data,
        }
    } else {
        JsonWaveformData {
            version: Some(2),
            channels: Some(channels),
            sample_rate: 48000,
            samples_per_pixel: 512,
            bits,
            length: 10,
            data,
        }
    }
}

fn binary_data(channels: i32, bits: i32, version_override: Option<i32>) -> Vec<u8> {
    let data = sample_data(channels);
    let version = version_override.unwrap_or(if channels == 1 { 1 } else { 2 });
    let header_size = if version == 2 { 24usize } else { 20 };
    let eight_bit = bits == 8;
    let bytes_per_sample = if eight_bit { 1usize } else { 2 };
    let total = header_size + data.len() * bytes_per_sample;
    let mut buffer = vec![0u8; total];
    put_i32(&mut buffer, 0, version);
    put_u32(&mut buffer, 4, if eight_bit { 1 } else { 0 });
    put_i32(&mut buffer, 8, 48000);
    put_i32(&mut buffer, 12, 512);
    put_u32(&mut buffer, 16, (data.len() / (2 * channels as usize)) as u32);
    if version == 2 {
        put_i32(&mut buffer, 20, channels);
    }
    let mut index = header_size;
    if eight_bit {
        for &value in &data {
            buffer[index] = value as i8 as u8;
            index += 1;
        }
    } else {
        for &value in &data {
            let bytes = (value as i16).to_le_bytes();
            buffer[index] = bytes[0];
            buffer[index + 1] = bytes[1];
            index += 2;
        }
    }
    buffer
}

fn make_data(format: Format, channels: i32, bits: i32) -> WaveformData {
    match format {
        Format::Json => WaveformData::from_json(&json_data(channels, bits)).unwrap(),
        Format::Binary => WaveformData::from_binary(binary_data(channels, bits, None)).unwrap(),
    }
}

fn put_i32(buffer: &mut [u8], offset: usize, value: i32) {
    buffer[offset..offset + 4].copy_from_slice(&value.to_le_bytes());
}

fn put_u32(buffer: &mut [u8], offset: usize, value: u32) {
    buffer[offset..offset + 4].copy_from_slice(&value.to_le_bytes());
}

fn duration(wf: &WaveformData) -> f64 {
    wf.length() as f64 * wf.scale() as f64 / wf.sample_rate() as f64
}

fn resample_width(wf: &WaveformData, width: f64) -> Result<WaveformData, Error> {
    if width <= 0.0 {
        return Err(Error::InvalidWidth);
    }
    let target = (duration(wf) * wf.sample_rate() as f64 / width).floor() as i64;
    wf.resample_to_scale(target, ResampleOption::Width)
}

fn resample_scale(wf: &WaveformData, scale: f64) -> Result<WaveformData, Error> {
    if scale <= 0.0 {
        return Err(Error::InvalidScale);
    }
    wf.resample_to_scale(scale as i64, ResampleOption::Scale)
}

const FORMATS: [Format; 2] = [Format::Binary, Format::Json];
const BITS: [i32; 2] = [8, 16];

#[test]
fn width_above_length_too_low() {
    for format in FORMATS {
        for bits in BITS {
            let wf = make_data(format, 1, bits);
            // floor(10 * 512 / 11) = 465 < 512
            let err = resample_width(&wf, 11.0).unwrap_err();
            assert!(matches!(err, Error::ZoomTooLow { .. }));
        }
    }
}

#[test]
fn invalid_options() {
    for format in FORMATS {
        for bits in BITS {
            let wf = make_data(format, 1, bits);
            assert_eq!(
                resample_scale(&wf, 0.0).unwrap_err(),
                Error::InvalidScale
            );
            assert_eq!(
                resample_width(&wf, 0.0).unwrap_err(),
                Error::InvalidWidth
            );
        }
    }
}

#[test]
fn width_preserves_metadata_and_upgrades_to_v2() {
    for format in FORMATS {
        for bits in BITS {
            let wf = make_data(format, 1, bits);
            let out = resample_width(&wf, 5.0).unwrap();
            assert_eq!(out.length(), 5);
            assert_eq!(out.sample_rate(), 48000);
            assert_eq!(out.channels(), 1);
            assert_eq!(out.bits(), bits);
            // Resample output is always version 2: a 24-byte header.
            assert_eq!(
                out.to_array_buffer().len() - 24,
                5 * 2 * if bits == 8 { 1 } else { 2 }
            );
        }
    }
}

#[test]
fn scale_golden_values_single_channel() {
    for format in FORMATS {
        for bits in BITS {
            let wf = make_data(format, 1, bits);
            let out = resample_scale(&wf, 1024.0).unwrap();
            assert_eq!(out.length(), 5);
            assert_eq!(duration(&out), 0.10666666666666667);
            assert_eq!(
                out.channel(0).unwrap().min_array(),
                vec![-10, -5, -5, 0, -2]
            );
            assert_eq!(out.channel(0).unwrap().max_array(), vec![10, 7, 7, 0, 2]);
        }
    }
}

#[test]
fn scale_golden_values_two_channel() {
    for format in FORMATS {
        for bits in BITS {
            let wf = make_data(format, 2, bits);
            let out = resample_scale(&wf, 1024.0).unwrap();
            assert_eq!(out.length(), 5);
            assert_eq!(duration(&out), 0.10666666666666667);
            assert_eq!(out.channels(), 2);
            assert_eq!(
                out.channel(0).unwrap().min_array(),
                vec![-10, -5, -5, 0, -2]
            );
            assert_eq!(out.channel(0).unwrap().max_array(), vec![10, 7, 7, 0, 2]);
            assert_eq!(out.channel(1).unwrap().min_array(), vec![-8, -6, -6, 0, -3]);
            assert_eq!(out.channel(1).unwrap().max_array(), vec![8, 3, 3, 0, 3]);
        }
    }
}

#[test]
fn empty_input_resample() {
    // A length-0 waveform exercises the seed-zero branch of the resampler.
    let json = JsonWaveformData {
        version: Some(2),
        channels: Some(2),
        sample_rate: 48000,
        samples_per_pixel: 512,
        bits: 8,
        length: 0,
        data: vec![],
    };
    let wf = WaveformData::from_json(&json).unwrap();
    let out = resample_scale(&wf, 1024.0).unwrap();
    assert_eq!(out.length(), 0);
    assert_eq!(out.channels(), 2);
    assert_eq!(out.channel(0).unwrap().min_array(), Vec::<i32>::new());
}

#[test]
fn width_to_scale_matches_json_round_trip() {
    // width 5 -> floor(10 * 512 / 5) = 1024, same output as scale 1024.
    let wf = WaveformData::from_json(&json_data(2, 8)).unwrap();
    let by_width = resample_width(&wf, 5.0).unwrap();
    let by_scale = resample_scale(&wf, 1024.0).unwrap();
    assert_eq!(by_width.to_array_buffer(), by_scale.to_array_buffer());
}
