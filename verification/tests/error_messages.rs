#![allow(dead_code)]
//! Pinned error message text and structured error fields.

use waveform_data::{Error, JsonWaveformData, ResampleOption, WaveformData};

#[derive(Clone, Copy, Debug)]
enum Format {
    Json,
    Binary,
}

fn sample_data(channels: i32) -> Vec<i32> {
    if channels == 1 {
        vec![0, 0, -10, 10, 0, 0, -5, 7, -5, 7, 0, 0, 0, 0, 0, 0, 0, 0, -2, 2]
    } else {
        vec![
            0, 0, 0, 0, -10, 10, -8, 8, 0, 0, -2, 2, -5, 7, -6, 3, -5, 7, -6, 3, 0, 0, 0, 0, 0, 0,
            0, 0, 0, 0, 0, 0, 0, 0, 0, 0, -2, 2, -3, 3,
        ]
    }
}

fn json_data(channels: i32, bits: i32) -> JsonWaveformData {
    let data = sample_data(channels);
    if channels == 1 {
        JsonWaveformData {
            version: None,
            channels: None,
            sample_rate: 48000,
            samples_per_pixel: 512,
            bits,
            length: 10,
            data,
        }
    } else {
        JsonWaveformData {
            version: Some(2),
            channels: Some(channels),
            sample_rate: 48000,
            samples_per_pixel: 512,
            bits,
            length: 10,
            data,
        }
    }
}

fn binary_data(channels: i32, bits: i32, version_override: Option<i32>) -> Vec<u8> {
    let data = sample_data(channels);
    let version = version_override.unwrap_or(if channels == 1 { 1 } else { 2 });
    let header_size = if version == 2 { 24usize } else { 20 };
    let eight_bit = bits == 8;
    let bytes_per_sample = if eight_bit { 1usize } else { 2 };
    let total = header_size + data.len() * bytes_per_sample;
    let mut buffer = vec![0u8; total];
    put_i32(&mut buffer, 0, version);
    put_u32(&mut buffer, 4, if eight_bit { 1 } else { 0 });
    put_i32(&mut buffer, 8, 48000);
    put_i32(&mut buffer, 12, 512);
    put_u32(&mut buffer, 16, (data.len() / (2 * channels as usize)) as u32);
    if version == 2 {
        put_i32(&mut buffer, 20, channels);
    }
    let mut index = header_size;
    if eight_bit {
        for &value in &data {
            buffer[index] = value as i8 as u8;
            index += 1;
        }
    } else {
        for &value in &data {
            let bytes = (value as i16).to_le_bytes();
            buffer[index] = bytes[0];
            buffer[index + 1] = bytes[1];
            index += 2;
        }
    }
    buffer
}

fn make_data(format: Format, channels: i32, bits: i32) -> WaveformData {
    match format {
        Format::Json => WaveformData::from_json(&json_data(channels, bits)).unwrap(),
        Format::Binary => WaveformData::from_binary(binary_data(channels, bits, None)).unwrap(),
    }
}

fn put_i32(buffer: &mut [u8], offset: usize, value: i32) {
    buffer[offset..offset + 4].copy_from_slice(&value.to_le_bytes());
}

fn put_u32(buffer: &mut [u8], offset: usize, value: u32) {
    buffer[offset..offset + 4].copy_from_slice(&value.to_le_bytes());
}

fn duration(wf: &WaveformData) -> f64 {
    wf.length() as f64 * wf.scale() as f64 / wf.sample_rate() as f64
}

fn resample_width(wf: &WaveformData, width: f64) -> Result<WaveformData, Error> {
    if width <= 0.0 {
        return Err(Error::InvalidWidth);
    }
    let target = (duration(wf) * wf.sample_rate() as f64 / width).floor() as i64;
    wf.resample_to_scale(target, ResampleOption::Width)
}

fn resample_scale(wf: &WaveformData, scale: f64) -> Result<WaveformData, Error> {
    if scale <= 0.0 {
        return Err(Error::InvalidScale);
    }
    wf.resample_to_scale(scale as i64, ResampleOption::Scale)
}

#[test]
fn resample_error_messages() {
    let wf = make_data(Format::Binary, 1, 8);

    // floor(10 * 512 / 11) = 465, below the source scale 512.
    assert_eq!(
        resample_width(&wf, 11.0).unwrap_err().message(),
        "WaveformData.resample(): Zoom level 465 too low, minimum: 512"
    );
    assert_eq!(
        resample_scale(&wf, 0.0).unwrap_err().message(),
        "WaveformData.resample(): scale should be a positive integer value"
    );
    assert_eq!(
        resample_width(&wf, 0.0).unwrap_err().message(),
        "WaveformData.resample(): width should be a positive integer value"
    );
}

#[test]
fn zoom_too_low_carries_target_and_minimum() {
    let wf = make_data(Format::Binary, 1, 8);
    let err = resample_width(&wf, 11.0).unwrap_err();
    assert_eq!(
        err,
        Error::ZoomTooLow {
            target: 465,
            minimum: 512
        }
    );
}

#[test]
fn channel_error_messages() {
    let wf = make_data(Format::Binary, 1, 8);
    assert_eq!(wf.channel(5).unwrap_err().message(), "Invalid channel: 5");
    assert_eq!(
        wf.channel(-1).unwrap_err().message(),
        "Invalid channel: -1"
    );
}

#[test]
fn slice_negative_bound_messages() {
    let wf = make_data(Format::Binary, 1, 8);
    assert_eq!(
        wf.slice(-1, 4)
            .unwrap_err()
            .message(),
        "startIndex or startTime must not be negative"
    );
    assert_eq!(
        wf.slice(1, -1)
            .unwrap_err()
            .message(),
        "endIndex or endTime must not be negative"
    );
}
