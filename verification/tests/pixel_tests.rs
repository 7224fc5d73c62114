use glb_converter::pixel::{normalize, PixelError, PixelFormat};

fn no_floats(_bits: u32) -> u8 {
    panic!("integer formats never quantise")
}

fn quantize(bits: u32) -> u8 {
    (f32::from_bits(bits) * 255.0) as u8
}

fn float_bytes(samples: &[f32]) -> Vec<u8> {
    let mut out = Vec::new();
    for s in samples {
        out.extend_from_slice(&s.to_bits().to_le_bytes());
    }
    out
}

const ALL: [PixelFormat; 10] = [
    PixelFormat::R8,
    PixelFormat::R8G8,
    PixelFormat::R8G8B8,
    PixelFormat::R8G8B8A8,
    PixelFormat::R16,
    PixelFormat::R16G16,
    PixelFormat::R16G16B16,
    PixelFormat::R16G16B16A16,
    PixelFormat::R32G32B32Float,
    PixelFormat::R32G32B32A32Float,
];

#[test]
fn rgb8_single_pixel_gets_opaque_alpha() {
    let out = normalize(PixelFormat::R8G8B8, &[10, 20, 30], no_floats).unwrap();
    assert_eq!(out, vec![10, 20, 30, 255]);
}

#[test]
fn r8_is_replicated_into_rgb() {
    let out = normalize(PixelFormat::R8, &[7, 200], no_floats).unwrap();
    assert_eq!(out, vec![7, 7, 7, 255, 200, 200, 200, 255]);
}

#[test]
fn rg8_second_channel_becomes_alpha() {
    let out = normalize(PixelFormat::R8G8, &[7, 9, 100, 0], no_floats).unwrap();
    assert_eq!(out, vec![7, 7, 7, 9, 100, 100, 100, 0]);
}

#[test]
fn rgba8_passes_through() {
    let src = [1u8, 2, 3, 4, 5, 6, 7, 8];
    let out = normalize(PixelFormat::R8G8B8A8, &src, no_floats).unwrap();
    assert_eq!(out, src.to_vec());
}

#[test]
fn r16_keeps_the_high_byte_without_rounding() {
    // 0x12ff would round up to 0x13; truncation keeps 0x12.
    let src = [0xff, 0x12, 0x00, 0xff];
    let out = normalize(PixelFormat::R16, &src, no_floats).unwrap();
    assert_eq!(out, vec![0x12, 0x12, 0x12, 255, 0xff, 0xff, 0xff, 255]);
}

#[test]
fn r16_is_read_little_endian() {
    let sample: u16 = 0xabcd;
    let src = sample.to_le_bytes();
    let out = normalize(PixelFormat::R16, &src, no_floats).unwrap();
    assert_eq!(out, vec![0xab, 0xab, 0xab, 255]);
}

#[test]
fn rg16_second_channel_becomes_alpha() {
    let src = [0x01, 0x10, 0x02, 0x20];
    let out = normalize(PixelFormat::R16G16, &src, no_floats).unwrap();
    assert_eq!(out, vec![0x10, 0x10, 0x10, 0x20]);
}

#[test]
fn rgb16_gets_opaque_alpha() {
    let src = [0x01, 0x10, 0x02, 0x20, 0x03, 0x30];
    let out = normalize(PixelFormat::R16G16B16, &src, no_floats).unwrap();
    assert_eq!(out, vec![0x10, 0x20, 0x30, 255]);
}

#[test]
fn rgba16_keeps_its_alpha() {
    let src = [0x01, 0x10, 0x02, 0x20, 0x03, 0x30, 0x04, 0x40];
    let out = normalize(PixelFormat::R16G16B16A16, &src, no_floats).unwrap();
    assert_eq!(out, vec![0x10, 0x20, 0x30, 0x40]);
}

#[test]
fn rgb_float_is_scaled_and_truncated() {
    let src = float_bytes(&[0.0, 0.5, 1.0]);
    let out = normalize(PixelFormat::R32G32B32Float, &src, quantize).unwrap();
    assert_eq!(out, vec![0, 127, 255, 255]);
}

#[test]
fn rgba_float_keeps_its_alpha() {
    let src = float_bytes(&[1.0, 0.25, 0.0, 0.5, 0.1, 0.2, 0.3, 0.4]);
    let out = normalize(PixelFormat::R32G32B32A32Float, &src, quantize).unwrap();
    assert_eq!(out, vec![255, 63, 0, 127, 25, 51, 76, 102]);
}

#[test]
fn float_samples_reach_the_quantiser_as_little_endian_words() {
    let src = [0x04, 0x03, 0x02, 0x01, 0, 0, 0, 0, 0xff, 0xff, 0xff, 0xff];
    let seen = std::cell::RefCell::new(Vec::new());
    let out = normalize(PixelFormat::R32G32B32Float, &src, |w: u32| {
        seen.borrow_mut().push(w);
        (w & 0xff) as u8
    })
    .unwrap();
    assert_eq!(*seen.borrow(), vec![0x0102_0304, 0, 0xffff_ffff]);
    assert_eq!(out, vec![0x04, 0, 0xff, 255]);
}

#[test]
fn length_that_is_no_multiple_of_the_stride_is_malformed() {
    for format in ALL {
        let stride = format.bytes_per_pixel();
        if stride == 1 {
            continue;
        }
        let long = vec![0u8; stride * 2 + 1];
        assert_eq!(normalize(format, &long, quantize), Err(PixelError::MalformedBuffer));
        let short = vec![0u8; stride - 1];
        assert_eq!(normalize(format, &short, quantize), Err(PixelError::MalformedBuffer));
    }
}

#[test]
fn every_length_is_whole_pixels_of_one_byte() {
    for len in 0..5usize {
        let out = normalize(PixelFormat::R8, &vec![9u8; len], no_floats).unwrap();
        assert_eq!(out.len(), 4 * len);
    }
}

#[test]
fn output_is_four_bytes_per_pixel_for_every_format() {
    for format in ALL {
        for (width, height) in [(1usize, 1usize), (3, 2), (4, 4), (7, 1)] {
            let src = vec![0u8; width * height * format.bytes_per_pixel()];
            let out = normalize(format, &src, quantize).unwrap();
            assert_eq!(out.len(), width * height * 4);
        }
    }
}

#[test]
fn empty_buffer_normalises_to_nothing() {
    for format in ALL {
        assert_eq!(normalize(format, &[], quantize), Ok(Vec::new()));
    }
}

#[test]
fn strides_are_channels_times_sample_bytes() {
    let strides: Vec<usize> = ALL.iter().map(|f| f.bytes_per_pixel()).collect();
    assert_eq!(strides, vec![1, 2, 3, 4, 2, 4, 6, 8, 12, 16]);
    for format in ALL {
        assert_eq!(format.bytes_per_pixel(), format.channels() * format.bytes_per_sample());
    }
}

#[test]
fn supported_layouts_are_found() {
    assert_eq!(PixelFormat::from_layout(1, 8, false), Ok(PixelFormat::R8));
    assert_eq!(PixelFormat::from_layout(2, 8, false), Ok(PixelFormat::R8G8));
    assert_eq!(PixelFormat::from_layout(3, 8, false), Ok(PixelFormat::R8G8B8));
    assert_eq!(PixelFormat::from_layout(4, 8, false), Ok(PixelFormat::R8G8B8A8));
    assert_eq!(PixelFormat::from_layout(1, 16, false), Ok(PixelFormat::R16));
    assert_eq!(PixelFormat::from_layout(2, 16, false), Ok(PixelFormat::R16G16));
    assert_eq!(PixelFormat::from_layout(3, 16, false), Ok(PixelFormat::R16G16B16));
    assert_eq!(PixelFormat::from_layout(4, 16, false), Ok(PixelFormat::R16G16B16A16));
    assert_eq!(PixelFormat::from_layout(3, 32, true), Ok(PixelFormat::R32G32B32Float));
    assert_eq!(PixelFormat::from_layout(4, 32, true), Ok(PixelFormat::R32G32B32A32Float));
}

#[test]
fn other_layouts_are_unsupported() {
    let bad = [
        (0u8, 8u8, false),
        (5, 8, false),
        (1, 32, false),
        (3, 24, false),
        (1, 32, true),
        (2, 32, true),
        (3, 16, true),
        (4, 64, true),
        (0, 0, false),
    ];
    for (channels, bits, floating) in bad {
        assert_eq!(
            PixelFormat::from_layout(channels, bits, floating),
            Err(PixelError::UnsupportedFormat)
        );
    }
}
