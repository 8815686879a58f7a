// PNG images decoded to 8-bit RGBA.

use doombuilder::image::{decode_rgba, frame_to_rgba, PNG_RGB, PNG_RGBA};

fn encode(width: u32, height: u32, color: png::ColorType, depth: png::BitDepth, data: &[u8]) -> Vec<u8> {
    let mut out = Vec::new();
    {
        let mut enc = png::Encoder::new(&mut out, width, height);
        enc.set_color(color);
        enc.set_depth(depth);
        let mut w = enc.write_header().unwrap();
        w.write_image_data(data).unwrap();
    }
    out
}

#[test]
fn rgb_png_gets_opaque_alpha() {
    let bytes = encode(2, 1, png::ColorType::Rgb, png::BitDepth::Eight, &[1, 2, 3, 4, 5, 6]);
    assert_eq!(decode_rgba(&bytes), Some((vec![1, 2, 3, 255, 4, 5, 6, 255], 2, 1)));
}

#[test]
fn rgba_png_is_kept() {
    let data = [9, 8, 7, 6, 5, 4, 3, 2];
    let bytes = encode(1, 2, png::ColorType::Rgba, png::BitDepth::Eight, &data);
    assert_eq!(decode_rgba(&bytes), Some((data.to_vec(), 1, 2)));
}

#[test]
fn other_formats_and_garbage_are_refused() {
    let gray = encode(2, 2, png::ColorType::Grayscale, png::BitDepth::Eight, &[0, 64, 128, 255]);
    assert_eq!(decode_rgba(&gray), None);
    let deep = encode(1, 1, png::ColorType::Rgb, png::BitDepth::Sixteen, &[0, 1, 0, 2, 0, 3]);
    assert_eq!(decode_rgba(&deep), None);
    assert_eq!(decode_rgba(b"not a png"), None);
    assert_eq!(decode_rgba(&[]), None);
}

#[test]
fn frames_convert_by_depth_and_colour() {
    assert_eq!(frame_to_rgba(vec![1, 2, 3, 4, 5], 1, 1, 8, PNG_RGB), Some((vec![1, 2, 3, 255], 1, 1)));
    assert_eq!(frame_to_rgba(vec![1, 2, 3, 4], 1, 1, 8, PNG_RGBA), Some((vec![1, 2, 3, 4], 1, 1)));
    assert_eq!(frame_to_rgba(vec![1, 2, 3], 1, 1, 16, PNG_RGB), None);
    assert_eq!(frame_to_rgba(vec![1], 1, 1, 8, 0), None);
}
