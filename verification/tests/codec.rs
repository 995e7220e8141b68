use std::io::Cursor;
use voxel_detect::{
    decode_rgb8, diff_encoded_frames, diff_frames, encode_png, DiffError, RgbFrame,
};

/// PNG bytes of an RGB image, written with the image crate directly.
fn png_of(w: u32, h: u32, data: &[u8]) -> Vec<u8> {
    let img = image::RgbImage::from_raw(w, h, data.to_vec()).unwrap();
    let mut out = Cursor::new(Vec::new());
    img.write_to(&mut out, image::ImageFormat::Png).unwrap();
    out.into_inner()
}

const PIXELS: [u8; 6] = [10, 20, 30, 200, 100, 0];

#[test]
fn png_bytes_decode_to_their_pixels() {
    let bytes = png_of(2, 1, &PIXELS);
    let f = decode_rgb8(&bytes, "png").unwrap();
    assert_eq!((f.width(), f.height()), (2, 1));
    assert_eq!(f.data(), &PIXELS.to_vec());
    // The extension is read without regard to case.
    assert!(decode_rgb8(&bytes, "PNG").is_some());
}

#[test]
fn undecodable_bytes_give_nothing() {
    let bytes = png_of(2, 1, &PIXELS);
    assert!(decode_rgb8(&bytes, "txt").is_none());
    assert!(decode_rgb8(&bytes, "").is_none());
    assert!(decode_rgb8(&bytes[..bytes.len() / 2], "png").is_none());
    assert!(decode_rgb8(&[1, 2, 3, 4], "png").is_none());
}

#[test]
fn encoded_png_is_png_and_decodes_back() {
    let f = RgbFrame::from_raw(2, 1, PIXELS.to_vec()).unwrap();
    let bytes = encode_png(&f).unwrap();
    assert_eq!(&bytes[..8], b"\x89PNG\r\n\x1a\n");
    assert_ne!(bytes, PIXELS.to_vec());
    assert_eq!(bytes, png_of(2, 1, &PIXELS));
    let back = image::load_from_memory_with_format(&bytes, image::ImageFormat::Png)
        .unwrap()
        .into_rgb8();
    assert_eq!(back.into_raw(), PIXELS.to_vec());
}

#[test]
fn encoded_frames_differ_as_decoded_frames_do() {
    let a = png_of(2, 1, &PIXELS);
    let b = png_of(2, 1, &[13, 14, 40, 0, 100, 255]);
    let d = diff_encoded_frames(&a, &b, "png").unwrap();
    let fa = RgbFrame::from_raw(2, 1, PIXELS.to_vec()).unwrap();
    let fb = RgbFrame::from_raw(2, 1, vec![13, 14, 40, 0, 100, 255]).unwrap();
    let expected = diff_frames(&fa, &fb).unwrap();
    assert_eq!(d.data(), expected.data());
    assert_eq!(d.data(), &vec![6, 6, 6, 151, 151, 151]);
}

#[test]
fn encoded_frames_that_do_not_decode() {
    let a = png_of(2, 1, &PIXELS);
    assert!(matches!(diff_encoded_frames(&a, &[0; 10], "png"), Err(DiffError::Decode)));
    assert!(matches!(diff_encoded_frames(&[0; 10], &a, "png"), Err(DiffError::Decode)));
    assert!(matches!(diff_encoded_frames(&a, &a, "bin"), Err(DiffError::Decode)));
}

#[test]
fn encoded_frames_of_different_sizes() {
    let a = png_of(2, 1, &PIXELS);
    let b = png_of(1, 2, &PIXELS);
    assert!(matches!(diff_encoded_frames(&a, &b, "png"), Err(DiffError::DimensionMismatch)));
}

#[test]
fn empty_frames_do_not_encode() {
    assert!(encode_png(&RgbFrame::from_raw(0, 0, vec![]).unwrap()).is_none());
    assert!(encode_png(&RgbFrame::from_raw(0, 3, vec![]).unwrap()).is_none());
    assert!(encode_png(&RgbFrame::from_raw(4, 0, vec![]).unwrap()).is_none());
    assert!(encode_png(&RgbFrame::from_raw(1, 1, vec![1, 2, 3]).unwrap()).is_some());
}
