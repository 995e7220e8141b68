//! Frames as image files: decoding the bytes of a frame file into an RGB
//! frame, encoding a frame as PNG, and the difference of two encoded frames.
//!
//! Decoding and encoding are the `image` crate's work; their results are
//! named here, not restated.
use std::io::Cursor;
use vstd::prelude::*;

use crate::images::{
    diff_data, diff_frames, frame_len, lemma_diff_data_exact, DiffError, FrameView, RgbFrame,
};

verus! {

/// What `image::load_from_memory_with_format` followed by `into_rgb8`
/// gives for `bytes` read in the format that `extension` names: width,
/// height and pixel bytes, or `None` when the extension names no format or
/// the bytes do not decode.
pub uninterp spec fn decoded_rgb8(bytes: Seq<u8>, extension: Seq<char>) -> Option<(u32, u32, Seq<u8>)>;

/// The bytes that the `image` crate's PNG encoder writes for an 8-bit RGB
/// image of `width` by `height` pixels holding `data`.
pub uninterp spec fn png_bytes(width: u32, height: u32, data: Seq<u8>) -> Seq<u8>;

/// The frame that `bytes` decode to, when they decode to a frame whose
/// pixel bytes fit its size.
pub open spec fn decoded_frame(bytes: Seq<u8>, extension: Seq<char>) -> Option<FrameView> {
    match decoded_rgb8(bytes, extension) {
        Some((w, h, d)) => if d.len() == frame_len(w as nat, h as nat) {
            Some(FrameView { width: w as nat, height: h as nat, data: d })
        } else {
            None
        },
        None => None,
    }
}

/// The difference of two frames, as `diff_frames` computes it.
pub open spec fn diff_view(a: FrameView, b: FrameView) -> Result<FrameView, DiffError> {
    if a.width != b.width || a.height != b.height {
        Err(DiffError::DimensionMismatch)
    } else {
        Ok(FrameView { width: a.width, height: a.height, data: diff_data(a.data, b.data) })
    }
}

/// The difference of two encoded frames: `Decode` when either does not
/// decode, else the difference of the decoded frames.
pub open spec fn encoded_diff(current: Seq<u8>, delayed: Seq<u8>, extension: Seq<char>) -> Result<
    FrameView,
    DiffError,
> {
    match (decoded_frame(current, extension), decoded_frame(delayed, extension)) {
        (Some(a), Some(b)) => diff_view(a, b),
        _ => Err(DiffError::Decode),
    }
}

/// Calls `image::ImageFormat::from_extension` and
/// `image::load_from_memory_with_format`, then `into_rgb8`, and hands back
/// the image's width, height and raw bytes. Claimed: the result is
/// `decoded_rgb8` of the arguments. Nothing is claimed of which byte
/// sequences decode.
#[verifier::external_body]
fn load_rgb8(bytes: &[u8], extension: &str) -> (r: Option<(u32, u32, Vec<u8>)>)
    ensures
        match r {
            Some((w, h, d)) => decoded_rgb8(bytes@, extension@) == Some((w, h, d@)),
            None => decoded_rgb8(bytes@, extension@) is None,
        },
{
    let format = image::ImageFormat::from_extension(extension)?;
    let img = image::load_from_memory_with_format(bytes, format).ok()?.into_rgb8();
    let (w, h) = img.dimensions();
    Some((w, h, img.into_raw()))
}

/// Calls `image::RgbImage::write_to` with the PNG format on an image made
/// with `RgbImage::from_raw` from the arguments. Claimed: when it succeeds,
/// the bytes written are `png_bytes` of the arguments; and it succeeds when
/// `data` holds three bytes per pixel and neither side is zero; it fails
/// for a zero width or height, which the PNG encoder refuses.
#[verifier::external_body]
fn write_png(width: u32, height: u32, data: &[u8]) -> (r: Option<Vec<u8>>)
    ensures
        r matches Some(v) ==> v@ == png_bytes(width, height, data@),
        data@.len() == 3 * (width * height) && width > 0 && height > 0 ==> r is Some,
        width == 0 || height == 0 ==> r is None,
{
    let img = image::RgbImage::from_raw(width, height, data.to_vec())?;
    let mut out = Cursor::new(Vec::new());
    img.write_to(&mut out, image::ImageFormat::Png).ok()?;
    Some(out.into_inner())
}

/// Decodes the bytes of an image file, in the format its extension names,
/// into an RGB frame.
pub fn decode_rgb8(bytes: &[u8], extension: &str) -> (r: Option<RgbFrame>)
    ensures
        match r {
            Some(f) => decoded_frame(bytes@, extension@) == Some(f@),
            None => decoded_frame(bytes@, extension@) is None,
        },
{
    match load_rgb8(bytes, extension) {
        Some((w, h, d)) => RgbFrame::from_raw(w, h, d),
        None => None,
    }
}

/// Encodes a frame as PNG; `None` exactly for a frame of zero width or
/// height, which the encoder refuses.
pub fn encode_png(f: &RgbFrame) -> (r: Option<Vec<u8>>)
    ensures
        r matches Some(v) ==> v@ == png_bytes(f@.width as u32, f@.height as u32, f@.data),
        r is Some <==> (f@.width > 0 && f@.height > 0),
{
    write_png(f.width(), f.height(), f.data().as_slice())
}

/// The difference of two encoded frames: `Decode` when either does not
/// decode, else what `diff_frames` gives on the decoded frames.
pub fn diff_encoded_frames(current: &[u8], delayed: &[u8], extension: &str) -> (r: Result<
    RgbFrame,
    DiffError,
>)
    ensures
        match r {
            Ok(d) => encoded_diff(current@, delayed@, extension@) == Ok::<FrameView, DiffError>(d@),
            Err(e) => encoded_diff(current@, delayed@, extension@) == Err::<FrameView, DiffError>(e),
        },
{
    let a = match decode_rgb8(current, extension) {
        Some(f) => f,
        None => return Err(DiffError::Decode),
    };
    let b = match decode_rgb8(delayed, extension) {
        Some(f) => f,
        None => return Err(DiffError::Decode),
    };
    diff_frames(&a, &b)
}

/// The difference of two encoded frames, in terms of what the files decode
/// to: when both decode, to the same width `w` and height `h` and to
/// `3 * w * h` bytes each, the difference is `w` wide and `h` high, and each
/// of its bytes is the gray of its pixel, the absolute differences of the
/// pixel's red, green and blue summed and divided by three, rounded down.
/// When both decode to frames of different sizes the answer is
/// `DimensionMismatch`; when either does not decode, `Decode`.
pub proof fn lemma_encoded_diff_exact(current: Seq<u8>, delayed: Seq<u8>, extension: Seq<char>)
    ensures
        decoded_rgb8(current, extension) is None || decoded_rgb8(delayed, extension) is None
            ==> encoded_diff(current, delayed, extension) == Err::<FrameView, DiffError>(
            DiffError::Decode,
        ),
        forall|w: u32, h: u32, da: Seq<u8>, db: Seq<u8>|
            decoded_rgb8(current, extension) == Some((w, h, da)) && decoded_rgb8(delayed, extension)
                == Some((w, h, db)) && da.len() == 3 * (w * h) && db.len() == 3 * (w * h) ==> {
                &&& encoded_diff(current, delayed, extension) is Ok
                &&& encoded_diff(current, delayed, extension)->Ok_0.width == w
                &&& encoded_diff(current, delayed, extension)->Ok_0.height == h
                &&& encoded_diff(current, delayed, extension)->Ok_0.data.len() == da.len()
                &&& forall|i: int|
                    0 <= i < da.len() ==> #[trigger] encoded_diff(
                        current,
                        delayed,
                        extension,
                    )->Ok_0.data[i] as int == ((if da[3 * (i / 3)] >= db[3 * (i / 3)] {
                        da[3 * (i / 3)] - db[3 * (i / 3)]
                    } else {
                        db[3 * (i / 3)] - da[3 * (i / 3)]
                    }) + (if da[3 * (i / 3) + 1] >= db[3 * (i / 3) + 1] {
                        da[3 * (i / 3) + 1] - db[3 * (i / 3) + 1]
                    } else {
                        db[3 * (i / 3) + 1] - da[3 * (i / 3) + 1]
                    }) + (if da[3 * (i / 3) + 2] >= db[3 * (i / 3) + 2] {
                        da[3 * (i / 3) + 2] - db[3 * (i / 3) + 2]
                    } else {
                        db[3 * (i / 3) + 2] - da[3 * (i / 3) + 2]
                    })) / 3
            },
        forall|w1: u32, h1: u32, da: Seq<u8>, w2: u32, h2: u32, db: Seq<u8>|
            decoded_rgb8(current, extension) == Some((w1, h1, da)) && decoded_rgb8(
                delayed,
                extension,
            ) == Some((w2, h2, db)) && da.len() == 3 * (w1 * h1) && db.len() == 3 * (w2 * h2) && (w1
                != w2 || h1 != h2) ==> encoded_diff(current, delayed, extension) == Err::<
                FrameView,
                DiffError,
            >(DiffError::DimensionMismatch),
{
    match (decoded_rgb8(current, extension), decoded_rgb8(delayed, extension)) {
        (Some((w, h, da)), Some((w2, h2, db))) => {
            if w == w2 && h == h2 && da.len() == frame_len(w as nat, h as nat) && db.len()
                == frame_len(w as nat, h as nat) {
                assert(da.len() % 3 == 0);
                lemma_diff_data_exact(da, db);
            }
        },
        _ => {},
    }
}

} // verus!
