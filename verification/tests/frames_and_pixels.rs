use voxel_detect::{bright_pixels, delayed_frame, diff_frames, BrightPixel, DiffError, RgbFrame};

fn frame(w: u32, h: u32, data: &[u8]) -> RgbFrame {
    RgbFrame::from_raw(w, h, data.to_vec()).unwrap()
}

#[test]
fn frame_needs_exactly_three_bytes_per_pixel() {
    assert!(RgbFrame::from_raw(2, 1, vec![0; 6]).is_some());
    assert!(RgbFrame::from_raw(2, 1, vec![0; 5]).is_none());
    assert!(RgbFrame::from_raw(2, 1, vec![0; 7]).is_none());
    assert!(RgbFrame::from_raw(0, 7, vec![]).is_some());
    let f = frame(1, 2, &[1, 2, 3, 4, 5, 6]);
    assert_eq!((f.width(), f.height()), (1, 2));
    assert_eq!(f.data(), &vec![1, 2, 3, 4, 5, 6]);
    assert_eq!(f.into_raw(), vec![1, 2, 3, 4, 5, 6]);
}

#[test]
fn delayed_frame_in_range() {
    assert_eq!(delayed_frame(2, 0, 1), Ok(1));
    assert_eq!(delayed_frame(10, 3, 0), Ok(3));
}

#[test]
fn delayed_frame_missing() {
    assert_eq!(delayed_frame(1, 0, 1), Err(DiffError::MissingFrame { index: 1 }));
    assert_eq!(delayed_frame(0, 0, 0), Err(DiffError::MissingFrame { index: 0 }));
    assert_eq!(delayed_frame(5, 3, 2), Err(DiffError::MissingFrame { index: 5 }));
}

#[test]
fn diff_is_gray_mean_of_channel_differences() {
    let a = frame(2, 1, &[10, 20, 30, 255, 0, 255]);
    let b = frame(2, 1, &[13, 14, 40, 0, 255, 0]);
    let d = diff_frames(&a, &b).unwrap();
    // (3 + 6 + 10) / 3 = 6; (255 + 255 + 255) / 3 = 255
    assert_eq!(d.data(), &vec![6, 6, 6, 255, 255, 255]);
    assert_eq!((d.width(), d.height()), (2, 1));
}

#[test]
fn diff_rounds_down() {
    let a = frame(1, 1, &[0, 0, 0]);
    let b = frame(1, 1, &[1, 1, 0]);
    assert_eq!(diff_frames(&a, &b).unwrap().data(), &vec![0, 0, 0]);
    let c = frame(1, 1, &[2, 2, 1]);
    assert_eq!(diff_frames(&a, &c).unwrap().data(), &vec![1, 1, 1]);
}

#[test]
fn diff_is_symmetric() {
    let a = frame(2, 2, &[1, 50, 200, 7, 7, 7, 0, 0, 0, 90, 80, 70]);
    let b = frame(2, 2, &[100, 5, 20, 7, 8, 9, 255, 255, 255, 10, 20, 30]);
    let ab = diff_frames(&a, &b).unwrap();
    let ba = diff_frames(&b, &a).unwrap();
    assert_eq!(ab.data(), ba.data());
}

#[test]
fn diff_of_a_frame_with_itself_is_black() {
    let a = frame(2, 2, &[1, 50, 200, 7, 7, 7, 0, 0, 0, 90, 80, 70]);
    let d = diff_frames(&a, &a).unwrap();
    assert!(d.data().iter().all(|&v| v == 0));
    assert!(bright_pixels(&d, 0).is_empty());
}

#[test]
fn diff_of_different_sizes_is_refused() {
    let a = frame(2, 1, &[0; 6]);
    let b = frame(1, 2, &[0; 6]);
    assert!(matches!(diff_frames(&a, &b), Err(DiffError::DimensionMismatch)));
    let c = frame(3, 1, &[0; 9]);
    assert!(matches!(diff_frames(&a, &c), Err(DiffError::DimensionMismatch)));
}

#[test]
fn bright_pixels_row_by_row_above_threshold() {
    // 3 by 2 frame; red channels 5, 2, 3 / 0, 9, 3
    let f = frame(3, 2, &[5, 0, 0, 2, 9, 9, 3, 1, 1, 0, 0, 0, 9, 0, 0, 3, 0, 0]);
    assert_eq!(
        bright_pixels(&f, 2),
        vec![
            BrightPixel { x: 0, y: 0, red: 5 },
            BrightPixel { x: 2, y: 0, red: 3 },
            BrightPixel { x: 1, y: 1, red: 9 },
            BrightPixel { x: 2, y: 1, red: 3 },
        ]
    );
    // The threshold itself is not above the threshold.
    assert_eq!(bright_pixels(&f, 5), vec![BrightPixel { x: 1, y: 1, red: 9 }]);
    assert!(bright_pixels(&f, 255).is_empty());
}
