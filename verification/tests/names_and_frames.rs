use voxel_detect::{chars_of, parse_camera_name, select_frames, sort_names, CameraFields};

fn texts(f: &CameraFields) -> [Option<&str>; 7] {
    [
        f.x.as_deref(),
        f.y.as_deref(),
        f.z.as_deref(),
        f.fov.as_deref(),
        f.rot_x.as_deref(),
        f.rot_y.as_deref(),
        f.rot_z.as_deref(),
    ]
}

fn strings(v: &[&str]) -> Vec<String> {
    v.iter().map(|s| s.to_string()).collect()
}

#[test]
fn camera_name_with_every_field() {
    let f = parse_camera_name("Cam_X70.5_Y100_Z-3_FOV60_Rot10_-20_30").unwrap();
    assert_eq!(
        texts(&f),
        [Some("70.5"), Some("100"), Some("-3"), Some("60"), Some("10"), Some("-20"), Some("30")]
    );
}

#[test]
fn camera_name_without_prefix_is_refused() {
    assert!(parse_camera_name("cam_X1_Y2_Z3").is_none());
    assert!(parse_camera_name("Cam").is_none());
    assert!(parse_camera_name("CamX1").is_none());
    assert!(parse_camera_name("").is_none());
}

#[test]
fn camera_name_prefix_only_has_no_fields() {
    let f = parse_camera_name("Cam_").unwrap();
    assert_eq!(texts(&f), [None, None, None, None, None, None, None]);
}

#[test]
fn later_token_replaces_earlier() {
    let f = parse_camera_name("Cam_X1_X2_FOV5_FOV").unwrap();
    assert_eq!(f.x.as_deref(), Some("2"));
    assert_eq!(f.fov.as_deref(), Some(""));
}

#[test]
fn rotation_takes_the_two_following_tokens() {
    let f = parse_camera_name("Cam_Rot1_X9_Y8_Z7").unwrap();
    assert_eq!(f.rot_x.as_deref(), Some("1"));
    assert_eq!(f.rot_y.as_deref(), Some("X9"));
    assert_eq!(f.rot_z.as_deref(), Some("Y8"));
    assert_eq!(f.x, None);
    assert_eq!(f.y, None);
    assert_eq!(f.z.as_deref(), Some("7"));
}

#[test]
fn rotation_near_the_end_keeps_only_x() {
    let f = parse_camera_name("Cam_Rot5_6").unwrap();
    assert_eq!(f.rot_x.as_deref(), Some("5"));
    assert_eq!(f.rot_y, None);
    assert_eq!(f.rot_z, None);
}

#[test]
fn empty_tokens_and_other_tokens_are_skipped() {
    let f = parse_camera_name("Cam__X1__Q7_Yé").unwrap();
    assert_eq!(f.x.as_deref(), Some("1"));
    assert_eq!(f.y.as_deref(), Some("é"));
    assert_eq!(f.z, None);
}

#[test]
fn first_token_is_not_read() {
    // The token before the first `_` is `Cam` itself.
    let f = parse_camera_name("Cam_Y3").unwrap();
    assert_eq!(f.x, None);
    assert_eq!(f.y.as_deref(), Some("3"));
}

#[test]
fn chars_of_keeps_every_character() {
    assert_eq!(chars_of("aé_z"), vec!['a', 'é', '_', 'z']);
}

#[test]
fn frames_are_selected_and_sorted() {
    let names = strings(&[
        "frame_0002.png",
        "notes.txt",
        "frame_0001.png",
        "frame_0003.jpg",
        "frame_.png",
        "Frame_0004.png",
        "frame_0000.PNG",
        "diff_0_1.png",
    ]);
    assert_eq!(
        select_frames(&names),
        strings(&["frame_.png", "frame_0001.png", "frame_0002.png"])
    );
}

#[test]
fn frames_sort_by_name_not_by_number() {
    let names = strings(&["frame_10.png", "frame_9.png", "frame_100.png"]);
    assert_eq!(
        select_frames(&names),
        strings(&["frame_10.png", "frame_100.png", "frame_9.png"])
    );
}

#[test]
fn frame_name_needs_both_ends() {
    assert!(select_frames(&strings(&["frame_.pn", "rame_1.png", "frame.png"])).is_empty());
    assert_eq!(select_frames(&strings(&["frame_.png"])), strings(&["frame_.png"]));
}

#[test]
fn sorting_names_is_byte_order() {
    let names = strings(&["b", "ab", "a", "é", "B", "", "a"]);
    let sorted = sort_names(&names);
    let mut expected = names.clone();
    expected.sort();
    assert_eq!(sorted, expected);
    assert_eq!(sort_names(&sorted), sorted);
}

#[test]
fn selecting_frames_twice_changes_nothing() {
    let names = strings(&["frame_2.png", "x.png", "frame_1.png", "frame_10.png"]);
    let once = select_frames(&names);
    assert_eq!(select_frames(&once), once);
}

#[test]
fn reordering_units_keeps_the_fields() {
    let a = parse_camera_name("Cam_X1_Y2_Z3_FOV60_Rot10_20_30").unwrap();
    let b = parse_camera_name("Cam_Rot10_20_30_FOV60_Z3_Y2_X1").unwrap();
    let c = parse_camera_name("Cam_Y2_Rot10_20_30_X1_Q_FOV60_Z3").unwrap();
    assert_eq!(texts(&a), texts(&b));
    assert_eq!(texts(&a), texts(&c));
}
