//! Verified core of a multi-camera motion detector: camera folder names,
//! frame selection and differencing, bright-pixel selection, the octree
//! voxel search, and the bookkeeping that ranks and merges detections.
//!
//! Each module holds its specifications and laws; the executable items are
//! also found at the crate's root.
pub mod cameras;
pub mod codec;
pub mod compress;
pub mod frames;
pub mod images;
pub mod names;
pub mod octree;
pub mod ranking;
pub mod search_laws;

pub use cameras::num_of_cameras;
pub use codec::{decode_rgb8, diff_encoded_frames, encode_png};
pub use compress::{absorbing_result, MergeScan};
pub use frames::{select_frames, sort_names};
pub use images::{bright_pixels, delayed_frame, diff_frames, BrightPixel, DiffError, RgbFrame};
pub use names::{chars_of, parse_camera_name, CameraFields};
pub use octree::{Cell, LeafVoxel, Node, OctreeSearch};
pub use ranking::{keep_strongest, sort_by_cameras};
