//! Replace the embedded cover artwork of an MP4 file without touching its
//! media streams.

pub mod mp4;
pub mod wire;
