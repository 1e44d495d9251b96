//! Fragmented MP4 surgery on transmuxed segments.

pub mod ffmpeg;
pub mod fragment_laws;
pub mod init;
pub mod init_laws;
pub mod media;
pub mod media_laws;
pub mod movie_laws;
pub mod segment_laws;

pub use init::{extract_init, extract_media, patch_boxes, patch_moov_duration, read_tfdt, read_track_timescales};
pub use media::{extend_traf_last_sample, patch_media_timestamps, sum_trun_durations};
