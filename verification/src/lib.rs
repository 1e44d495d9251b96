//! Verified core of an HLS-to-DASH transpackaging proxy.

pub mod address_laws;
pub mod cache;
pub mod clock;
pub mod config;
pub mod config_laws;
pub mod dash;
pub mod dash_laws;
pub mod error;
pub mod handlers;
pub mod hls;
pub mod hls_laws;
pub mod listing_laws;
pub mod markup;
pub mod mp4;
pub mod mp4_laws;
pub mod mpd_laws;
pub mod presentation_laws;
pub mod rounding;
pub mod rounding_laws;
pub mod text;
pub mod text_laws;
pub mod transmux;
pub mod upstream;
pub mod url_laws;
pub mod url_utils;
