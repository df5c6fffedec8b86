//! Verified core of a Twitter/X video downloader service: caption conversion,
//! tweet parsing, variant selection, overlay layout text and rate limiting.

pub mod text;
pub mod captions;
pub mod models;
pub mod error;
pub mod twitter;
pub mod video;
pub mod overlay;
pub mod rate_limit;
pub mod download;
pub mod srt_laws;
