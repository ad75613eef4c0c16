//! Verified core of a caption cleaner: WebVTT caption parsing, transcript
//! chunking, API-key handling and the decisions of the extraction pipeline.

pub mod ai;
pub mod errors;
pub mod pipeline;
pub mod settings;
pub mod text;
pub mod vtt;
pub mod yt_dlp;

pub use errors::CaptionError;
