//! The error type of the caption pipeline and the text it is reported with.

use vstd::prelude::*;

use crate::text::concat_strs;
use crate::yt_dlp::{ytdlp_message, YtDlpError};

verus! {

/// Everything that can go wrong between a video URL and a cleaned transcript.
#[derive(Debug, PartialEq, Eq)]
pub enum CaptionError {
    /// The temporary directory could not be created (the I/O error's text).
    TempDirCreation(String),
    /// The captions could not be downloaded.
    Download(YtDlpError),
    /// The downloaded caption file could not be read.
    VttRead(String),
    /// AI cleaning failed.
    GroqError(String),
    /// An HTTP request failed (the HTTP client's error text).
    HttpError(String),
    /// Another pipeline failure.
    PipelineError(String),
    /// No API key is configured; names the key that was looked for.
    MissingApiKey(String),
    /// The AI service could not be reached.
    NetworkError(String),
    /// The AI service answered with an error.
    ApiError(String),
    /// The AI service's answer could not be parsed.
    ParseError(String),
    /// The settings store could not be used, or a setting was refused.
    SettingsError(String),
}

/// The text an error is reported with: a fixed prefix per kind, then its detail.
pub open spec fn caption_message(e: CaptionError) -> Seq<char> {
    match e {
        CaptionError::TempDirCreation(s) => "Failed to create temp directory: "@ + s@,
        CaptionError::Download(d) => "Failed to download captions: "@ + ytdlp_message(d),
        CaptionError::VttRead(s) => "Failed to read VTT file: "@ + s@,
        CaptionError::GroqError(s) => "AI cleaning failed: "@ + s@,
        CaptionError::HttpError(s) => "HTTP request failed: "@ + s@,
        CaptionError::PipelineError(s) => "Pipeline error: "@ + s@,
        CaptionError::MissingApiKey(s) => "Missing API key: "@ + s@,
        CaptionError::NetworkError(s) => "Network error: "@ + s@,
        CaptionError::ApiError(s) => "API error: "@ + s@,
        CaptionError::ParseError(s) => "Failed to parse response: "@ + s@,
        CaptionError::SettingsError(s) => "Settings error: "@ + s@,
    }
}

impl CaptionError {
    /// The text the error is reported with (what the front end shows).
    pub fn message(&self) -> (r: String)
        ensures
            r@ == caption_message(*self),
    {
        match self {
            CaptionError::TempDirCreation(s) => concat_strs("Failed to create temp directory: ", s),
            CaptionError::Download(d) => {
                let m = d.message();
                concat_strs("Failed to download captions: ", &m)
            },
            CaptionError::VttRead(s) => concat_strs("Failed to read VTT file: ", s),
            CaptionError::GroqError(s) => concat_strs("AI cleaning failed: ", s),
            CaptionError::HttpError(s) => concat_strs("HTTP request failed: ", s),
            CaptionError::PipelineError(s) => concat_strs("Pipeline error: ", s),
            CaptionError::MissingApiKey(s) => concat_strs("Missing API key: ", s),
            CaptionError::NetworkError(s) => concat_strs("Network error: ", s),
            CaptionError::ApiError(s) => concat_strs("API error: ", s),
            CaptionError::ParseError(s) => concat_strs("Failed to parse response: ", s),
            CaptionError::SettingsError(s) => concat_strs("Settings error: ", s),
        }
    }
}

} // verus!
