//! The caption extraction pipeline: its options, its result, and the
//! decisions taken between downloading captions and returning a transcript.

use vstd::prelude::*;

use crate::errors::CaptionError;
use crate::text::concat3_strs;
use crate::vtt::{vtt_text, vtt_to_text};

verus! {

/// Name of the directory, under the system's temporary directory, that the
/// captions are downloaded into.
pub const TEMP_DIR_NAME: &'static str = "caption_cleaner";

/// Options of the caption extraction pipeline.
#[derive(Debug, Clone)]
pub struct PipelineOptions {
    /// Whether AI cleaning is requested.
    pub use_ai_cleaning: bool,
}

impl Default for PipelineOptions {
    fn default() -> (r: Self)
        ensures
            !r.use_ai_cleaning,
    {
        PipelineOptions { use_ai_cleaning: false }
    }
}

/// Result of the caption extraction pipeline.
#[derive(Debug, Clone)]
pub struct PipelineResult {
    /// The extracted transcript text.
    pub transcript: String,
    /// Whether AI cleaning was applied.
    pub ai_cleaned: bool,
}

impl PipelineResult {
    /// The result for a downloaded caption file: its plain text, not yet
    /// cleaned by AI.
    pub fn from_vtt(content: &str) -> (r: Self)
        ensures
            r.transcript@ == vtt_text(content@),
            !r.ai_cleaned,
    {
        PipelineResult { transcript: vtt_to_text(content), ai_cleaned: false }
    }

    /// Whether AI cleaning still has to be applied: it was asked for and has
    /// not been applied yet.
    pub fn wants_ai_cleaning(&self, use_ai: bool) -> (r: bool)
        ensures
            r == (use_ai && !self.ai_cleaned),
    {
        use_ai && !self.ai_cleaned
    }

    /// Takes the outcome of AI cleaning: a cleaned text replaces the
    /// transcript and marks it cleaned; a failure leaves the result as it was,
    /// so that the uncleaned transcript is still returned.
    pub fn apply_ai_outcome(&mut self, outcome: Result<String, CaptionError>)
        ensures
            outcome matches Ok(t) ==> final(self).transcript@ == t@ && final(self).ai_cleaned,
            outcome is Err ==> final(self).transcript@ == old(self).transcript@
                && final(self).ai_cleaned == old(self).ai_cleaned,
    {
        match outcome {
            Ok(t) => {
                self.transcript = t;
                self.ai_cleaned = true;
            },
            Err(_) => {},
        }
    }
}

/// The error for a caption file that could not be read: its path and the
/// reason.
pub fn vtt_read_error(path: &str, reason: &str) -> (r: CaptionError)
    ensures
        r matches CaptionError::VttRead(m) && m@ == path@ + ": "@ + reason@,
{
    CaptionError::VttRead(concat3_strs(path, ": ", reason))
}

} // verus!
