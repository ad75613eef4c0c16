use caption_cleaner::pipeline::{vtt_read_error, PipelineOptions, PipelineResult};
use caption_cleaner::CaptionError;

#[test]
fn test_pipeline_options_default() {
    let options = PipelineOptions::default();
    assert!(!options.use_ai_cleaning);
}

#[test]
fn pipeline_result_from_vtt() {
    let r = PipelineResult::from_vtt("WEBVTT\n\n00:00:00.000 --> 00:00:01.000\nHi there\n");
    assert_eq!(r.transcript, "Hi there");
    assert!(!r.ai_cleaned);
}

#[test]
fn ai_outcome_success_and_fallback() {
    let mut r = PipelineResult { transcript: "raw text".to_string(), ai_cleaned: false };
    assert!(r.wants_ai_cleaning(true));
    assert!(!r.wants_ai_cleaning(false));
    r.apply_ai_outcome(Err(CaptionError::NetworkError("down".to_string())));
    assert_eq!(r.transcript, "raw text");
    assert!(!r.ai_cleaned);
    r.apply_ai_outcome(Ok("Raw text.".to_string()));
    assert_eq!(r.transcript, "Raw text.");
    assert!(r.ai_cleaned);
    assert!(!r.wants_ai_cleaning(true));
}

#[test]
fn vtt_read_error_text() {
    let e = vtt_read_error("/tmp/x.vtt", "No such file");
    assert_eq!(e.message(), "Failed to read VTT file: /tmp/x.vtt: No such file");
}
