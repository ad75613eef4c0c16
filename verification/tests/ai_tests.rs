use caption_cleaner::ai::{
    api_status_error, chunk_messages, completion_text, join_cleaned, plan_cleaning,
    split_into_chunks, ChunkedCleaning, CleaningPlan, CleaningStep, GroqClient, DEFAULT_ENDPOINT, MAX_CHUNK_SIZE, SYSTEM_PROMPT,
};
use caption_cleaner::CaptionError;

#[test]
fn test_groq_client_new() {
    let client = GroqClient::new("test-key".into(), None);
    assert_eq!(client.api_key, "test-key");
    assert_eq!(client.endpoint, DEFAULT_ENDPOINT);
}

#[test]
fn test_groq_client_custom_endpoint() {
    let client = GroqClient::new("test-key".into(), Some("https://custom.api.com".into()));
    assert_eq!(client.endpoint, "https://custom.api.com");
}

#[test]
fn test_split_into_chunks_small_text() {
    let text = "Hello world.\n\nThis is a test.";
    let chunks = split_into_chunks(text, 1000);
    assert_eq!(chunks.len(), 1);
    assert_eq!(chunks[0], text);
}

#[test]
fn test_split_into_chunks_large_text() {
    let paragraph = "This is a paragraph with some text. ".repeat(10);
    let text = format!("{}\n\n{}\n\n{}", paragraph, paragraph, paragraph);
    let chunks = split_into_chunks(&text, 500);
    assert!(chunks.len() > 1);
}

#[test]
fn test_split_into_chunks_empty() {
    let chunks = split_into_chunks("", 1000);
    assert!(chunks.is_empty());
}

#[test]
fn test_split_into_chunks_single_large_paragraph() {
    let text = "a".repeat(1500);
    let chunks = split_into_chunks(&text, 1000);
    // Single paragraph that exceeds limit should still be in one chunk
    assert_eq!(chunks.len(), 1);
}

#[test]
fn split_into_chunks_exact_groups() {
    // 360-byte paragraphs: two do not fit in 500 bytes, so each is a chunk,
    // trimmed of its trailing space.
    let paragraph = "This is a paragraph with some text. ".repeat(10);
    let text = format!("{}\n\n{}\n\n{}", paragraph, paragraph, paragraph);
    let chunks = split_into_chunks(&text, 500);
    assert_eq!(chunks, vec![paragraph.trim().to_string(); 3]);
    // With room for two paragraphs and a separator, they are grouped.
    let chunks = split_into_chunks(&text, 722);
    assert_eq!(chunks.len(), 2);
    assert_eq!(chunks[0], format!("{}\n\n{}", paragraph, paragraph.trim()));
    let chunks = split_into_chunks(&text, 721);
    assert_eq!(chunks.len(), 3);
}

#[test]
fn split_into_chunks_counts_characters() {
    // "éé" + "\n\n" + "éé" is 6 characters (10 bytes).
    assert_eq!(split_into_chunks("éé\n\néé", 6), vec!["éé\n\néé".to_string()]);
    assert_eq!(split_into_chunks("éé\n\néé", 5), vec!["éé".to_string(), "éé".to_string()]);
}

#[test]
fn split_into_chunks_separator_edges() {
    assert_eq!(split_into_chunks("\n\nA", 1000), vec!["A".to_string()]);
    assert_eq!(split_into_chunks("A\n\n\n\nB", 1000), vec!["A\n\n\n\nB".to_string()]);
    assert_eq!(split_into_chunks("A\n\n\nB", 3), vec!["A".to_string(), "B".to_string()]);
    assert!(split_into_chunks("\n\n\n\n", 1000).is_empty());
    assert_eq!(split_into_chunks(" ", 1000), vec!["".to_string()]);
}

#[test]
fn plan_cleaning_cases() {
    assert!(matches!(plan_cleaning("  \n\t "), CleaningPlan::Nothing));
    assert!(matches!(plan_cleaning(""), CleaningPlan::Nothing));
    assert!(matches!(plan_cleaning("hello"), CleaningPlan::Whole));
    let exact = "a".repeat(MAX_CHUNK_SIZE);
    assert!(matches!(plan_cleaning(&exact), CleaningPlan::Whole));
    // 8000 characters are sent whole though they take 16000 bytes.
    let wide = format!("{}\n\n{}", "é".repeat(3999), "é".repeat(3999));
    assert!(matches!(plan_cleaning(&wide), CleaningPlan::Whole));
    let over = "é".repeat(MAX_CHUNK_SIZE + 1);
    assert!(matches!(plan_cleaning(&over), CleaningPlan::Chunks(_)));
    let long = format!("{}\n\n{}", "a".repeat(5000), "b".repeat(5000));
    match plan_cleaning(&long) {
        CleaningPlan::Chunks(c) => {
            assert_eq!(c, vec!["a".repeat(5000), "b".repeat(5000)]);
        }
        _ => panic!("expected chunks"),
    }
}

#[test]
fn join_cleaned_uses_blank_lines() {
    let parts = vec!["one".to_string(), "two".to_string(), "three".to_string()];
    assert_eq!(join_cleaned(&parts), "one\n\ntwo\n\nthree");
    assert_eq!(join_cleaned(&vec![]), "");
}

#[test]
fn completion_text_takes_first_choice_trimmed() {
    let contents = vec!["  Cleaned text.\n".to_string(), "other".to_string()];
    assert_eq!(completion_text(&contents), Ok("Cleaned text.".to_string()));
    assert_eq!(
        completion_text(&vec![]),
        Err(CaptionError::ApiError("Empty response from Groq".to_string()))
    );
}

#[test]
fn api_status_error_text() {
    let e = api_status_error("401 Unauthorized", "bad key");
    assert_eq!(e, CaptionError::ApiError("Groq API error (401 Unauthorized): bad key".to_string()));
    assert_eq!(e.message(), "API error: Groq API error (401 Unauthorized): bad key");
}

#[test]
fn client_from_key_sources() {
    let c = GroqClient::from_env(Some("k1".to_string())).unwrap();
    assert_eq!(c.api_key, "k1");
    assert_eq!(c.endpoint, DEFAULT_ENDPOINT);
    let e = GroqClient::from_app(None).unwrap_err();
    assert_eq!(e, CaptionError::MissingApiKey("GROQ_API_KEY".to_string()));
    assert_eq!(e.message(), "Missing API key: GROQ_API_KEY");
    assert!(GroqClient::from_env(None).is_err());
}

#[test]
fn client_request_parts() {
    let c = GroqClient::new("secret".to_string(), None);
    assert_eq!(c.request_url("/chat/completions"), "https://api.groq.com/openai/v1/chat/completions");
    assert_eq!(c.authorization(), "Bearer secret");
    let m = chunk_messages("some text");
    assert_eq!(m.len(), 2);
    assert_eq!(m[0].role, "system");
    assert_eq!(m[0].content, SYSTEM_PROMPT);
    assert_eq!(m[1].role, "user");
    assert_eq!(m[1].content, "some text");
}

fn sent(step: &CleaningStep) -> Option<String> {
    match step {
        CleaningStep::Send(c) => Some(c.clone()),
        CleaningStep::Done(_) => None,
    }
}

#[test]
fn chunked_cleaning_sends_chunks_in_order() {
    let chunks = vec!["one".to_string(), "two".to_string(), "three".to_string()];
    let (mut state, step) = ChunkedCleaning::start(chunks);
    assert_eq!(sent(&step), Some("one".to_string()));
    let step = state.advance(Ok("One.".to_string()));
    assert_eq!(sent(&step), Some("two".to_string()));
    let step = state.advance(Ok("Two.".to_string()));
    assert_eq!(sent(&step), Some("three".to_string()));
    let step = state.advance(Ok("Three.".to_string()));
    match step {
        CleaningStep::Done(r) => assert_eq!(r, Ok("One.\n\nTwo.\n\nThree.".to_string())),
        CleaningStep::Send(_) => panic!("cleaning should be over"),
    }
    assert!(!state.failed);
    assert_eq!(state.cleaned.len(), 3);
}

#[test]
fn chunked_cleaning_stops_at_first_failure() {
    let chunks = vec!["one".to_string(), "two".to_string(), "three".to_string()];
    let (mut state, _) = ChunkedCleaning::start(chunks);
    let _ = state.advance(Ok("One.".to_string()));
    let step = state.advance(Err(CaptionError::NetworkError("down".to_string())));
    match step {
        CleaningStep::Done(r) => {
            assert_eq!(r, Err(CaptionError::NetworkError("down".to_string())))
        }
        CleaningStep::Send(_) => panic!("cleaning should stop"),
    }
    assert!(state.failed);
    assert_eq!(state.cleaned, vec!["One.".to_string()]);
}

#[test]
fn chunked_cleaning_without_chunks() {
    let (state, step) = ChunkedCleaning::start(Vec::new());
    match step {
        CleaningStep::Done(r) => assert_eq!(r, Ok(String::new())),
        CleaningStep::Send(_) => panic!("nothing to send"),
    }
    assert!(!state.failed);
}
