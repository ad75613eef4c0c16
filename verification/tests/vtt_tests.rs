use caption_cleaner::vtt::{
    caption_of_line, clean_line, is_cue_identifier, is_header_line, is_timestamp_line, vtt_to_text,
};

#[test]
fn test_basic_vtt_parsing() {
    let input = r#"WEBVTT
Kind: captions
Language: en

00:00:00.000 --> 00:00:02.000
Hello world

00:00:02.000 --> 00:00:04.000
This is a test
"#;
    let result = vtt_to_text(input);
    assert_eq!(result, "Hello world This is a test");
}

#[test]
fn test_html_tag_removal() {
    let input = r#"WEBVTT

00:00:00.000 --> 00:00:02.000
<c.colorWhite>Hello</c> <b>world</b>
"#;
    let result = vtt_to_text(input);
    assert_eq!(result, "Hello world");
}

#[test]
fn test_youtube_rolling_captions() {
    // This simulates YouTube's rolling caption format where lines repeat
    let input = r#"WEBVTT

00:00:00.000 --> 00:00:02.000
hello everyone welcome to another

00:00:02.000 --> 00:00:04.000
hello everyone welcome to another
another module in this online course

00:00:04.000 --> 00:00:06.000
another module in this online course
strategy and introduction to Game
"#;
    let result = vtt_to_text(input);
    assert_eq!(
        result,
        "hello everyone welcome to another another module in this online course strategy and introduction to Game"
    );
}

#[test]
fn test_deduplication() {
    let input = r#"WEBVTT

00:00:00.000 --> 00:00:02.000
Hello world

00:00:01.000 --> 00:00:03.000
Hello world

00:00:02.000 --> 00:00:04.000
Goodbye world
"#;
    let result = vtt_to_text(input);
    assert_eq!(result, "Hello world Goodbye world");
}

#[test]
fn test_multiline_cues() {
    let input = r#"WEBVTT

00:00:00.000 --> 00:00:02.000
Line one
Line two
"#;
    let result = vtt_to_text(input);
    assert_eq!(result, "Line one Line two");
}

#[test]
fn test_cue_identifiers() {
    let input = r#"WEBVTT

1
00:00:00.000 --> 00:00:02.000
First cue

2
00:00:02.000 --> 00:00:04.000
Second cue
"#;
    let result = vtt_to_text(input);
    assert_eq!(result, "First cue Second cue");
}

#[test]
fn test_empty_input() {
    let result = vtt_to_text("");
    assert_eq!(result, "");
}

#[test]
fn test_header_only() {
    let input = "WEBVTT\nKind: captions\nLanguage: en\n";
    let result = vtt_to_text(input);
    assert_eq!(result, "");
}

#[test]
fn test_triple_repetition() {
    // Simulates the exact issue reported: lines appearing 3 times
    let input = r#"WEBVTT

00:00:00.000 --> 00:00:02.000
hello everyone welcome to another

00:00:01.000 --> 00:00:03.000
hello everyone welcome to another
another module in this online course

00:00:02.000 --> 00:00:04.000
hello everyone welcome to another
another module in this online course
strategy and introduction

00:00:03.000 --> 00:00:05.000
another module in this online course
strategy and introduction
Theory and uh
"#;
    let result = vtt_to_text(input);
    // Each unique line should appear only once
    assert_eq!(
        result,
        "hello everyone welcome to another another module in this online course strategy and introduction Theory and uh"
    );
}

#[test]
fn test_whitespace_normalization() {
    let input = r#"WEBVTT

00:00:00.000 --> 00:00:02.000
Hello    world

00:00:02.000 --> 00:00:04.000
with   extra   spaces
"#;
    let result = vtt_to_text(input);
    // Multiple spaces should be normalized to single spaces
    assert_eq!(result, "Hello world with extra spaces");
}

#[test]
fn vtt_crlf_and_cue_settings() {
    let input = "WEBVTT\r\n\r\n00:01.000 --> 00:02.000 align:start position:0%\r\nCRLF line\r\n";
    assert_eq!(vtt_to_text(input), "CRLF line");
}

#[test]
fn vtt_timestamp_only_line_and_notes() {
    let input = "WEBVTT\n\nNOTE a comment\n\n00:00:05.000\nkept text\n12:34:\n";
    assert_eq!(vtt_to_text(input), "kept text");
}

#[test]
fn vtt_cue_identifiers_numeric_and_alphanumeric() {
    let input = "WEBVTT\n\ncue1\n00:01.000 --> 00:02.000\nfirst line\n\n18446744073709551616\n00:02.000 --> 00:03.000\nsecond line\n\nintro-2_b\nthird line\n";
    assert_eq!(
        vtt_to_text(input),
        "cue1 first line 18446744073709551616 second line intro-2_b third line"
    );
}

#[test]
fn vtt_one_word_captions_kept() {
    assert_eq!(vtt_to_text("Okay"), "Okay");
    assert_eq!(
        vtt_to_text("WEBVTT\n\n00:00:01.000 --> 00:00:02.000\nOkay\n"),
        "Okay"
    );
    let input = "WEBVTT\n\n1\n00:00:01.000 --> 00:00:02.000\nYes\n\n2\n00:00:02.000 --> 00:00:03.000\n日本語\n\n3\n00:00:03.000 --> 00:00:04.000\nThanks\n";
    assert_eq!(vtt_to_text(input), "Yes 日本語 Thanks");
}

#[test]
fn vtt_markup_only_and_unclosed_tags() {
    let input = "WEBVTT\n\n<c></c>\na <> b\n<unclosed text\nx<00:00:01.000><c> y</c>\n";
    assert_eq!(vtt_to_text(input), "a <> b <unclosed text x y");
}

#[test]
fn line_classification() {
    assert!(is_header_line("WEBVTT - title"));
    assert!(is_header_line("Kind: captions"));
    assert!(is_header_line("Language: en"));
    assert!(is_header_line("NOTE this"));
    assert!(!is_header_line("Note this"));
    assert!(is_timestamp_line("00:00:01.000 --> 00:00:02.000"));
    assert!(is_timestamp_line("a --> b"));
    assert!(is_timestamp_line("01:02.500"));
    assert!(is_timestamp_line("01:02:"));
    assert!(!is_timestamp_line("1:02:03"));
    assert!(!is_timestamp_line("01:0x:"));
    assert!(!is_timestamp_line("x01:02:"));
    assert!(is_cue_identifier("42"));
    assert!(is_cue_identifier("007"));
    assert!(is_cue_identifier("18446744073709551615"));
    assert!(!is_cue_identifier("18446744073709551616"));
    assert!(!is_cue_identifier("4a"));
    assert!(!is_cue_identifier("cue-1"));
    assert!(!is_cue_identifier("intro_2"));
    assert!(!is_cue_identifier("日本語"));
    assert!(!is_cue_identifier("Okay"));
    assert!(!is_cue_identifier("-5"));
    assert!(!is_cue_identifier("+5"));
    assert!(!is_cue_identifier(""));
    assert!(!is_cue_identifier("two words"));
    assert!(!is_cue_identifier("end."));
}

#[test]
fn line_cleaning() {
    assert_eq!(clean_line("<c.colorWhite>Hello</c> <b>world</b>"), "Hello world");
    assert_eq!(clean_line("<i> </i>"), "");
    assert_eq!(clean_line("a<>b"), "a<>b");
    assert_eq!(clean_line("x <y"), "x <y");
    assert_eq!(caption_of_line("<b>hi</b>", false), "hi");
    assert_eq!(caption_of_line("<b>hi</b>", true), "");
    assert_eq!(caption_of_line("123", false), "");
    assert_eq!(caption_of_line("Hello", false), "Hello");
    assert_eq!(caption_of_line("Hello there", false), "Hello there");
    assert_eq!(caption_of_line("WEBVTT", false), "");
    assert_eq!(caption_of_line("", false), "");
}

#[test]
fn vtt_first_appearance_order() {
    let input = "WEBVTT\n\nsay b\nsay a\nsay b\nsay c\nsay a\n";
    assert_eq!(vtt_to_text(input), "say b say a say c");
}

#[test]
fn vtt_other_white_space_normalized() {
    let input = "WEBVTT\n\n\tone\u{a0}\u{a0}two\t\n  three four \u{3000}\n";
    assert_eq!(vtt_to_text(input), "one two three four");
}

#[test]
fn clean_line_twice() {
    let once = clean_line("  <i>so we begin</i>  ");
    assert_eq!(once, "so we begin");
    assert_eq!(clean_line(&once), once);
    // A tag runs from a `<` to the first `>` after it.
    let odd = clean_line("<<b>x> <>y");
    assert_eq!(odd, "x> <>y");
    assert_eq!(clean_line(&odd), odd);
}

#[test]
fn vtt_text_of_more_lines_extends() {
    let a = "WEBVTT\n\n00:00.000 --> 00:01.000\nfirst words here";
    let b = "00:01.000 --> 00:02.000\nfirst words here\nthen more words";
    let whole = vtt_to_text(&format!("{}\n{}", a, b));
    assert!(whole.starts_with(&vtt_to_text(a)));
    assert_eq!(whole, "first words here then more words");
}

#[test]
fn vtt_repeated_line_adds_nothing() {
    let input = "WEBVTT\n\nalpha beta\ngamma delta\n";
    for line in input.lines() {
        assert_eq!(vtt_to_text(&format!("{}\n{}", input, line)), vtt_to_text(input));
    }
}
