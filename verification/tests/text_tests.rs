use caption_cleaner::ai::split_paragraphs;
use caption_cleaner::text::{chars_of, split_lines, split_words, trim_chars};

fn strings(v: Vec<Vec<char>>) -> Vec<String> {
    v.into_iter().map(|c| c.into_iter().collect()).collect()
}

#[test]
fn paragraphs_split_and_join_back() {
    for text in ["", "a", "a\n\nb", "a\n\n\nb", "\n\n\n\n", "x\n\n", "\n\nx\n\n\n\n\ny"] {
        let parts = strings(split_paragraphs(&chars_of(text)));
        let expected: Vec<String> = text.split("\n\n").map(|s| s.to_string()).collect();
        assert_eq!(parts, expected);
        assert_eq!(parts.join("\n\n"), text);
    }
}

#[test]
fn lines_words_and_trim_match_std() {
    for text in ["", "a\nb", "a\r\nb\r\n", "a\r", "\n\n", "x\ny\n", " a \t b\u{2003}c "] {
        let lines = strings(split_lines(&chars_of(text)));
        let expected: Vec<String> = text.lines().map(|s| s.to_string()).collect();
        assert_eq!(lines, expected);
        let words = strings(split_words(&chars_of(text)));
        let expected: Vec<String> = text.split_whitespace().map(|s| s.to_string()).collect();
        assert_eq!(words, expected);
        let trimmed: String = trim_chars(&chars_of(text)).into_iter().collect();
        assert_eq!(trimmed, text.trim());
    }
}
