//! WebVTT caption files to plain text.
//!
//! YouTube writes "rolling" captions in which every cue repeats lines of the
//! cue before it; the text keeps each distinct caption line once, in the order
//! of its first appearance.

use vstd::prelude::*;

use crate::text::{
    chars_eq, chars_of, contains, has_prefix, has_substring, is_normalized, join, join_chars,
    lemma_join_concat, lemma_lines_break_concat, lemma_lines_no_break, lemma_lines_single,
    lemma_normalize_ws_normalized, lemma_normalize_ws_prefix, lemma_trim_end_shape,
    lemma_trim_idempotent, lemma_trim_push_ws, lemma_trim_start_is_suffix, lines, lines_scan,
    normalize_ws, split_lines, split_words, starts_with, string_from_chars, strip_cr, trim,
    trim_chars, trim_end, trim_start, words,
};

verus! {

/// Cue-timing lines start with a timestamp such as `00:01:` or `00:01.`.
pub const TIMESTAMP_PATTERN: &'static str = r"^\d{2}:\d{2}[:\.]";

/// Markup tags such as `<c.colorWhite>`, `</c>` or `<00:00:01.000>`.
pub const HTML_TAG_PATTERN: &'static str = r"<[^>]+>";

/// What `regex::Regex::new(pattern)` then `Regex::is_match(haystack)` returns.
pub uninterp spec fn regex_is_match(pattern: Seq<char>, haystack: Seq<char>) -> bool;

/// What `regex::Regex::new(pattern)` then `Regex::replace_all(haystack, replacement)` returns.
pub uninterp spec fn regex_replace_all(
    pattern: Seq<char>,
    haystack: Seq<char>,
    replacement: Seq<char>,
) -> Seq<char>;

/// An ASCII decimal digit.
pub open spec fn is_ascii_digit(c: char) -> bool {
    '0' <= c && c <= '9'
}

/// A character that `\d` can match: Unicode decimal digits are the ASCII
/// digits and characters outside ASCII.
pub open spec fn may_be_unicode_digit(c: char) -> bool {
    is_ascii_digit(c) || c as u32 >= 0x80
}

/// `s` begins with two digits, `:`, two digits and `:` or `.`, where `digit`
/// says what counts as a digit.
pub open spec fn timestamp_prefix_with(s: Seq<char>, digit: spec_fn(char) -> bool) -> bool {
    &&& s.len() >= 6
    &&& digit(s[0])
    &&& digit(s[1])
    &&& s[2] == ':'
    &&& digit(s[3])
    &&& digit(s[4])
    &&& (s[5] == ':' || s[5] == '.')
}

/// Position of the first `>` in `s`.
pub open spec fn first_gt(s: Seq<char>) -> Option<int>
    decreases s.len(),
{
    if s.len() == 0 {
        None
    } else if s[0] == '>' {
        Some(0)
    } else {
        match first_gt(s.drop_first()) {
            Some(k) => Some(k + 1),
            None => None,
        }
    }
}

/// Length of the match of `<[^>]+>` that starts at the beginning of `s`:
/// a `<`, at least one character other than `>`, and the first `>` after it.
pub open spec fn tag_len(s: Seq<char>) -> Option<int> {
    if s.len() > 0 && s[0] == '<' {
        match first_gt(s) {
            Some(j) => if j >= 2 {
                Some(j + 1)
            } else {
                None
            },
            None => None,
        }
    } else {
        None
    }
}

/// `s` with every match of `<[^>]+>` removed, the matches taken leftmost
/// first and without overlap (`Regex::replace_all(s, "")`).
pub open spec fn strip_tags(s: Seq<char>) -> Seq<char>
    decreases s.len(),
{
    if s.len() == 0 {
        s
    } else {
        match tag_len(s) {
            Some(n) => if 1 <= n <= s.len() {
                strip_tags(s.skip(n))
            } else {
                seq![s[0]] + strip_tags(s.drop_first())
            },
            None => seq![s[0]] + strip_tags(s.drop_first()),
        }
    }
}

/// Compiles `pattern` with `regex::Regex::new` and tests it against
/// `haystack` with `Regex::is_match`; `None` when the pattern does not compile.
/// For the cue-timing pattern the regex syntax fixes the answer: `^` anchors at
/// the start, `\d` is a Unicode decimal digit (ASCII digits among them, every
/// other one outside ASCII), `[:\.]` is `:` or `.`.
#[verifier::external_body]
fn regex_matches(pattern: &str, haystack: &str) -> (r: Option<bool>)
    ensures
        r matches Some(b) ==> b == regex_is_match(pattern@, haystack@),
        pattern@ == TIMESTAMP_PATTERN@ ==> r is Some,
        pattern@ == TIMESTAMP_PATTERN@ && timestamp_prefix_with(haystack@, |c: char| is_ascii_digit(c))
            ==> r == Some(true),
        pattern@ == TIMESTAMP_PATTERN@ && !timestamp_prefix_with(haystack@, |c: char| may_be_unicode_digit(c))
            ==> r == Some(false),
{
    match regex::Regex::new(pattern) {
        Ok(re) => Some(re.is_match(haystack)),
        Err(_) => None,
    }
}

/// Compiles `pattern` with `regex::Regex::new` and replaces every match in
/// `haystack` with `Regex::replace_all`; `None` when the pattern does not
/// compile. For the markup pattern and an empty replacement the regex syntax
/// fixes the answer: `strip_tags`.
#[verifier::external_body]
fn regex_replace(pattern: &str, haystack: &str, replacement: &str) -> (r: Option<String>)
    ensures
        r matches Some(s) ==> s@ == regex_replace_all(pattern@, haystack@, replacement@),
        pattern@ == HTML_TAG_PATTERN@ ==> r is Some,
        pattern@ == HTML_TAG_PATTERN@ && replacement@.len() == 0 ==> r.unwrap()@ == strip_tags(haystack@),
{
    match regex::Regex::new(pattern) {
        Ok(re) => Some(re.replace_all(haystack, replacement).into_owned()),
        Err(_) => None,
    }
}

/// Header and metadata lines of a WebVTT file.
pub open spec fn is_header(line: Seq<char>) -> bool {
    ||| starts_with(line, "WEBVTT"@)
    ||| starts_with(line, "Kind:"@)
    ||| starts_with(line, "Language:"@)
    ||| starts_with(line, "NOTE"@)
}

/// Cue timing lines: they hold `-->` or begin with a timestamp (two digits,
/// `:`, two digits, `:` or `.`). A timestamp of ASCII digits always counts;
/// whether non-ASCII characters in the digit places are decimal digits is
/// the regex's answer.
pub open spec fn is_timestamp(line: Seq<char>) -> bool {
    ||| contains(line, "-->"@)
    ||| timestamp_prefix_with(line, |c: char| is_ascii_digit(c))
    ||| (timestamp_prefix_with(line, |c: char| may_be_unicode_digit(c)) && regex_is_match(
        TIMESTAMP_PATTERN@,
        line,
    ))
}

/// What `char::is_alphanumeric` returns (Unicode `Alphabetic` or `Numeric`).
pub uninterp spec fn char_is_alphanumeric(c: char) -> bool;

/// An ASCII letter or digit.
pub open spec fn is_ascii_alphanumeric(c: char) -> bool {
    ('a' <= c && c <= 'z') || ('A' <= c && c <= 'Z') || is_ascii_digit(c)
}

/// `char::is_alphanumeric`: on ASCII the letters and digits; beyond ASCII the
/// Unicode properties decide.
pub open spec fn is_alphanumeric(c: char) -> bool {
    if (c as u32) < 0x80 {
        is_ascii_alphanumeric(c)
    } else {
        char_is_alphanumeric(c)
    }
}

/// A character a cue identifier may hold: alphanumeric, `-` or `_`.
pub open spec fn is_cue_id_char(c: char) -> bool {
    is_alphanumeric(c) || c == '-' || c == '_'
}

/// Value of a string of ASCII decimal digits.
pub open spec fn decimal_value(s: Seq<char>) -> int
    decreases s.len(),
{
    if s.len() == 0 {
        0
    } else {
        decimal_value(s.drop_last()) * 10 + (s.last() as int - '0' as int)
    }
}

/// The digits of a `u64` numeral: `s` without one leading `+`.
pub open spec fn numeral_digits(s: Seq<char>) -> Seq<char> {
    if s.len() > 0 && s[0] == '+' {
        s.drop_first()
    } else {
        s
    }
}

/// `s.parse::<u64>()` succeeds: an optional `+`, then at least one ASCII
/// digit, and a value that fits in a `u64`.
pub open spec fn parses_as_u64(s: Seq<char>) -> bool {
    let d = numeral_digits(s);
    &&& d.len() > 0
    &&& forall|i: int| 0 <= i < d.len() ==> is_ascii_digit(#[trigger] d[i])
    &&& decimal_value(d) <= u64::MAX
}

/// Numeric cue identifiers (the lines that name a cue before its timing):
/// non-empty, every character alphanumeric, `-` or `_`, and the whole line a
/// `u64` numeral.
pub open spec fn is_cue_id(line: Seq<char>) -> bool {
    &&& line.len() > 0
    &&& forall|i: int| 0 <= i < line.len() ==> is_cue_id_char(#[trigger] line[i])
    &&& parses_as_u64(line)
}

/// Asks `char::is_alphanumeric`, which tests the Unicode `Alphabetic` and
/// `Numeric` properties; on ASCII these are exactly the letters and digits.
#[verifier::external_body]
fn alphanumeric(c: char) -> (r: bool)
    ensures
        r == char_is_alphanumeric(c),
        (c as u32) < 0x80 ==> r == is_ascii_alphanumeric(c),
{
    c.is_alphanumeric()
}

/// Caption text of a line that is already trimmed: markup removed, trimmed.
pub open spec fn cleaned(line: Seq<char>) -> Seq<char> {
    trim(strip_tags(line))
}

/// The caption text that a raw line of the file contributes; empty when the
/// line is skipped (blank, header, timing, cue identifier) or holds only markup.
pub open spec fn caption_text(raw: Seq<char>) -> Seq<char> {
    caption_of(trim(raw), is_timestamp(trim(raw)))
}

/// The caption text of a trimmed line, given whether it is a cue timing
/// line: empty for a blank, header, timing or cue-identifier line, else the
/// line without markup, trimmed.
pub open spec fn caption_of(line: Seq<char>, is_timing: bool) -> Seq<char> {
    if line.len() == 0 || is_header(line) || is_timing || is_cue_id(line) {
        Seq::empty()
    } else {
        cleaned(line)
    }
}

/// The distinct non-empty caption texts of `raw_lines`, in order of first appearance.
pub open spec fn unique_captions(raw_lines: Seq<Seq<char>>) -> Seq<Seq<char>>
    decreases raw_lines.len(),
{
    if raw_lines.len() == 0 {
        Seq::empty()
    } else {
        let prev = unique_captions(raw_lines.drop_last());
        let c = caption_text(raw_lines.last());
        if c.len() == 0 || prev.contains(c) {
            prev
        } else {
            prev.push(c)
        }
    }
}

/// The plain text of a WebVTT file: its distinct caption lines joined by
/// spaces, with every run of white space turned into one space.
pub open spec fn vtt_text(input: Seq<char>) -> Seq<char> {
    normalize_ws(join(unique_captions(lines(input)), seq![' ']))
}

/// Whether a trimmed line is a WebVTT header or metadata line.
pub fn is_header_line(line: &str) -> (r: bool)
    ensures
        r == is_header(line@),
{
    let v = chars_of(line);
    has_prefix(&v, "WEBVTT") || has_prefix(&v, "Kind:") || has_prefix(&v, "Language:")
        || has_prefix(&v, "NOTE")
}

/// Whether a trimmed line is a cue timing line.
pub fn is_timestamp_line(line: &str) -> (r: bool)
    ensures
        r == is_timestamp(line@),
        timestamp_prefix_with(line@, |c: char| is_ascii_digit(c)) ==> r,
        !contains(line@, "-->"@) && !timestamp_prefix_with(line@, |c: char| may_be_unicode_digit(c))
            ==> !r,
{
    let v = chars_of(line);
    if has_substring(&v, "-->") {
        return true;
    }
    let r = match regex_matches(TIMESTAMP_PATTERN, line) {
        Some(b) => b,
        None => false,
    };
    r
}

proof fn lemma_decimal_nonneg(s: Seq<char>)
    requires
        forall|k: int| 0 <= k < s.len() ==> is_ascii_digit(#[trigger] s[k]),
    ensures
        decimal_value(s) >= 0,
    decreases s.len(),
{
    if s.len() > 0 {
        lemma_decimal_nonneg(s.drop_last());
    }
}

proof fn lemma_decimal_grows(s: Seq<char>, i: int)
    requires
        0 <= i <= s.len(),
        forall|k: int| 0 <= k < s.len() ==> is_ascii_digit(#[trigger] s[k]),
    ensures
        decimal_value(s.take(i)) <= decimal_value(s),
    decreases s.len() - i,
{
    if i < s.len() {
        lemma_decimal_grows(s, i + 1);
        assert(s.take(i + 1).drop_last() =~= s.take(i));
        lemma_decimal_nonneg(s.take(i));
    } else {
        assert(s.take(i) =~= s);
    }
}

/// `str::parse::<u64>` succeeds on `v` (an optional `+`, digits, no overflow).
fn parses_u64(v: &Vec<char>) -> (r: bool)
    ensures
        r == parses_as_u64(v@),
{
    let start: usize = if v.len() > 0 && v[0] == '+' {
        1
    } else {
        0
    };
    let ghost d = numeral_digits(v@);
    assert(d =~= v@.skip(start as int));
    if start >= v.len() {
        return false;
    }
    let mut value: u64 = 0;
    let mut i: usize = start;
    while i < v.len()
        invariant
            start <= i <= v.len(),
            d == numeral_digits(v@),
            d =~= v@.skip(start as int),
            forall|k: int| 0 <= k < i - start ==> is_ascii_digit(#[trigger] d[k]),
            value == decimal_value(d.take(i - start)),
        decreases v.len() - i,
    {
        let c = v[i];
        if !('0' <= c && c <= '9') {
            proof {
                assert(d[i - start] == c);
                assert(!is_ascii_digit(d[i - start]));
            }
            return false;
        }
        let dv = (c as u32 - '0' as u32) as u64;
        proof {
            assert(d.take(i - start + 1).drop_last() =~= d.take(i - start));
        }
        if value > (u64::MAX - dv) / 10 {
            proof {
                assert(value * 10 + dv > u64::MAX) by (nonlinear_arith)
                    requires
                        value > (u64::MAX - dv) / 10,
                        dv <= 9,
                ;
                let t = d.take(i - start + 1);
                assert(t.last() == c);
                assert(decimal_value(t) == value * 10 + dv);
                if forall|k: int| 0 <= k < d.len() ==> is_ascii_digit(#[trigger] d[k]) {
                    lemma_decimal_grows(d, i - start + 1);
                }
            }
            return false;
        }
        value = value * 10 + dv;
        i = i + 1;
    }
    assert(d.take(i - start) =~= d);
    true
}

/// Whether a trimmed line is a numeric cue identifier.
pub fn is_cue_identifier(line: &str) -> (r: bool)
    ensures
        r == is_cue_id(line@),
{
    let v = chars_of(line);
    if v.len() == 0 {
        return false;
    }
    let mut i: usize = 0;
    while i < v.len()
        invariant
            v@ == line@,
            i <= v.len(),
            forall|k: int| 0 <= k < i ==> is_cue_id_char(#[trigger] v@[k]),
        decreases v.len() - i,
    {
        let c = v[i];
        let ok = (c as u32) < 0x80 && (('a' <= c && c <= 'z') || ('A' <= c && c <= 'Z') || ('0'
            <= c && c <= '9')) || (c as u32) >= 0x80 && alphanumeric(c) || c == '-' || c == '_';
        if !ok {
            assert(!is_cue_id_char(v@[i as int]));
            return false;
        }
        i = i + 1;
    }
    parses_u64(&v)
}

/// Removes markup tags from a trimmed caption line and trims the rest.
pub fn clean_line(line: &str) -> (r: String)
    ensures
        r@ == cleaned(line@),
{
    proof {
        reveal_strlit("");
    }
    let stripped = regex_replace(HTML_TAG_PATTERN, line, "");
    let text = match stripped {
        Some(s) => s,
        None => String::new(),
    };
    let v = chars_of(&text);
    string_from_chars(&trim_chars(&v))
}

/// The caption text of a trimmed line, given whether it is a cue timing
/// line (`is_timestamp_line`): empty when the line is skipped.
pub fn caption_of_line(line: &str, is_timing: bool) -> (r: String)
    ensures
        r@ == caption_of(line@, is_timing),
{
    let v = chars_of(line);
    if v.len() == 0 || is_header_line(line) || is_timing || is_cue_identifier(line) {
        return String::new();
    }
    clean_line(line)
}

/// Whether `line` is already one of `seen`.
fn seen_before(seen: &Vec<Vec<char>>, line: &Vec<char>) -> (r: bool)
    ensures
        r == seen.deep_view().contains(line@),
{
    let mut i: usize = 0;
    while i < seen.len()
        invariant
            i <= seen.len(),
            forall|k: int| 0 <= k < i ==> seen.deep_view()[k] != line@,
        decreases seen.len() - i,
    {
        if chars_eq(&seen[i], line) {
            assert(seen.deep_view()[i as int] == line@);
            return true;
        }
        assert(seen.deep_view()[i as int] == seen[i as int]@);
        i = i + 1;
    }
    false
}

/// Converts the content of a WebVTT file to plain text.
///
/// Headers, metadata, cue timings and cue identifiers are dropped, markup
/// tags are removed, each distinct caption line is kept once in the order of
/// its first appearance (YouTube's rolling captions repeat lines), the lines
/// are joined with spaces and every run of white space becomes one space.
pub fn vtt_to_text(input: &str) -> (r: String)
    ensures
        r@ == vtt_text(input@),
{
    let chars = chars_of(input);
    let raw_lines = split_lines(&chars);
    let mut unique: Vec<Vec<char>> = Vec::new();
    let mut i: usize = 0;
    while i < raw_lines.len()
        invariant
            i <= raw_lines.len(),
            unique.deep_view() == unique_captions(raw_lines.deep_view().take(i as int)),
        decreases raw_lines.len() - i,
    {
        let ghost prefix = raw_lines.deep_view().take(i + 1);
        proof {
            assert(prefix.drop_last() =~= raw_lines.deep_view().take(i as int));
            assert(prefix.last() == raw_lines[i as int]@);
        }
        let t = trim_chars(&raw_lines[i]);
        let line = string_from_chars(&t);
        let is_timing = is_timestamp_line(&line);
        let caption = caption_of_line(&line, is_timing);
        let c = chars_of(&caption);
        if c.len() > 0 && !seen_before(&unique, &c) {
                let ghost before = unique.deep_view();
                assert(c.deep_view() =~= c@);
            unique.push(c);
            assert(unique.deep_view() =~= before.push(c@));
        }
        i = i + 1;
    }
    assert(raw_lines.deep_view().take(i as int) =~= raw_lines.deep_view());
    let space: Vec<char> = vec![' '];
    let joined = join_chars(&unique, &space);
    let words = split_words(&joined);
    let out = join_chars(&words, &space);
    assert(space@ =~= seq![' ']);
    string_from_chars(&out)
}

/// Line `i` of `raw` contributes caption text `c`.
pub open spec fn contributes(raw: Seq<Seq<char>>, i: int, c: Seq<char>) -> bool {
    0 <= i < raw.len() && caption_text(raw[i]) == c
}

/// Some line before line `j` of `raw` contributes caption text `c`.
pub open spec fn appears_before(raw: Seq<Seq<char>>, c: Seq<char>, j: int) -> bool {
    exists|i: int| i < j && contributes(raw, i, c)
}

/// The text of any WebVTT file has its words separated by single spaces and
/// no other white space: none at the ends, none repeated, no tabs or breaks.
pub proof fn lemma_vtt_text_normalized(input: Seq<char>)
    ensures
        is_normalized(vtt_text(input)),
{
    lemma_normalize_ws_normalized(join(unique_captions(lines(input)), seq![' ']));
}

/// Rolling captions are deduplicated line by line: the kept lines are
/// distinct and non-empty, each is the caption text of some line, every
/// non-empty caption text of a line is kept, and they come in the order of
/// their first appearance.
pub proof fn lemma_unique_captions(raw: Seq<Seq<char>>)
    ensures
        unique_captions(raw).no_duplicates(),
        forall|k: int|
            0 <= k < unique_captions(raw).len() ==> (#[trigger] unique_captions(raw)[k]).len() > 0
                && exists|i: int| contributes(raw, i, unique_captions(raw)[k]),
        forall|i: int|
            0 <= i < raw.len() && (#[trigger] caption_text(raw[i])).len() > 0
                ==> unique_captions(raw).contains(caption_text(raw[i])),
        forall|k1: int, k2: int, j: int|
            #![trigger contributes(raw, j, unique_captions(raw)[k2]), unique_captions(raw)[k1]]
            0 <= k1 < k2 < unique_captions(raw).len() && contributes(raw, j, unique_captions(raw)[k2])
                ==> appears_before(raw, unique_captions(raw)[k1], j),
    decreases raw.len(),
{
    if raw.len() > 0 {
        let front = raw.drop_last();
        lemma_unique_captions(front);
        let prev = unique_captions(front);
        let u = unique_captions(raw);
        let n = raw.len() - 1;
        let c = caption_text(raw[n]);
        assert(raw.last() == raw[n]);
        assert forall|i: int, x: Seq<char>| contributes(front, i, x) implies contributes(raw, i, x) by {
            assert(front[i] == raw[i]);
        }
        if c.len() == 0 || prev.contains(c) {
            assert(u == prev);
            assert forall|i: int|
                0 <= i < raw.len() && (#[trigger] caption_text(raw[i])).len() > 0
                implies u.contains(caption_text(raw[i])) by {
                if i < n {
                    assert(front[i] == raw[i]);
                }
            }
            assert forall|k1: int, k2: int, j: int|
                #![trigger contributes(raw, j, unique_captions(raw)[k2]), unique_captions(raw)[k1]]
                0 <= k1 < k2 < unique_captions(raw).len() && contributes(raw, j, unique_captions(raw)[k2])
                implies appears_before(raw, unique_captions(raw)[k1], j) by {
                assert(u[k1] == prev[k1] && u[k2] == prev[k2]);
                let jj = if j < n {
                    j
                } else {
                    choose|i: int| contributes(front, i, prev[k2])
                };
                assert(contributes(front, jj, prev[k2]));
                assert(jj <= j);
                let i = choose|i: int| i < jj && contributes(front, i, prev[k1]);
                assert(contributes(front, i, prev[k1]));
                assert(contributes(raw, i, u[k1]));
            }
        } else {
            assert(u == prev.push(c));
            assert forall|k: int|
                0 <= k < u.len() implies (#[trigger] u[k]).len() > 0 && exists|i: int|
                    contributes(raw, i, u[k]) by {
                if k < prev.len() {
                    assert(u[k] == prev[k]);
                } else {
                    assert(contributes(raw, n, u[k]));
                }
            }
            assert forall|i: int|
                0 <= i < raw.len() && (#[trigger] caption_text(raw[i])).len() > 0
                implies u.contains(caption_text(raw[i])) by {
                if i < n {
                    assert(front[i] == raw[i]);
                    let k = choose|k: int| 0 <= k < prev.len() && prev[k] == caption_text(raw[i]);
                    assert(u[k] == prev[k]);
                } else {
                    assert(u[u.len() - 1] == c);
                }
            }
            assert forall|k1: int, k2: int, j: int|
                #![trigger contributes(raw, j, unique_captions(raw)[k2]), unique_captions(raw)[k1]]
                0 <= k1 < k2 < unique_captions(raw).len() && contributes(raw, j, unique_captions(raw)[k2])
                implies appears_before(raw, unique_captions(raw)[k1], j) by {
                assert(u[k1] == prev[k1]);
                if k2 < prev.len() {
                    assert(u[k2] == prev[k2]);
                    let jj = if j < n {
                        j
                    } else {
                        choose|i: int| contributes(front, i, prev[k2])
                    };
                    assert(contributes(front, jj, prev[k2]));
                    assert(jj <= j);
                    let i = choose|i: int| i < jj && contributes(front, i, prev[k1]);
                    assert(contributes(front, i, prev[k1]));
                    assert(contributes(raw, i, u[k1]));
                } else {
                    assert(u[k2] == c);
                    let i1 = choose|i: int| contributes(front, i, prev[k1]);
                    assert(contributes(front, i1, prev[k1]));
                    if j < n {
                        assert(front[j] == raw[j]);
                        assert(prev.contains(c));
                    }
                    assert(contributes(raw, i1, u[k1]));
                }
            }
            assert(u.no_duplicates()) by {
                assert forall|a: int, b: int| 0 <= a < u.len() && 0 <= b < u.len() && a != b implies u[a] != u[b] by {
                    if a < prev.len() && b < prev.len() {
                        assert(u[a] == prev[a] && u[b] == prev[b]);
                    } else if a < prev.len() {
                        assert(u[a] == prev[a]);
                    } else if b < prev.len() {
                        assert(u[b] == prev[b]);
                    }
                }
            }
        }
    }
}

/// The distinct caption texts of the lines `raw`, continuing after the
/// already kept texts `u`.
pub open spec fn unique_after(u: Seq<Seq<char>>, raw: Seq<Seq<char>>) -> Seq<Seq<char>>
    decreases raw.len(),
{
    if raw.len() == 0 {
        u
    } else {
        let prev = unique_after(u, raw.drop_last());
        let c = caption_text(raw.last());
        if c.len() == 0 || prev.contains(c) {
            prev
        } else {
            prev.push(c)
        }
    }
}

proof fn lemma_unique_concat(r1: Seq<Seq<char>>, r2: Seq<Seq<char>>)
    ensures
        unique_captions(r1 + r2) == unique_after(unique_captions(r1), r2),
    decreases r2.len(),
{
    if r2.len() == 0 {
        assert(r1 + r2 =~= r1);
    } else {
        lemma_unique_concat(r1, r2.drop_last());
        assert((r1 + r2).drop_last() =~= r1 + r2.drop_last());
        assert((r1 + r2).last() == r2.last());
    }
}

proof fn lemma_unique_after_extends(u: Seq<Seq<char>>, raw: Seq<Seq<char>>)
    ensures
        u.len() <= unique_after(u, raw).len(),
        unique_after(u, raw) =~= u + unique_after(u, raw).skip(u.len() as int),
    decreases raw.len(),
{
    if raw.len() > 0 {
        lemma_unique_after_extends(u, raw.drop_last());
    }
}

proof fn lemma_unique_line_closed(a: Seq<char>)
    ensures
        unique_captions(lines_scan(a).0.push(strip_cr(lines_scan(a).1))) == unique_captions(lines(a)),
{
    let (d, c) = lines_scan(a);
    let l = d.push(strip_cr(c));
    assert(l.drop_last() =~= d);
    if c.len() > 0 {
        assert(lines(a) == d.push(c));
        assert(d.push(c).drop_last() =~= d);
        if c.last() == '\r' {
            assert(c =~= c.drop_last().push('\r'));
            lemma_trim_push_ws(c.drop_last(), '\r');
        }
        assert(caption_text(strip_cr(c)) == caption_text(c));
    } else {
        assert(strip_cr(c) =~= Seq::<char>::empty());
        assert(trim(Seq::<char>::empty()) == Seq::<char>::empty());
    }
}

/// Only headers, timings, numeric cue identifiers and markup are dropped: a
/// line that does not begin with `WEBVTT`, `Kind:`, `Language:` or `NOTE`
/// (once trimmed), is not a timing line and is not a numeric cue identifier
/// contributes its text without markup, trimmed; alone in a file, that text
/// (with white space normalized) is the whole transcript.
pub proof fn lemma_caption_line_kept(raw: Seq<char>)
    requires
        forall|i: int| 0 <= i < raw.len() ==> raw[i] != '\n',
        trim(raw).len() > 0,
        !starts_with(trim(raw), "WEBVTT"@),
        !starts_with(trim(raw), "Kind:"@),
        !starts_with(trim(raw), "Language:"@),
        !starts_with(trim(raw), "NOTE"@),
        !is_timestamp(trim(raw)),
        !is_cue_id(trim(raw)),
    ensures
        caption_text(raw) == trim(strip_tags(trim(raw))),
        vtt_text(raw) == normalize_ws(trim(strip_tags(trim(raw)))),
{
    lemma_lines_single(raw);
    assert(raw.len() > 0);
    assert(lines(raw) =~= seq![raw]);
    let c = caption_text(raw);
    assert(seq![raw].drop_last() =~= Seq::<Seq<char>>::empty());
    assert(seq![raw].last() == raw);
    let e = Seq::<Seq<char>>::empty();
    assert(unique_captions(e) == e);
    assert(!e.contains(c));
    if c.len() > 0 {
        assert(unique_captions(seq![raw]) =~= seq![c]);
        assert(join(seq![c], seq![' ']) == c);
    } else {
        assert(unique_captions(seq![raw]) =~= Seq::<Seq<char>>::empty());
        assert(c =~= Seq::<char>::empty());
        assert(join(Seq::<Seq<char>>::empty(), seq![' ']) =~= c);
    }
}

/// Lines appended after a line break only add text at the end: the text of
/// a caption file starts with the text of any part of it that ends where a
/// line ends.
pub proof fn lemma_vtt_text_prefix(a: Seq<char>, b: Seq<char>)
    ensures
        starts_with(vtt_text(a + seq!['\n'] + b), vtt_text(a)),
{
    let l = lines_scan(a).0.push(strip_cr(lines_scan(a).1));
    lemma_lines_break_concat(a, b);
    lemma_unique_concat(l, lines(b));
    lemma_unique_line_closed(a);
    let u1 = unique_captions(lines(a));
    let big = unique_after(u1, lines(b));
    lemma_unique_after_extends(u1, lines(b));
    let t = big.skip(u1.len() as int);
    let whole = vtt_text(a + seq!['\n'] + b);
    if u1.len() == 0 {
        assert(words(Seq::<char>::empty()) =~= Seq::<Seq<char>>::empty());
        assert(vtt_text(a) =~= Seq::<char>::empty());
        assert(whole.take(0) =~= Seq::<char>::empty());
    } else if t.len() == 0 {
        assert(big =~= u1);
        assert(whole.take(whole.len() as int) =~= whole);
    } else {
        lemma_join_concat(u1, t, seq![' ']);
        lemma_normalize_ws_prefix(join(u1, seq![' ']), join(t, seq![' ']));
    }
}

/// A line repeated at the end of a caption file, however far from where it
/// first appeared, adds nothing to its text.
pub proof fn lemma_vtt_text_seen_line(input: Seq<char>, k: int)
    requires
        0 <= k < lines(input).len(),
    ensures
        vtt_text(input + seq!['\n'] + lines(input)[k]) == vtt_text(input),
{
    let line = lines(input)[k];
    let l = lines_scan(input).0.push(strip_cr(lines_scan(input).1));
    lemma_lines_break_concat(input, line);
    lemma_unique_concat(l, lines(line));
    lemma_unique_line_closed(input);
    lemma_lines_no_break(input);
    assert forall|i: int| 0 <= i < line.len() implies line[i] != '\n' by {
        assert(lines(input)[k][i] != '\n');
    }
    lemma_lines_single(line);
    let u1 = unique_captions(lines(input));
    lemma_unique_captions(lines(input));
    if line.len() > 0 {
        assert(lines(line) =~= seq![line]);
        assert(seq![line].drop_last() =~= Seq::<Seq<char>>::empty());
        assert(unique_after(u1, seq![line].drop_last()) == u1);
        assert(seq![line].last() == line);
        if caption_text(line).len() > 0 {
            assert(u1.contains(caption_text(lines(input)[k])));
        }
        assert(unique_after(u1, seq![line]) == u1);
    } else {
        assert(lines(line) =~= Seq::<Seq<char>>::empty());
    }
}

/// `s` holds a match of `<[^>]+>`.
pub open spec fn has_tag(s: Seq<char>) -> bool {
    exists|i: int| 0 <= i < s.len() && (#[trigger] tag_len(s.skip(i))) is Some
}

proof fn lemma_first_gt_range(s: Seq<char>)
    ensures
        first_gt(s) matches Some(j) ==> 0 <= j < s.len() && s[j] == '>',
    decreases s.len(),
{
    if s.len() > 0 && s[0] != '>' {
        lemma_first_gt_range(s.drop_first());
    }
}

proof fn lemma_strip_tags_len(s: Seq<char>)
    ensures
        strip_tags(s).len() <= s.len(),
        has_tag(s) ==> strip_tags(s).len() < s.len(),
        !has_tag(s) ==> strip_tags(s) == s,
    decreases s.len(),
{
    if s.len() > 0 {
        let rest = s.drop_first();
        lemma_first_gt_range(s);
        assert(s.skip(0) =~= s);
        match tag_len(s) {
            Some(n) => {
                lemma_strip_tags_len(s.skip(n));
                assert(tag_len(s.skip(0)) is Some);
            },
            None => {
                lemma_strip_tags_len(rest);
                assert forall|i: int| 1 <= i < s.len() implies s.skip(i) =~= rest.skip(i - 1) by {}
                if has_tag(s) {
                    let i = choose|i: int| 0 <= i < s.len() && (#[trigger] tag_len(s.skip(i))) is Some;
                    assert(i != 0);
                    assert(tag_len(rest.skip(i - 1)) is Some);
                }
                if has_tag(rest) {
                    let i = choose|i: int| 0 <= i < rest.len() && (#[trigger] tag_len(rest.skip(i))) is Some;
                    assert(s.skip(i + 1) =~= rest.skip(i));
                    assert(tag_len(s.skip(i + 1)) is Some);
                } else {
                    assert(seq![s[0]] + rest =~= s);
                }
            },
        }
    }
}

proof fn lemma_first_gt_none(s: Seq<char>)
    ensures
        first_gt(s) is None <==> forall|i: int| 0 <= i < s.len() ==> s[i] != '>',
    decreases s.len(),
{
    if s.len() > 0 {
        lemma_first_gt_none(s.drop_first());
        if s[0] != '>' {
            assert forall|i: int| 1 <= i < s.len() implies s[i] == s.drop_first()[i - 1] by {}
        }
    }
}

proof fn lemma_first_gt_prefix(p: Seq<char>, q: Seq<char>)
    requires
        first_gt(p) is Some,
        p.len() <= q.len(),
        q.take(p.len() as int) == p,
    ensures
        first_gt(q) == first_gt(p),
    decreases p.len(),
{
    assert(q[0] == p[0]);
    if p[0] != '>' {
        assert(q.drop_first().take(p.len() - 1) =~= p.drop_first());
        lemma_first_gt_prefix(p.drop_first(), q.drop_first());
    }
}

proof fn lemma_strip_keeps_no_gt(s: Seq<char>)
    requires
        forall|i: int| 0 <= i < s.len() ==> s[i] != '>',
    ensures
        forall|i: int| 0 <= i < strip_tags(s).len() ==> strip_tags(s)[i] != '>',
    decreases s.len(),
{
    if s.len() > 0 {
        lemma_first_gt_none(s);
        let rest = s.drop_first();
        lemma_strip_keeps_no_gt(rest);
        let out = seq![s[0]] + strip_tags(rest);
        assert forall|i: int| 0 <= i < out.len() implies out[i] != '>' by {
            if i > 0 {
                assert(out[i] == strip_tags(rest)[i - 1]);
            }
        }
    }
}

/// No match of `<[^>]+>` is left after they are all removed in one pass.
pub proof fn lemma_strip_tags_leaves_no_tag(s: Seq<char>)
    ensures
        !has_tag(strip_tags(s)),
    decreases s.len(),
{
    if s.len() > 0 {
        lemma_first_gt_range(s);
        match tag_len(s) {
            Some(n) => {
                lemma_strip_tags_leaves_no_tag(s.skip(n));
            },
            None => {
                let rest = s.drop_first();
                let x = strip_tags(rest);
                lemma_strip_tags_leaves_no_tag(rest);
                let out = seq![s[0]] + x;
                assert(strip_tags(s) == out);
                assert forall|i: int| 0 <= i < out.len() implies !(#[trigger] tag_len(out.skip(i)) is Some) by {
                    if i > 0 {
                        assert(out.skip(i) =~= x.skip(i - 1));
                    } else if s[0] == '<' {
                        assert(out.skip(0) =~= out);
                        if first_gt(s) is None {
                            lemma_first_gt_none(s);
                            assert forall|k: int| 0 <= k < rest.len() implies rest[k] != '>' by {
                                assert(rest[k] == s[k + 1]);
                            }
                            lemma_strip_keeps_no_gt(rest);
                            assert forall|k: int| 0 <= k < out.len() implies out[k] != '>' by {
                                if k > 0 {
                                    assert(out[k] == x[k - 1]);
                                }
                            }
                            lemma_first_gt_none(out);
                        } else {
                            let j = first_gt(s)->0;
                            assert(j < 2);
                            assert(j == 1) by {
                                if j == 0 {
                                    assert(s[0] == '>');
                                }
                            }
                            assert(s[1] == '>');
                            assert(rest[0] == '>');
                            assert(tag_len(rest) is None);
                            assert(x == seq![rest[0]] + strip_tags(rest.drop_first()));
                            assert(out[1] == '>');
                            assert(first_gt(out.drop_first()) == Some(0int));
                            assert(first_gt(out) == Some(1int));
                        }
                    }
                }
            },
        }
    }
}

proof fn lemma_no_tag_skip(x: Seq<char>, k: int)
    requires
        0 <= k <= x.len(),
        !has_tag(x),
    ensures
        !has_tag(x.skip(k)),
{
    assert forall|i: int| 0 <= i < x.skip(k).len() implies !(#[trigger] tag_len(x.skip(k).skip(i)) is Some) by {
        assert(x.skip(k).skip(i) =~= x.skip(k + i));
    }
}

proof fn lemma_no_tag_take(x: Seq<char>, m: int)
    requires
        0 <= m <= x.len(),
        !has_tag(x),
    ensures
        !has_tag(x.take(m)),
{
    let y = x.take(m);
    assert forall|i: int| 0 <= i < y.len() implies !(#[trigger] tag_len(y.skip(i)) is Some) by {
        let p = y.skip(i);
        let q = x.skip(i);
        assert(q.take(p.len() as int) =~= p);
        if tag_len(p) is Some {
            lemma_first_gt_prefix(p, q);
            assert(tag_len(q) is Some);
        }
    }
}

/// `clean_line` leaves a trimmed text holding no markup tag, so cleaning it
/// again changes nothing.
pub proof fn lemma_clean_line_twice(line: Seq<char>)
    ensures
        trim(cleaned(line)) == cleaned(line),
        !has_tag(cleaned(line)),
        cleaned(cleaned(line)) == cleaned(line),
{
    let x = strip_tags(line);
    lemma_trim_idempotent(x);
    lemma_strip_tags_leaves_no_tag(line);
    let t = trim_start(x);
    lemma_trim_start_is_suffix(x);
    lemma_no_tag_skip(x, x.len() - t.len());
    lemma_trim_end_shape(t);
    lemma_no_tag_take(t, trim_end(t).len() as int);
    let c = cleaned(line);
    lemma_strip_tags_len(c);
}

} // verus!
