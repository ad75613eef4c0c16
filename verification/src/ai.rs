//! Transcript cleaning with a chat-completion service (Groq): the client's
//! settings, what is sent for a transcript, how long transcripts are cut into
//! chunks, and how the answers are read back.

use vstd::prelude::*;

use crate::errors::CaptionError;
use crate::text::{
    all_ws, chars_of, concat3_strs, concat_strs, contains, is_blank, is_ws, join, join_chars,
    lemma_trim_keeps_inner, lemma_trim_len, occurs_at, push_all, string_from_chars, trim, trim_chars,
};

verus! {

/// Base address of the Groq API.
pub const DEFAULT_ENDPOINT: &'static str = "https://api.groq.com/openai/v1";

/// Model used for cleaning.
pub const DEFAULT_MODEL: &'static str = "llama-3.1-8b-instant";

/// Longest text, in characters, sent in one request.
pub const MAX_CHUNK_SIZE: usize = 8000;

/// Instructions sent with every chunk.
pub const SYSTEM_PROMPT: &'static str = r#"
You are a transcript cleaner and light rewriter.

Your task is to:
- Fix spelling mistakes
- Fix grammar mistakes
- Fix punctuation
- Fix capitalization
- Fix spacing and broken line formatting
- Lightly rewrite to remove repeated phrases or redundant sentences

You MUST NOT:
- Change meaning in any way
- Add new facts or ideas
- Omit any essential information

Preserve the original language and tone as much as possible.
Only remove repetitions or obvious redundancies when it does not change content.
Merge lines only when they are clearly part of the same sentence.

Return ONLY the cleaned transcript text.
"#;

/// State of a left-to-right scan that cuts `s` at each `"\n\n"`, taking the
/// separators leftmost first and without overlap: the finished pieces and
/// the piece in progress.
pub open spec fn paragraph_scan(s: Seq<char>) -> (Seq<Seq<char>>, Seq<char>)
    decreases s.len(),
{
    if s.len() == 0 {
        (Seq::empty(), Seq::empty())
    } else {
        let (done, cur) = paragraph_scan(s.drop_last());
        if s.last() == '\n' && cur.len() > 0 && cur.last() == '\n' {
            (done.push(cur.drop_last()), Seq::empty())
        } else {
            (done, cur.push(s.last()))
        }
    }
}

/// `str::split("\n\n")`: the pieces between separators, empty ones included;
/// there is always at least one.
pub open spec fn paragraphs(s: Seq<char>) -> Seq<Seq<char>> {
    let (done, cur) = paragraph_scan(s);
    done.push(cur)
}

/// The blank-line separator between paragraphs and between cleaned chunks.
pub open spec fn paragraph_sep() -> Seq<char> {
    seq!['\n', '\n']
}

/// One step of chunking: when the chunk in progress is non-empty and adding
/// the paragraph and a separator would pass `max` characters, the chunk is
/// finished (trimmed); the paragraph is then appended, after a separator
/// when the chunk in progress is non-empty.
pub open spec fn chunk_step(
    state: (Seq<Seq<char>>, Seq<char>),
    para: Seq<char>,
    max: int,
) -> (Seq<Seq<char>>, Seq<char>) {
    let (chunks, cur) = state;
    let full = cur.len() > 0 && cur.len() + para.len() + 2 > max;
    let chunks2 = if full {
        chunks.push(trim(cur))
    } else {
        chunks
    };
    let cur2 = if full {
        Seq::empty()
    } else {
        cur
    };
    let cur3 = if cur2.len() > 0 {
        cur2 + paragraph_sep()
    } else {
        cur2
    };
    (chunks2, cur3 + para)
}

/// Chunking state after the paragraphs `paras`, in order.
pub open spec fn chunk_scan(paras: Seq<Seq<char>>, max: int) -> (Seq<Seq<char>>, Seq<char>)
    decreases paras.len(),
{
    if paras.len() == 0 {
        (Seq::empty(), Seq::empty())
    } else {
        chunk_step(chunk_scan(paras.drop_last(), max), paras.last(), max)
    }
}

/// The chunks of `text` for requests of at most `max` characters, cut at
/// paragraph boundaries; a paragraph longer than `max` stays whole.
pub open spec fn chunks_of(text: Seq<char>, max: int) -> Seq<Seq<char>> {
    let (chunks, cur) = chunk_scan(paragraphs(text), max);
    if cur.len() > 0 {
        chunks.push(trim(cur))
    } else {
        chunks
    }
}

/// `str::split("\n\n")` on a character vector.
pub fn split_paragraphs(v: &Vec<char>) -> (r: Vec<Vec<char>>)
    ensures
        r.deep_view() == paragraphs(v@),
{
    let mut done: Vec<Vec<char>> = Vec::new();
    let mut cur: Vec<char> = Vec::new();
    let mut i: usize = 0;
    while i < v.len()
        invariant
            i <= v.len(),
            (done.deep_view(), cur@) == paragraph_scan(v@.take(i as int)),
        decreases v.len() - i,
    {
        proof {
            assert(v@.take(i + 1).drop_last() =~= v@.take(i as int));
        }
        let c = v[i];
        let n = cur.len();
        if c == '\n' && n > 0 && cur[n - 1] == '\n' {
            let ghost old_done = done.deep_view();
            let mut finished = cur;
            cur = Vec::new();
            finished.pop();
            assert(finished.deep_view() =~= finished@);
            done.push(finished);
            assert(done.deep_view() =~= old_done.push(finished@));
        } else {
            cur.push(c);
        }
        i = i + 1;
    }
    assert(v@.take(i as int) =~= v@);
    let ghost old_done = done.deep_view();
    assert(cur.deep_view() =~= cur@);
    done.push(cur);
    assert(done.deep_view() =~= old_done.push(paragraph_scan(v@).1));
    done
}

/// Splits `text` into chunks at paragraph boundaries (blank lines) so that
/// each request stays under `max_size` characters where paragraphs allow it.
///
/// Paragraphs are gathered into a chunk while the chunk, a separator and the
/// next paragraph fit in `max_size` characters; a paragraph that alone is longer
/// than `max_size` makes a chunk of its own. Chunks are trimmed.
pub fn split_into_chunks(text: &str, max_size: usize) -> (r: Vec<String>)
    ensures
        r.deep_view() == chunks_of(text@, max_size as int),
{
    let v = chars_of(text);
    let paras = split_paragraphs(&v);
    let mut chunks: Vec<String> = Vec::new();
    let mut cur: Vec<char> = Vec::new();
    let mut i: usize = 0;
    while i < paras.len()
        invariant
            i <= paras.len(),
            paras.deep_view() == paragraphs(text@),
            (chunks.deep_view(), cur@) == chunk_scan(paras.deep_view().take(i as int), max_size as int),
        decreases paras.len() - i,
    {
        let ghost before = (chunks.deep_view(), cur@);
        let ghost para = paras.deep_view()[i as int];
        proof {
            let t = paras.deep_view().take(i + 1);
            assert(t.drop_last() =~= paras.deep_view().take(i as int));
            assert(t.last() == para);
            assert(paras[i as int]@ == para);
        }
        if cur.len() > 0 && cur.len() as u128 + paras[i].len() as u128 + 2 > max_size as u128 {
            let ghost old_chunks = chunks.deep_view();
            let t = trim_chars(&cur);
            let s = string_from_chars(&t);
            chunks.push(s);
            assert(chunks.deep_view() =~= old_chunks.push(trim(before.1)));
            cur = Vec::new();
        }
        if cur.len() > 0 {
            let ghost c0 = cur@;
            cur.push('\n');
            cur.push('\n');
            assert(cur@ =~= c0 + paragraph_sep());
        }
        push_all(&mut cur, &paras[i]);
        i = i + 1;
    }
    assert(paras.deep_view().take(i as int) =~= paras.deep_view());
    if cur.len() > 0 {
        let ghost old_chunks = chunks.deep_view();
        let t = trim_chars(&cur);
        let s = string_from_chars(&t);
        chunks.push(s);
        assert(chunks.deep_view() =~= old_chunks.push(trim(cur@)));
    }
    chunks
}

/// Connection settings for the Groq API: the key and the base address.
/// The HTTP connection pool lives with the caller that performs the requests.
#[derive(Debug, Clone)]
pub struct GroqClient {
    pub api_key: String,
    pub endpoint: String,
}

/// The base address a client uses: the one given, else the default.
pub open spec fn endpoint_or_default(endpoint: Option<String>) -> Seq<char> {
    match endpoint {
        Some(e) => e@,
        None => DEFAULT_ENDPOINT@,
    }
}

/// Outcome of looking for an API key: a client for it, or `MissingApiKey`.
pub open spec fn client_for_key(key: Option<String>, r: Result<GroqClient, CaptionError>) -> bool {
    match key {
        Some(k) => r matches Ok(c) && c.api_key@ == k@ && c.endpoint@ == DEFAULT_ENDPOINT@,
        None => r matches Err(CaptionError::MissingApiKey(name)) && name@ == "GROQ_API_KEY"@,
    }
}

impl GroqClient {
    /// A client for `api_key`, talking to `endpoint` or to the default endpoint.
    pub fn new(api_key: String, endpoint: Option<String>) -> (r: Self)
        ensures
            r.api_key@ == api_key@,
            r.endpoint@ == endpoint_or_default(endpoint),
    {
        let ep = match endpoint {
            Some(e) => e,
            None => DEFAULT_ENDPOINT.to_owned(),
        };
        GroqClient { api_key, endpoint: ep }
    }

    /// A client for the key read from the `GROQ_API_KEY` environment
    /// variable (`None` when it is unset); `MissingApiKey` without one.
    pub fn from_env(env_key: Option<String>) -> (r: Result<Self, CaptionError>)
        ensures
            client_for_key(env_key, r),
    {
        match env_key {
            Some(k) => Ok(GroqClient::new(k, None)),
            None => Err(CaptionError::MissingApiKey("GROQ_API_KEY".to_owned())),
        }
    }

    /// A client for the effective key of the application (the stored key,
    /// else the environment's); `MissingApiKey` without one.
    pub fn from_app(effective_key: Option<String>) -> (r: Result<Self, CaptionError>)
        ensures
            client_for_key(effective_key, r),
    {
        match effective_key {
            Some(k) => Ok(GroqClient::new(k, None)),
            None => Err(CaptionError::MissingApiKey("GROQ_API_KEY".to_owned())),
        }
    }

    /// Address of the API operation at `path` (e.g. `/chat/completions`).
    pub fn request_url(&self, path: &str) -> (r: String)
        ensures
            r@ == self.endpoint@ + path@,
    {
        concat_strs(&self.endpoint, path)
    }

    /// Value of the `Authorization` header.
    pub fn authorization(&self) -> (r: String)
        ensures
            r@ == "Bearer "@ + self.api_key@,
    {
        concat_strs("Bearer ", &self.api_key)
    }
}

/// One message of a chat-completion request.
#[derive(Debug)]
pub struct ChatMessage {
    pub role: String,
    pub content: String,
}

/// The messages sent to clean one chunk: the cleaning instructions as the
/// system message, then the chunk as the user message.
pub fn chunk_messages(text: &str) -> (r: Vec<ChatMessage>)
    ensures
        r.len() == 2,
        r[0].role@ == "system"@,
        r[0].content@ == SYSTEM_PROMPT@,
        r[1].role@ == "user"@,
        r[1].content@ == text@,
{
    let mut v: Vec<ChatMessage> = Vec::new();
    v.push(ChatMessage { role: "system".to_owned(), content: SYSTEM_PROMPT.to_owned() });
    v.push(ChatMessage { role: "user".to_owned(), content: text.to_owned() });
    v
}

/// The error for an answer with a failure status: the status and the body.
pub fn api_status_error(status: &str, body: &str) -> (r: CaptionError)
    ensures
        r matches CaptionError::ApiError(m) && m@ == "Groq API error ("@ + status@ + "): "@ + body@,
{
    let head = concat3_strs("Groq API error (", status, "): ");
    CaptionError::ApiError(concat_strs(&head, body))
}

/// The text of a completion, given the contents of its choices in order:
/// the first one, trimmed; `ApiError("Empty response from Groq")` when there
/// is no choice.
pub fn completion_text(contents: &Vec<String>) -> (r: Result<String, CaptionError>)
    ensures
        contents.len() > 0 ==> (r matches Ok(t) && t@ == trim(contents[0]@)),
        contents.len() == 0 ==> (r matches Err(CaptionError::ApiError(m)) && m@
            == "Empty response from Groq"@),
{
    if contents.len() == 0 {
        return Err(CaptionError::ApiError("Empty response from Groq".to_owned()));
    }
    let v = chars_of(&contents[0]);
    Ok(string_from_chars(&trim_chars(&v)))
}

/// How a transcript is sent for cleaning.
#[derive(Debug)]
pub enum CleaningPlan {
    /// The transcript is blank; the cleaned text is empty and nothing is sent.
    Nothing,
    /// The transcript fits in one request and is sent as it is.
    Whole,
    /// The transcript is sent as these chunks; the cleaned chunks are joined
    /// with blank lines.
    Chunks(Vec<String>),
}

/// Decides how `text` is cleaned: nothing for a blank text, one request when
/// it fits in `MAX_CHUNK_SIZE` characters, else one request per chunk.
pub fn plan_cleaning(text: &str) -> (r: CleaningPlan)
    ensures
        (r is Nothing) == all_ws(text@),
        (r is Whole) == (!all_ws(text@) && text@.len() <= MAX_CHUNK_SIZE),
        r matches CleaningPlan::Chunks(c) ==> !all_ws(text@) && text@.len() > MAX_CHUNK_SIZE
            && c.deep_view() == chunks_of(text@, MAX_CHUNK_SIZE as int),
{
    let v = chars_of(text);
    if is_blank(&v) {
        return CleaningPlan::Nothing;
    }
    if v.len() <= MAX_CHUNK_SIZE {
        return CleaningPlan::Whole;
    }
    CleaningPlan::Chunks(split_into_chunks(text, MAX_CHUNK_SIZE))
}

/// The cleaned chunks joined with blank lines.
pub fn join_cleaned(parts: &Vec<String>) -> (r: String)
    ensures
        r@ == join(parts.deep_view(), paragraph_sep()),
{
    let mut vs: Vec<Vec<char>> = Vec::new();
    let mut i: usize = 0;
    while i < parts.len()
        invariant
            i <= parts.len(),
            vs.deep_view() == parts.deep_view().take(i as int),
        decreases parts.len() - i,
    {
        let c = chars_of(parts[i].as_str());
        assert(c@ == parts[i as int]@);
        let ghost before = vs.deep_view();
        assert(c.deep_view() =~= c@);
        assert(parts.deep_view()[i as int] == parts[i as int]@);
        vs.push(c);
        assert(vs.deep_view() =~= before.push(parts.deep_view()[i as int]));
        assert(parts.deep_view().take(i + 1) =~= parts.deep_view().take(i as int).push(
            parts.deep_view()[i as int],
        ));
        i = i + 1;
    }
    assert(parts.deep_view().take(i as int) =~= parts.deep_view());
    let sep: Vec<char> = vec!['\n', '\n'];
    assert(sep@ =~= paragraph_sep());
    string_from_chars(&join_chars(&vs, &sep))
}

proof fn lemma_paragraph_scan_no_sep(s: Seq<char>)
    requires
        !contains(s, paragraph_sep()),
    ensures
        paragraph_scan(s) == (Seq::<Seq<char>>::empty(), s),
    decreases s.len(),
{
    if s.len() > 0 {
        let front = s.drop_last();
        assert forall|i: int| !occurs_at(front, paragraph_sep(), i) by {
            if occurs_at(front, paragraph_sep(), i) {
                assert(s.subrange(i, i + 2) =~= front.subrange(i, i + 2));
                assert(occurs_at(s, paragraph_sep(), i));
            }
        }
        lemma_paragraph_scan_no_sep(front);
        if s.last() == '\n' && front.len() > 0 && front.last() == '\n' {
            assert(s.subrange(s.len() - 2, s.len() as int) =~= paragraph_sep());
            assert(occurs_at(s, paragraph_sep(), s.len() - 2));
        }
        assert(front.push(s.last()) =~= s);
    }
}

/// A text without a blank line is one paragraph: it comes back as one
/// chunk, trimmed, however long it is (and an empty text gives no chunk).
pub proof fn lemma_single_paragraph_chunk(text: Seq<char>, max: int)
    requires
        !contains(text, paragraph_sep()),
    ensures
        text.len() > 0 ==> chunks_of(text, max) == seq![trim(text)],
        text.len() == 0 ==> chunks_of(text, max) == Seq::<Seq<char>>::empty(),
{
    lemma_paragraph_scan_no_sep(text);
    let ps = paragraphs(text);
    assert(ps =~= seq![text]);
    assert(ps.drop_last() =~= Seq::<Seq<char>>::empty());
    let e: (Seq<Seq<char>>, Seq<char>) = (Seq::empty(), Seq::empty());
    assert(chunk_scan(ps.drop_last(), max) == e);
    assert(ps.last() == text);
    assert(chunk_step(e, text, max).1 =~= text);
    assert(chunk_step(e, text, max).0 =~= Seq::<Seq<char>>::empty());
    assert(chunk_scan(ps, max) == chunk_step(e, text, max));
}

/// A piece of chunking: within `max` characters, or one of the paragraphs `ps`.
pub open spec fn fits_or_paragraph(c: Seq<char>, ps: Seq<Seq<char>>, max: int) -> bool {
    c.len() <= max || exists|k: int| 0 <= k < ps.len() && c == ps[k]
}

/// A finished chunk: within `max` characters, or one of the paragraphs `ps` trimmed.
pub open spec fn fits_or_trimmed_paragraph(c: Seq<char>, ps: Seq<Seq<char>>, max: int) -> bool {
    c.len() <= max || exists|k: int| 0 <= k < ps.len() && c == trim(ps[k])
}

proof fn lemma_chunk_scan_bound(ps: Seq<Seq<char>>, max: int)
    requires
        0 <= max,
    ensures
        forall|k: int|
            0 <= k < chunk_scan(ps, max).0.len() ==> fits_or_trimmed_paragraph(
                #[trigger] chunk_scan(ps, max).0[k],
                ps,
                max,
            ),
        fits_or_paragraph(chunk_scan(ps, max).1, ps, max),
    decreases ps.len(),
{
    if ps.len() > 0 {
        let front = ps.drop_last();
        lemma_chunk_scan_bound(front, max);
        let (chunks, cur) = chunk_scan(front, max);
        let para = ps.last();
        let n = ps.len() - 1;
        assert(ps[n] == para);
        assert forall|c: Seq<char>| fits_or_trimmed_paragraph(c, front, max) implies fits_or_trimmed_paragraph(c, ps, max) by {
            if c.len() > max {
                let k = choose|k: int| 0 <= k < front.len() && c == trim(front[k]);
                assert(front[k] == ps[k]);
            }
        }
        let full = cur.len() > 0 && cur.len() + para.len() + 2 > max;
        let (chunks2, cur_new) = chunk_scan(ps, max);
        if full {
            assert(chunks2 == chunks.push(trim(cur)));
            lemma_trim_len(cur);
            if cur.len() > max {
                let k = choose|k: int| 0 <= k < front.len() && cur == front[k];
                assert(front[k] == ps[k]);
            }
            assert(fits_or_trimmed_paragraph(trim(cur), ps, max));
            assert forall|k: int| 0 <= k < chunks2.len() implies fits_or_trimmed_paragraph(
                #[trigger] chunks2[k],
                ps,
                max,
            ) by {
                if k < chunks.len() {
                    assert(chunks2[k] == chunks[k]);
                }
            }
            assert(cur_new =~= para);
            assert(cur_new == ps[n]);
        } else {
            assert(chunks2 == chunks);
            if cur.len() > 0 {
                assert(cur_new == cur + paragraph_sep() + para);
                assert(cur_new.len() <= max);
            } else {
                assert(cur_new =~= para);
                assert(cur_new == ps[n]);
            }
        }
    }
}

/// Chunks stay within the size limit: a chunk longer than `max` characters is a
/// single paragraph of the text, trimmed.
pub proof fn lemma_chunks_within_limit(text: Seq<char>, max: int)
    requires
        0 <= max,
    ensures
        forall|k: int|
            0 <= k < chunks_of(text, max).len() ==> fits_or_trimmed_paragraph(
                #[trigger] chunks_of(text, max)[k],
                paragraphs(text),
                max,
            ),
{
    let ps = paragraphs(text);
    lemma_chunk_scan_bound(ps, max);
    let (chunks, cur) = chunk_scan(ps, max);
    if cur.len() > 0 {
        lemma_trim_len(cur);
        if cur.len() > max {
            let k = choose|k: int| 0 <= k < ps.len() && cur == ps[k];
        }
        assert(fits_or_trimmed_paragraph(trim(cur), ps, max));
        let r = chunks_of(text, max);
        assert forall|k: int| 0 <= k < r.len() implies fits_or_trimmed_paragraph(#[trigger] r[k], ps, max) by {
            if k < chunks.len() {
                assert(r[k] == chunks[k]);
            }
        }
    }
}

/// Some chunk of `chunks` holds the text of `p`, trimmed.
pub open spec fn in_some_chunk(chunks: Seq<Seq<char>>, p: Seq<char>) -> bool {
    exists|j: int| 0 <= j < chunks.len() && #[trigger] contains(chunks[j], trim(p))
}

proof fn lemma_chunk_scan_keeps(ps: Seq<Seq<char>>, max: int)
    ensures
        forall|k: int|
            0 <= k < ps.len() && !all_ws(#[trigger] ps[k]) ==> in_some_chunk(
                chunk_scan(ps, max).0,
                ps[k],
            ) || contains(chunk_scan(ps, max).1, ps[k]),
    decreases ps.len(),
{
    if ps.len() > 0 {
        let front = ps.drop_last();
        lemma_chunk_scan_keeps(front, max);
        let (chunks, cur) = chunk_scan(front, max);
        let para = ps.last();
        let full = cur.len() > 0 && cur.len() + para.len() + 2 > max;
        let (chunks2, cur_new) = chunk_scan(ps, max);
        let cur2 = if full {
            Seq::<char>::empty()
        } else {
            cur
        };
        let cur3 = if cur2.len() > 0 {
            cur2 + paragraph_sep()
        } else {
            cur2
        };
        assert(cur_new == cur3 + para);
        assert forall|k: int|
            0 <= k < ps.len() && !all_ws(#[trigger] ps[k]) implies in_some_chunk(chunks2, ps[k])
            || contains(cur_new, ps[k]) by {
            if k == ps.len() - 1 {
                assert(cur_new.subrange(cur3.len() as int, cur_new.len() as int) =~= para);
                assert(occurs_at(cur_new, ps[k], cur3.len() as int));
            } else {
                assert(ps[k] == front[k]);
                if in_some_chunk(chunks, front[k]) {
                    let j = choose|j: int|
                        0 <= j < chunks.len() && #[trigger] contains(chunks[j], trim(front[k]));
                    if full {
                        assert(chunks2[j] == chunks[j]);
                    }
                    assert(contains(chunks2[j], trim(ps[k])));
                } else {
                    let p = front[k];
                    let i = choose|i: int| occurs_at(cur, p, i);
                    if full {
                        lemma_trim_keeps_inner(cur, p, i);
                        let n = chunks.len() as int;
                        assert(chunks2[n] == trim(cur));
                        assert(contains(chunks2[n], trim(ps[k])));
                    } else {
                        assert(cur_new.subrange(i, i + p.len()) =~= cur.subrange(i, i + p.len()));
                        assert(occurs_at(cur_new, p, i));
                    }
                }
            }
        }
    }
}

/// Chunking loses no text: every paragraph of the text that is not blank
/// occurs, trimmed, in one of the chunks.
pub proof fn lemma_chunks_keep_all_text(text: Seq<char>, max: int)
    ensures
        forall|k: int|
            0 <= k < paragraphs(text).len() && !all_ws(#[trigger] paragraphs(text)[k])
                ==> in_some_chunk(chunks_of(text, max), paragraphs(text)[k]),
{
    let ps = paragraphs(text);
    lemma_chunk_scan_keeps(ps, max);
    let (chunks, cur) = chunk_scan(ps, max);
    let r = chunks_of(text, max);
    assert forall|k: int| 0 <= k < ps.len() && !all_ws(#[trigger] ps[k]) implies in_some_chunk(
        r,
        ps[k],
    ) by {
        let p = ps[k];
        if in_some_chunk(chunks, p) {
            let j = choose|j: int| 0 <= j < chunks.len() && #[trigger] contains(chunks[j], trim(p));
            if cur.len() > 0 {
                assert(r[j] == chunks[j]);
            }
            assert(contains(r[j], trim(p)));
        } else {
            let i = choose|i: int| occurs_at(cur, p, i);
            let w = choose|w: int| 0 <= w < p.len() && !is_ws(#[trigger] p[w]);
            assert(cur.len() > 0);
            lemma_trim_keeps_inner(cur, p, i);
            let n = chunks.len() as int;
            assert(r[n] == trim(cur));
            assert(contains(r[n], trim(p)));
        }
    }
}

/// The paragraphs `ps` joined by blank lines, leaving out the empty ones at
/// the start: what the chunk in progress holds while nothing is cut.
pub open spec fn merged(ps: Seq<Seq<char>>) -> Seq<char>
    decreases ps.len(),
{
    if ps.len() == 0 {
        Seq::empty()
    } else {
        let m = merged(ps.drop_last());
        if m.len() > 0 {
            m + paragraph_sep() + ps.last()
        } else {
            ps.last()
        }
    }
}

/// Joining the pieces of `str::split("\n\n")` with `"\n\n"` gives the text back.
pub proof fn lemma_paragraphs_join(s: Seq<char>)
    ensures
        join(paragraphs(s), paragraph_sep()) == s,
    decreases s.len(),
{
    if s.len() > 0 {
        let front = s.drop_last();
        lemma_paragraphs_join(front);
        let (d0, c0) = paragraph_scan(front);
        let c = s.last();
        assert(s =~= front.push(c));
        assert(d0.push(c0).drop_last() =~= d0);
        if c == '\n' && c0.len() > 0 && c0.last() == '\n' {
            let y = c0.drop_last();
            let d = d0.push(y);
            assert(c0 =~= y.push('\n'));
            assert(paragraphs(s) == d.push(Seq::<char>::empty()));
            assert(d.push(Seq::<char>::empty()).drop_last() =~= d);
            assert(d.drop_last() =~= d0);
            if d0.len() == 0 {
                assert(join(d, paragraph_sep()) == y);
                assert(front == c0);
                assert(s =~= y + paragraph_sep() + Seq::<char>::empty());
            } else {
                let j0 = join(d0, paragraph_sep());
                assert(front == j0 + paragraph_sep() + c0);
                assert(join(d, paragraph_sep()) == j0 + paragraph_sep() + y);
                assert(s =~= (j0 + paragraph_sep() + y) + paragraph_sep() + Seq::<char>::empty());
            }
        } else {
            let z = c0.push(c);
            assert(paragraphs(s) == d0.push(z));
            assert(d0.push(z).drop_last() =~= d0);
            if d0.len() == 0 {
                assert(front == c0);
                assert(s =~= z);
            } else {
                let j0 = join(d0, paragraph_sep());
                assert(front == j0 + paragraph_sep() + c0);
                assert(s =~= j0 + paragraph_sep() + z);
            }
        }
    } else {
        assert(paragraphs(s) =~= seq![Seq::<char>::empty()]);
    }
}

/// Joining paragraphs gives line breaks, then `merged`.
proof fn lemma_join_merged(ps: Seq<Seq<char>>)
    ensures
        merged(ps).len() <= join(ps, paragraph_sep()).len(),
        join(ps, paragraph_sep()) =~= join(ps, paragraph_sep()).take(
            join(ps, paragraph_sep()).len() - merged(ps).len(),
        ) + merged(ps),
        forall|i: int|
            0 <= i < join(ps, paragraph_sep()).len() - merged(ps).len() ==> #[trigger] join(
                ps,
                paragraph_sep(),
            )[i] == '\n',
    decreases ps.len(),
{
    if ps.len() == 1 {
        assert(ps.drop_last() =~= Seq::<Seq<char>>::empty());
        assert(merged(ps) == ps[0]);
        assert(join(ps, paragraph_sep()).take(0) =~= Seq::<char>::empty());
    } else if ps.len() > 1 {
        let front = ps.drop_last();
        lemma_join_merged(front);
        let j0 = join(front, paragraph_sep());
        let m0 = merged(front);
        let p = ps.last();
        let j = join(ps, paragraph_sep());
        assert(j == j0 + paragraph_sep() + p);
        let d0 = j0.len() - m0.len();
        if m0.len() > 0 {
            assert(merged(ps) == m0 + paragraph_sep() + p);
            assert(j.take(d0) =~= j0.take(d0));
            assert(j =~= j.take(d0) + merged(ps));
            assert forall|i: int| 0 <= i < d0 implies #[trigger] j[i] == '\n' by {
                assert(j[i] == j0[i]);
            }
        } else {
            assert(merged(ps) == p);
            assert(j =~= j.take(j.len() - p.len()) + p);
            assert forall|i: int| 0 <= i < j.len() - p.len() implies #[trigger] j[i] == '\n' by {
                if i < j0.len() {
                    assert(j[i] == j0[i]);
                } else {
                    assert(j[i] == paragraph_sep()[i - j0.len()]);
                }
            }
        }
    }
}

proof fn lemma_join_take_len(ps: Seq<Seq<char>>, k: int)
    requires
        0 <= k <= ps.len(),
    ensures
        join(ps.take(k), paragraph_sep()).len() <= join(ps, paragraph_sep()).len(),
    decreases ps.len() - k,
{
    if k < ps.len() {
        lemma_join_take_len(ps, k + 1);
        let t = ps.take(k + 1);
        assert(t.drop_last() =~= ps.take(k));
        if k == 0 {
            assert(ps.take(0) =~= Seq::<Seq<char>>::empty());
        }
    } else {
        assert(ps.take(k) =~= ps);
    }
}

proof fn lemma_chunk_scan_fits(ps: Seq<Seq<char>>, max: int, n: int)
    requires
        0 <= n <= ps.len(),
        join(ps, paragraph_sep()).len() <= max,
    ensures
        chunk_scan(ps.take(n), max) == (Seq::<Seq<char>>::empty(), merged(ps.take(n))),
    decreases n,
{
    if n > 0 {
        lemma_chunk_scan_fits(ps, max, n - 1);
        let t = ps.take(n);
        assert(t.drop_last() =~= ps.take(n - 1));
        let cur = merged(ps.take(n - 1));
        let p = t.last();
        lemma_join_take_len(ps, n);
        lemma_join_merged(t);
        if cur.len() > 0 {
            assert(merged(t) == cur + paragraph_sep() + p);
        } else {
            assert(merged(t) == p);
            assert(Seq::<char>::empty() + p =~= p);
        }
    } else {
        assert(ps.take(0) =~= Seq::<Seq<char>>::empty());
    }
}

proof fn lemma_trim_after_newlines(e: Seq<char>, m: Seq<char>)
    requires
        forall|i: int| 0 <= i < e.len() ==> #[trigger] e[i] == '\n',
    ensures
        trim(e + m) == trim(m),
    decreases e.len(),
{
    if e.len() > 0 {
        assert(e[0] == '\n');
        assert((e + m)[0] == '\n');
        assert((e + m).drop_first() =~= e.drop_first() + m);
        lemma_trim_after_newlines(e.drop_first(), m);
    } else {
        assert(e + m =~= m);
    }
}

/// A text that fits in `max` characters comes back as one chunk, the whole text
/// trimmed, unless it holds nothing but line breaks (then there is none).
pub proof fn lemma_fitting_text_one_chunk(text: Seq<char>, max: int)
    requires
        text.len() <= max,
    ensures
        chunks_of(text, max) == seq![trim(text)] || (chunks_of(text, max).len() == 0 && forall|
            i: int,
        |
            0 <= i < text.len() ==> #[trigger] text[i] == '\n'),
{
    let ps = paragraphs(text);
    lemma_paragraphs_join(text);
    lemma_chunk_scan_fits(ps, max, ps.len() as int);
    assert(ps.take(ps.len() as int) =~= ps);
    lemma_join_merged(ps);
    let m = merged(ps);
    let e = text.take(text.len() - m.len());
    assert(text =~= e + m);
    if m.len() > 0 {
        lemma_trim_after_newlines(e, m);
    }
}

/// Cleaning a chunked transcript, one request at a time: the chunks, the
/// cleaned text received so far (one per chunk, in order), and whether a
/// request has failed.
pub struct ChunkedCleaning {
    pub chunks: Vec<String>,
    pub cleaned: Vec<String>,
    pub failed: bool,
}

/// What follows a step of chunked cleaning.
#[derive(Debug)]
pub enum CleaningStep {
    /// Send this chunk for cleaning and report what came back.
    Send(String),
    /// Cleaning is over: the joined cleaned text, or the first failure.
    Done(Result<String, CaptionError>),
}

/// The state of chunked cleaning as plain text.
pub struct CleaningModel {
    pub chunks: Seq<Seq<char>>,
    pub cleaned: Seq<Seq<char>>,
    pub failed: bool,
}

/// A step of chunked cleaning as plain text.
pub enum StepModel {
    Send(Seq<char>),
    Done(Result<Seq<char>, CaptionError>),
}

/// The reply to a chunk's request as plain text.
pub open spec fn reply_model(reply: Result<String, CaptionError>) -> Result<Seq<char>, CaptionError> {
    match reply {
        Ok(s) => Ok(s@),
        Err(e) => Err(e),
    }
}

impl View for ChunkedCleaning {
    type V = CleaningModel;

    open spec fn view(&self) -> CleaningModel {
        CleaningModel {
            chunks: self.chunks.deep_view(),
            cleaned: self.cleaned.deep_view(),
            failed: self.failed,
        }
    }
}

impl View for CleaningStep {
    type V = StepModel;

    open spec fn view(&self) -> StepModel {
        match self {
            CleaningStep::Send(c) => StepModel::Send(c@),
            CleaningStep::Done(r) => StepModel::Done(reply_model(*r)),
        }
    }
}

/// What follows a state in which no request has failed: the next chunk to
/// send, or, once every chunk is cleaned, the cleaned chunks joined with blank
/// lines.
pub open spec fn next_step(chunks: Seq<Seq<char>>, cleaned: Seq<Seq<char>>) -> StepModel {
    if cleaned.len() < chunks.len() {
        StepModel::Send(chunks[cleaned.len() as int])
    } else {
        StepModel::Done(Ok(join(cleaned, paragraph_sep())))
    }
}

/// The first state and step for `chunks`.
pub open spec fn start_model(chunks: Seq<Seq<char>>) -> (CleaningModel, StepModel) {
    (
        CleaningModel { chunks, cleaned: Seq::empty(), failed: false },
        next_step(chunks, Seq::empty()),
    )
}

/// The state and step after the reply to the pending chunk: a cleaned text is
/// kept and cleaning goes on; a failure ends it with that failure.
pub open spec fn advance_model(s: CleaningModel, reply: Result<Seq<char>, CaptionError>) -> (
    CleaningModel,
    StepModel,
) {
    match reply {
        Ok(text) => {
            let cleaned = s.cleaned.push(text);
            (CleaningModel { cleaned, ..s }, next_step(s.chunks, cleaned))
        },
        Err(e) => (CleaningModel { failed: true, ..s }, StepModel::Done(Err(e))),
    }
}

/// Chunked cleaning driven by `replies`, each handed over while a chunk is
/// pending; replies that come after the end change nothing.
pub open spec fn run_model(chunks: Seq<Seq<char>>, replies: Seq<Result<Seq<char>, CaptionError>>) -> (
    CleaningModel,
    StepModel,
)
    decreases replies.len(),
{
    if replies.len() == 0 {
        start_model(chunks)
    } else {
        let (s, step) = run_model(chunks, replies.drop_last());
        if step is Send {
            advance_model(s, replies.last())
        } else {
            (s, step)
        }
    }
}

/// The cleaned texts of replies that all succeeded.
pub open spec fn ok_texts(replies: Seq<Result<Seq<char>, CaptionError>>) -> Seq<Seq<char>> {
    replies.map_values(|r: Result<Seq<char>, CaptionError>| r->Ok_0)
}

impl ChunkedCleaning {
    /// Starts cleaning `chunks`: the first chunk is sent, or, when there is
    /// none, cleaning is over with an empty text.
    pub fn start(chunks: Vec<String>) -> (r: (ChunkedCleaning, CleaningStep))
        ensures
            (r.0@, r.1@) == start_model(chunks.deep_view()),
    {
        let step = if chunks.len() == 0 {
            CleaningStep::Done(Ok(String::new()))
        } else {
            CleaningStep::Send(chunks[0].clone())
        };
        let state = ChunkedCleaning { chunks, cleaned: Vec::new(), failed: false };
        proof {
            assert(state.cleaned.deep_view() =~= Seq::<Seq<char>>::empty());
        }
        (state, step)
    }

    /// Takes the reply to the pending chunk and says what follows: the next
    /// chunk, the joined cleaned text once every chunk is cleaned, or the
    /// failure, after which nothing more is sent.
    pub fn advance(&mut self, reply: Result<String, CaptionError>) -> (step: CleaningStep)
        requires
            !old(self).failed,
            old(self).cleaned.len() < old(self).chunks.len(),
        ensures
            (final(self)@, step@) == advance_model(old(self)@, reply_model(reply)),
    {
        match reply {
            Ok(text) => {
                let ghost before = self.cleaned.deep_view();
                let ghost t = text@;
                self.cleaned.push(text);
                proof {
                    assert(self.cleaned.deep_view() =~= before.push(t));
                }
                let n = self.cleaned.len();
                if n < self.chunks.len() {
                    CleaningStep::Send(self.chunks[n].clone())
                } else {
                    CleaningStep::Done(Ok(join_cleaned(&self.cleaned)))
                }
            },
            Err(e) => {
                self.failed = true;
                CleaningStep::Done(Err(e))
            },
        }
    }
}

/// Chunks are sent one at a time and in order: while every reply so far has
/// succeeded, the cleaned texts are those replies, and the next request is for
/// the following chunk; once every chunk has its reply, cleaning ends with the
/// replies, in order, joined by blank lines, however many chunks there are.
pub proof fn lemma_chunks_sent_in_order(
    chunks: Seq<Seq<char>>,
    replies: Seq<Result<Seq<char>, CaptionError>>,
)
    requires
        replies.len() <= chunks.len(),
        forall|i: int| 0 <= i < replies.len() ==> #[trigger] replies[i] is Ok,
    ensures
        run_model(chunks, replies).0 == (CleaningModel {
            chunks,
            cleaned: ok_texts(replies),
            failed: false,
        }),
        replies.len() < chunks.len() ==> run_model(chunks, replies).1 == StepModel::Send(
            chunks[replies.len() as int],
        ),
        replies.len() == chunks.len() ==> run_model(chunks, replies).1 == StepModel::Done(
            Ok(join(ok_texts(replies), seq!['\n', '\n'])),
        ),
    decreases replies.len(),
{
    if replies.len() == 0 {
        assert(ok_texts(replies) =~= Seq::<Seq<char>>::empty());
    } else {
        let front = replies.drop_last();
        lemma_chunks_sent_in_order(chunks, front);
        assert(ok_texts(replies) =~= ok_texts(front).push(replies.last()->Ok_0));
    }
    assert(paragraph_sep() =~= seq!['\n', '\n']);
}

/// The reply to the last chunk ends cleaning with every cleaned reply, in
/// order, joined by blank lines; a reply to an earlier chunk is kept and the
/// following chunk is sent.
pub proof fn lemma_successful_reply(s: CleaningModel, text: Seq<char>)
    requires
        !s.failed,
        s.cleaned.len() < s.chunks.len(),
    ensures
        advance_model(s, Ok(text)).0 == (CleaningModel {
            chunks: s.chunks,
            cleaned: s.cleaned.push(text),
            failed: false,
        }),
        s.cleaned.len() + 1 == s.chunks.len() ==> advance_model(s, Ok(text)).1 == StepModel::Done(
            Ok(join(s.cleaned.push(text), seq!['\n', '\n'])),
        ),
        s.cleaned.len() + 1 < s.chunks.len() ==> advance_model(s, Ok(text)).1 == StepModel::Send(
            s.chunks[s.cleaned.len() + 1int],
        ),
{
    assert(paragraph_sep() =~= seq!['\n', '\n']);
}

/// A failed reply ends cleaning with that failure and keeps what was cleaned.
pub proof fn lemma_failed_reply(s: CleaningModel, e: CaptionError)
    ensures
        advance_model(s, Err(e)).0 == (CleaningModel { failed: true, ..s }),
        advance_model(s, Err(e)).1 == StepModel::Done(Err(e)),
{
}

/// Cleaning stops at the first failure: when every reply before the `k`-th
/// succeeded and the `k`-th failed, cleaning ends with that failure, and no
/// later reply changes the outcome, since no further chunk is sent.
pub proof fn lemma_stops_at_first_failure(
    chunks: Seq<Seq<char>>,
    replies: Seq<Result<Seq<char>, CaptionError>>,
    k: int,
)
    requires
        0 <= k < replies.len(),
        k < chunks.len(),
        forall|i: int| 0 <= i < k ==> #[trigger] replies[i] is Ok,
        replies[k] is Err,
    ensures
        run_model(chunks, replies).0 == (CleaningModel {
            chunks,
            cleaned: ok_texts(replies.take(k)),
            failed: true,
        }),
        run_model(chunks, replies).1 == StepModel::Done(Err(replies[k]->Err_0)),
    decreases replies.len(),
{
    if replies.len() == k + 1 {
        let front = replies.drop_last();
        assert(front =~= replies.take(k));
        lemma_chunks_sent_in_order(chunks, front);
    } else {
        let front = replies.drop_last();
        assert(front.take(k) =~= replies.take(k));
        lemma_stops_at_first_failure(chunks, front, k);
    }
}

} // verus!
