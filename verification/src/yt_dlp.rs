//! Caption download with the yt-dlp program: its arguments, the reading of
//! its failures, and the choice of the caption file it wrote.

use vstd::prelude::*;

use crate::text::{chars_of, concat_strs, contains, has_substring, lines, split_lines, string_from_chars};

verus! {

/// What can go wrong while running yt-dlp.
#[derive(Debug, PartialEq, Eq)]
pub enum YtDlpError {
    /// The bundled yt-dlp program was not found.
    NotInstalled,
    /// yt-dlp could not be started.
    ExecutionFailed(String),
    /// yt-dlp ran and failed; the reason read from its output.
    CommandFailed(String),
    /// yt-dlp wrote no caption file.
    NoSubtitlesFound,
    /// The output directory could not be read.
    OutputDirReadFailed(String),
}

/// The text a yt-dlp error is reported with.
pub open spec fn ytdlp_message(e: YtDlpError) -> Seq<char> {
    match e {
        YtDlpError::NotInstalled => "yt-dlp sidecar not found"@,
        YtDlpError::ExecutionFailed(s) => "Failed to execute yt-dlp: "@ + s@,
        YtDlpError::CommandFailed(s) => "yt-dlp failed: "@ + s@,
        YtDlpError::NoSubtitlesFound => "No subtitles found for this video"@,
        YtDlpError::OutputDirReadFailed(s) => "Failed to read output directory: "@ + s@,
    }
}

impl YtDlpError {
    /// The text the error is reported with.
    pub fn message(&self) -> (r: String)
        ensures
            r@ == ytdlp_message(*self),
    {
        match self {
            YtDlpError::NotInstalled => "yt-dlp sidecar not found".to_owned(),
            YtDlpError::ExecutionFailed(s) => concat_strs("Failed to execute yt-dlp: ", s),
            YtDlpError::CommandFailed(s) => concat_strs("yt-dlp failed: ", s),
            YtDlpError::NoSubtitlesFound => "No subtitles found for this video".to_owned(),
            YtDlpError::OutputDirReadFailed(s) => concat_strs("Failed to read output directory: ", s),
        }
    }
}

/// Where yt-dlp writes the caption files, as a yt-dlp output template.
pub open spec fn output_template(out_dir: Seq<char>) -> Seq<char> {
    out_dir + "/%(id)s.%(ext)s"@
}

/// The yt-dlp command line that fetches the English captions (manual and
/// automatic) of `url` into `out_dir`, without the video.
pub open spec fn download_args_spec(out_dir: Seq<char>, url: Seq<char>) -> Seq<Seq<char>> {
    seq![
        "--write-subs"@,
        "--write-auto-subs"@,
        "--sub-langs"@,
        "en.*,en"@,
        "--skip-download"@,
        "--no-playlist"@,
        "-o"@,
        output_template(out_dir),
        url,
    ]
}

/// The arguments yt-dlp is run with for `url`, writing into `out_dir`.
pub fn download_args(out_dir: &str, url: &str) -> (r: Vec<String>)
    ensures
        r.deep_view() == download_args_spec(out_dir@, url@),
{
    let mut v: Vec<String> = Vec::new();
    v.push("--write-subs".to_owned());
    v.push("--write-auto-subs".to_owned());
    v.push("--sub-langs".to_owned());
    v.push("en.*,en".to_owned());
    v.push("--skip-download".to_owned());
    v.push("--no-playlist".to_owned());
    v.push("-o".to_owned());
    v.push(concat_strs(out_dir, "/%(id)s.%(ext)s"));
    v.push(url.to_owned());
    assert(v.deep_view() =~= download_args_spec(out_dir@, url@));
    v
}

/// Every URL is fetched with the same seven fixed options, whatever it holds
/// (English captions, manual and automatic, no video, never a whole
/// playlist), then the output template in `out_dir`, then the URL itself:
/// two calls differ only in those last two arguments.
pub proof fn lemma_download_args_fixed(
    out_dir: Seq<char>,
    url: Seq<char>,
    other_dir: Seq<char>,
    other_url: Seq<char>,
)
    ensures
        download_args_spec(out_dir, url).len() == 9,
        download_args_spec(out_dir, url).take(7) == seq![
            "--write-subs"@,
            "--write-auto-subs"@,
            "--sub-langs"@,
            "en.*,en"@,
            "--skip-download"@,
            "--no-playlist"@,
            "-o"@,
        ],
        download_args_spec(out_dir, url).take(7) == download_args_spec(other_dir, other_url).take(
            7,
        ),
        download_args_spec(out_dir, url).contains("--no-playlist"@),
        download_args_spec(out_dir, url)[7] == out_dir + "/%(id)s.%(ext)s"@,
        download_args_spec(out_dir, url)[8] == url,
{
    let a = download_args_spec(out_dir, url);
    assert(a.take(7) =~= seq![
        "--write-subs"@,
        "--write-auto-subs"@,
        "--sub-langs"@,
        "en.*,en"@,
        "--skip-download"@,
        "--no-playlist"@,
        "-o"@,
    ]);
    assert(download_args_spec(other_dir, other_url).take(7) =~= a.take(7));
    assert(a[5] == "--no-playlist"@);
}

/// The first line of a non-empty text.
pub open spec fn first_line(s: Seq<char>) -> Seq<char> {
    lines(s)[0]
}

/// Why yt-dlp failed, read from what it printed: known causes by their
/// message on the error stream, else the first line of the error stream,
/// else the first line of the output stream.
pub open spec fn failure_reason(stderr: Seq<char>, stdout: Seq<char>) -> Seq<char> {
    if contains(stderr, "Video unavailable"@) {
        "Video is unavailable or private"@
    } else if contains(stderr, "is not a valid URL"@) {
        "Invalid URL provided"@
    } else if contains(stderr, "Private video"@) {
        "Video is private"@
    } else if contains(stderr, "Sign in to confirm your age"@) {
        "Video requires age verification"@
    } else if contains(stderr, "No video formats found"@) {
        "No video formats found"@
    } else if stderr.len() > 0 {
        first_line(stderr)
    } else if stdout.len() > 0 {
        first_line(stdout)
    } else {
        "Command failed with unknown error"@
    }
}

proof fn lemma_nonempty_has_line(s: Seq<char>)
    requires
        s.len() > 0,
    ensures
        lines(s).len() > 0,
{
}

/// First line of a non-empty text.
fn first_line_of(s: &str) -> (r: String)
    requires
        s@.len() > 0,
    ensures
        r@ == first_line(s@),
{
    let v = chars_of(s);
    let ls = split_lines(&v);
    proof {
        lemma_nonempty_has_line(s@);
    }
    assert(ls.deep_view()[0] == ls[0]@);
    string_from_chars(&ls[0])
}

/// The error for a failed yt-dlp run, given what it printed (decoded as UTF-8,
/// invalid bytes replaced).
pub fn command_failure(stderr: &str, stdout: &str) -> (r: YtDlpError)
    ensures
        r matches YtDlpError::CommandFailed(m) && m@ == failure_reason(stderr@, stdout@),
{
    let err = chars_of(stderr);
    let msg = if has_substring(&err, "Video unavailable") {
        "Video is unavailable or private".to_owned()
    } else if has_substring(&err, "is not a valid URL") {
        "Invalid URL provided".to_owned()
    } else if has_substring(&err, "Private video") {
        "Video is private".to_owned()
    } else if has_substring(&err, "Sign in to confirm your age") {
        "Video requires age verification".to_owned()
    } else if has_substring(&err, "No video formats found") {
        "No video formats found".to_owned()
    } else if err.len() > 0 {
        first_line_of(stderr)
    } else if stdout.unicode_len() > 0 {
        first_line_of(stdout)
    } else {
        "Command failed with unknown error".to_owned()
    };
    YtDlpError::CommandFailed(msg)
}

/// A file name whose extension (`Path::extension`) is `vtt`: it ends in
/// `.vtt` and something comes before that dot.
pub open spec fn has_vtt_extension(name: Seq<char>) -> bool {
    name.len() > 4 && name.subrange(name.len() - 4, name.len() as int) == ".vtt"@
}

/// Whether a directory entry named `file_name` is a WebVTT caption file.
pub fn is_vtt_file_name(file_name: &str) -> (r: bool)
    ensures
        r == has_vtt_extension(file_name@),
{
    proof {
        reveal_strlit(".vtt");
    }
    let v = chars_of(file_name);
    let n = v.len();
    if n <= 4 {
        return false;
    }
    let r = v[n - 4] == '.' && v[n - 3] == 'v' && v[n - 2] == 't' && v[n - 1] == 't';
    proof {
        let tail = v@.subrange(n - 4, n as int);
        if r {
            assert(tail =~= ".vtt"@);
        } else {
            assert(tail != ".vtt"@) by {
                if tail == ".vtt"@ {
                    assert(tail[0] == '.' && tail[1] == 'v' && tail[2] == 't' && tail[3] == 't');
                }
            }
        }
    }
    r
}

/// A directory entry as the caption search sees it.
#[derive(Debug)]
pub struct DirEntryInfo {
    /// Full path of the entry.
    pub path: String,
    /// Its file name.
    pub file_name: String,
    /// Creation time in nanoseconds from the Unix epoch, when known.
    pub created: Option<i128>,
}

/// Creation time `a` is later than `b`; an unknown time is earliest.
pub open spec fn later(a: Option<i128>, b: Option<i128>) -> bool {
    match (a, b) {
        (Some(x), Some(y)) => x > y,
        (Some(_), None) => true,
        (None, _) => false,
    }
}

/// Index of the caption file among the first `n` entries: the most recently
/// created `.vtt` file, the earliest listed among equally recent ones.
pub open spec fn newest_vtt_among(entries: Seq<DirEntryInfo>, n: int) -> Option<int>
    decreases n,
{
    if n <= 0 {
        None
    } else {
        let prev = newest_vtt_among(entries, n - 1);
        let e = entries[n - 1];
        if !has_vtt_extension(e.file_name@) {
            prev
        } else {
            match prev {
                None => Some(n - 1),
                Some(b) => if later(e.created, entries[b].created) {
                    Some(n - 1)
                } else {
                    prev
                },
            }
        }
    }
}

/// Index of the caption file yt-dlp wrote among the directory entries.
pub open spec fn newest_vtt(entries: Seq<DirEntryInfo>) -> Option<int> {
    newest_vtt_among(entries, entries.len() as int)
}

/// Later than, on creation times.
fn is_later(a: Option<i128>, b: Option<i128>) -> (r: bool)
    ensures
        r == later(a, b),
{
    match (a, b) {
        (Some(x), Some(y)) => x > y,
        (Some(_), None) => true,
        (None, _) => false,
    }
}

/// The path of the caption file among the entries of yt-dlp's output
/// directory: the most recently created `.vtt` file (the earliest listed
/// among equally recent ones); `NoSubtitlesFound` when there is none.
pub fn find_vtt_file(entries: &Vec<DirEntryInfo>) -> (r: Result<String, YtDlpError>)
    ensures
        newest_vtt(entries@) is None ==> r matches Err(YtDlpError::NoSubtitlesFound),
        newest_vtt(entries@) matches Some(b) ==> (r matches Ok(p) && p@ == entries@[b].path@),
{
    let mut best: Option<usize> = None;
    let mut i: usize = 0;
    while i < entries.len()
        invariant
            i <= entries.len(),
            best matches Some(b) ==> b < i,
            newest_vtt_among(entries@, i as int) == match best {
                Some(b) => Some(b as int),
                None => None::<int>,
            },
        decreases entries.len() - i,
    {
        if is_vtt_file_name(&entries[i].file_name) {
            match best {
                None => {
                    best = Some(i);
                },
                Some(b) => {
                    if is_later(entries[i].created, entries[b].created) {
                        best = Some(i);
                    }
                },
            }
        }
        i = i + 1;
    }
    match best {
        None => Err(YtDlpError::NoSubtitlesFound),
        Some(b) => Ok(entries[b].path.clone()),
    }
}

/// The caption file chosen is the most recently created `.vtt` file, the
/// earliest listed among equally recent ones; there is none exactly when no
/// entry is a `.vtt` file.
pub proof fn lemma_newest_vtt_is_most_recent(entries: Seq<DirEntryInfo>)
    ensures
        newest_vtt(entries) is None <==> forall|i: int|
            0 <= i < entries.len() ==> !has_vtt_extension(#[trigger] entries[i].file_name@),
        newest_vtt(entries) matches Some(b) ==> {
            &&& 0 <= b < entries.len()
            &&& has_vtt_extension(entries[b].file_name@)
            &&& forall|i: int|
                0 <= i < entries.len() && has_vtt_extension(#[trigger] entries[i].file_name@)
                    ==> !later(entries[i].created, entries[b].created)
            &&& forall|i: int|
                0 <= i < b && has_vtt_extension(#[trigger] entries[i].file_name@) ==> later(
                    entries[b].created,
                    entries[i].created,
                )
        },
{
    lemma_newest_vtt_among(entries, entries.len() as int);
}

proof fn lemma_newest_vtt_among(entries: Seq<DirEntryInfo>, n: int)
    requires
        0 <= n <= entries.len(),
    ensures
        newest_vtt_among(entries, n) is None <==> forall|i: int|
            0 <= i < n ==> !has_vtt_extension(#[trigger] entries[i].file_name@),
        newest_vtt_among(entries, n) matches Some(b) ==> {
            &&& 0 <= b < n
            &&& has_vtt_extension(entries[b].file_name@)
            &&& forall|i: int|
                0 <= i < n && has_vtt_extension(#[trigger] entries[i].file_name@) ==> !later(
                    entries[i].created,
                    entries[b].created,
                )
            &&& forall|i: int|
                0 <= i < b && has_vtt_extension(#[trigger] entries[i].file_name@) ==> later(
                    entries[b].created,
                    entries[i].created,
                )
        },
    decreases n,
{
    if n > 0 {
        lemma_newest_vtt_among(entries, n - 1);
        let e = entries[n - 1];
        let prev = newest_vtt_among(entries, n - 1);
        if has_vtt_extension(e.file_name@) {
            match prev {
                None => {
                    assert(newest_vtt_among(entries, n) == Some(n - 1));
                },
                Some(b) => {
                    if later(e.created, entries[b].created) {
                        assert(newest_vtt_among(entries, n) == Some(n - 1));
                        assert forall|i: int|
                            0 <= i < n && has_vtt_extension(#[trigger] entries[i].file_name@)
                            implies !later(entries[i].created, entries[n - 1].created) by {
                            if i < n - 1 {
                                assert(!later(entries[i].created, entries[b].created));
                            }
                        }
                        assert forall|i: int|
                            0 <= i < n - 1 && has_vtt_extension(#[trigger] entries[i].file_name@)
                            implies later(entries[n - 1].created, entries[i].created) by {
                            assert(!later(entries[i].created, entries[b].created));
                        }
                    } else {
                        assert(newest_vtt_among(entries, n) == Some(b));
                    }
                },
            }
        } else {
            assert(newest_vtt_among(entries, n) == prev);
        }
    }
}

} // verus!
