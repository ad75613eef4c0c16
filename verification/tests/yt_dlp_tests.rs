use caption_cleaner::yt_dlp::{
    command_failure, download_args, find_vtt_file, is_vtt_file_name, DirEntryInfo, YtDlpError,
};
use caption_cleaner::CaptionError;

fn entry(name: &str, created: Option<i128>) -> DirEntryInfo {
    DirEntryInfo {
        path: format!("/out/{}", name),
        file_name: name.to_string(),
        created,
    }
}

#[test]
fn test_find_vtt_file_empty_dir() {
    let result = find_vtt_file(&vec![]);
    assert!(matches!(result, Err(YtDlpError::NoSubtitlesFound)));
    let result = find_vtt_file(&vec![entry("notes.txt", Some(5))]);
    assert!(matches!(result, Err(YtDlpError::NoSubtitlesFound)));
}

#[test]
fn find_vtt_file_picks_most_recent() {
    let entries = vec![
        entry("a.en.vtt", Some(10)),
        entry("b.txt", Some(99)),
        entry("c.en-orig.vtt", Some(30)),
        entry("d.vtt", Some(30)),
        entry("e.vtt", None),
    ];
    assert_eq!(find_vtt_file(&entries), Ok("/out/c.en-orig.vtt".to_string()));
    let entries = vec![entry("x.vtt", None), entry("y.vtt", Some(-5))];
    assert_eq!(find_vtt_file(&entries), Ok("/out/y.vtt".to_string()));
    let entries = vec![entry("x.vtt", None), entry("y.vtt", None)];
    assert_eq!(find_vtt_file(&entries), Ok("/out/x.vtt".to_string()));
}

#[test]
fn vtt_extension() {
    assert!(is_vtt_file_name("abc.en.vtt"));
    assert!(is_vtt_file_name("x..vtt"));
    assert!(!is_vtt_file_name(".vtt"));
    assert!(!is_vtt_file_name("vtt"));
    assert!(!is_vtt_file_name("a.VTT"));
    assert!(!is_vtt_file_name("a.vtt.part"));
}

#[test]
fn yt_dlp_arguments() {
    let args = download_args("/tmp/caption_cleaner", "https://youtu.be/x");
    assert_eq!(
        args,
        vec![
            "--write-subs",
            "--write-auto-subs",
            "--sub-langs",
            "en.*,en",
            "--skip-download",
            "--no-playlist",
            "-o",
            "/tmp/caption_cleaner/%(id)s.%(ext)s",
            "https://youtu.be/x",
        ]
    );
}

#[test]
fn yt_dlp_failure_reasons() {
    let reason = |stderr: &str, stdout: &str| match command_failure(stderr, stdout) {
        YtDlpError::CommandFailed(m) => m,
        other => panic!("unexpected {:?}", other),
    };
    assert_eq!(reason("ERROR: Video unavailable. This video is private", ""), "Video is unavailable or private");
    assert_eq!(reason("ERROR: 'abc' is not a valid URL", ""), "Invalid URL provided");
    assert_eq!(reason("ERROR: Private video. Sign in", ""), "Video is private");
    assert_eq!(reason("Sign in to confirm your age", ""), "Video requires age verification");
    assert_eq!(reason("x No video formats found y", ""), "No video formats found");
    assert_eq!(reason("first line\r\nsecond", "out"), "first line");
    assert_eq!(reason("\nsecond", "out"), "");
    assert_eq!(reason("", "only stdout\nmore"), "only stdout");
    assert_eq!(reason("", ""), "Command failed with unknown error");
}

#[test]
fn error_messages() {
    assert_eq!(YtDlpError::NotInstalled.message(), "yt-dlp sidecar not found");
    assert_eq!(YtDlpError::NoSubtitlesFound.message(), "No subtitles found for this video");
    assert_eq!(
        YtDlpError::CommandFailed("Invalid URL provided".to_string()).message(),
        "yt-dlp failed: Invalid URL provided"
    );
    assert_eq!(
        CaptionError::Download(YtDlpError::NoSubtitlesFound).message(),
        "Failed to download captions: No subtitles found for this video"
    );
    assert_eq!(
        CaptionError::TempDirCreation("denied".to_string()).message(),
        "Failed to create temp directory: denied"
    );
}
