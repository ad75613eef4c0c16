# caption_cleaner

The verified core of a desktop tool that turns YouTube captions into a clean
transcript.

- `src/` — the library, verified with Verus:
  - `vtt`: WebVTT content to plain text (headers, timings, numeric cue
    identifiers and markup dropped; rolling-caption lines deduplicated; white space normalized);
  - `ai`: how a transcript is sent to the Groq chat-completion API (chunking at
    paragraph boundaries, messages, reading answers, sending chunks one at a
    time and stopping at the first failure);
  - `settings`: the API-key cache, which key is in effect, key validation and masking;
  - `yt_dlp`: yt-dlp arguments, failure messages, choice of the caption file;
  - `pipeline`: pipeline options and results, AI-cleaning fallback;
  - `errors`: the error type and its messages;
  - `text`: character-level text functions and their models.
- `app/` — the Tauri application around it: commands, HTTP requests, the
  settings store, running yt-dlp, the file system.
- `tests/` — tests of the library.
