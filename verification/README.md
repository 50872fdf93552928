# video_use

A conversation-driven video editing toolkit: transcribe footage with
ElevenLabs Scribe, pack transcripts into phrase-level markdown, grade, cut by
an EDL, burn captions and normalise loudness, all through ffmpeg.

The library in `src/` is written in Verus and its behaviour is proved against
the contracts stated on each function:

- `fps` — frame rates as exact, reduced rationals (`30000/1001`), and the
  probe result that prefers the average rate.
- `phrases`, `transcript` — grouping words into phrases at silences and speaker
  changes, phrase text, speaker tags and the packed markdown document.
- `subtitles` — cutting words into captions, caption text, SRT timestamps and
  documents.
- `render` — render modes, segment filters, grade field resolution and the
  composite filter graph (overlays first, subtitles last).
- `grade`, `loudnorm`, `media`, `scribe`, `edl`, `paths`, `json`, `text` —
  presets, loudness measurement parsing and second-pass filters, probe output
  interpretation, transcript cache paths, API key lookup, path handling and
  the string toolkit the rest is built on.

`app/` is the command-line program around the library: process spawning, file
and network I/O, the serde models, and the floating-point timing and drawing
code. `tests/` exercises the library on concrete values.
