# mp4_audio_extractor

An MP4 audio extractor and audio analyser whose decisions are verified
with Verus.

- `src/` is the verified library:
  - `portable` — paths that every platform reads alike, ASCII lower case;
  - `paths` — input checks (extensions, formats), output locations, the
    recogniser's search paths;
  - `commands` — argument lists of `ffmpeg`, `ffprobe` and the recogniser;
  - `frames` — analysis frames, spectrogram bins, pitch lags, waveform
    chunks;
  - `vad` — voiced runs, dropping short runs and merging close ones;
  - `text` — whitespace, trimming, prober output, transcript characters;
  - `whisper` — timed words out of the recogniser's JSON report.
- `app/` is the command-line program and the desktop backend's commands:
  file-system checks, running the external programs, floating-point signal
  processing and JSON replies.
- `tests/` exercises the library on concrete inputs.
