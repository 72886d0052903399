# mojiokoshi

A desktop tool that transcribes meeting recordings (Japanese) with Whisper and writes the
minutes out as JSON or plain text.

- `src/` is the verified library:
  - `transcription.rs`: the transcript types, timestamp formatting, the plain-text rendering,
    the stable sort of segments by time and the assembly of a transcript from recognised
    segments;
  - `whisper.rs`: conversion of the recogniser's timestamps and segments, thread count;
  - `minutes.rs`: the state of the window (selection of dropped files, start of a run, progress
    and results of the background worker, export outcomes) and the audio-file test;
  - `text.rs`: decimal formatting, Unicode whitespace trimming and ASCII case folding;
  - `audio.rs`: the length of a resampled signal.
- `app/` is the program around it: the egui window, file dialogs, audio decoding and
  resampling (floating point), the Whisper calls and JSON export.
- `tests/` runs the library on concrete values.
