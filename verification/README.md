# Speaker Studio

Speaker Studio records live dictation and diarizes video, audio and links
with a local speech engine. This crate is its core, verified with Verus,
and the desktop window around it.

- `src/` is the verified library: session rules (creation, results from the
  engine, renaming, recovery, the session list), the selection merge that
  re-analyses part of a recording, transcript text and the exported page,
  WAV framing, waveform peaks and the live level meter, the live-capture
  loop as a step function from event to actions (`capture_step`: what is
  written, queued and sent, and how the microphone track is opened and
  padded), and the text rules (titles, names, links, file names).
  Times are microseconds; peaks use 32768 as full scale.
- `src/outside.rs` holds the few calls into other crates and the system
  (base64, getrandom, uuid, chrono, the system clock) with the contracts
  the library relies on. A new session's id and time come from calls that
  can fail; `Session::new` then returns none rather than stopping.
- `app/` is the window (eframe), audio devices and playback, performing the
  capture actions the library decides, file and
  process I/O, and the JSON session files. It converts between the stored
  form (seconds, speaker names keyed by text) and the library's types.
- `tests/` exercises the library through its public functions.
