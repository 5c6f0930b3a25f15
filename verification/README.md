# localasr

Push-to-talk dictation: hold a hotkey, speak, and the recognised text is
typed into the focused window, chunk by chunk, then polished once more when
the key is released.

The logic is a Verus-verified library under `src/`:

- `text` — character/byte helpers on strings (trimming, joining, UTF-8 lengths).
- `state` — the text typed so far and the minimal edit (backspaces + paste)
  that turns it into a new version.
- `vad` — the chunker: speech/silence frames in, chunk start/samples/end out;
  and the slicer that cuts captured audio into detector-sized frames.
- `audio` — downmixing, naive resampling and WAV encoding (through `hound`).
- `config` — configuration records and `${NAME}` interpolation.
- `hotkey` — binding and paste-shortcut parsing, the held-keys tracker.
- `winkeys` — the same key names parsed into Windows virtual-key codes.
- `fvad` — a `webrtc-vad` detector instance with a record of its settings and of
  the frames it was handed.
- `webrtc` — the classical speech detector built on it.
- `platform` — clipboard snapshots, the injection plan for an edit, and an
  in-memory platform that records calls.
- `pipeline` — what a session types after each chunk and after the final
  pass, and how hotkey presses start, stop and abort sessions.
- `editor` — the prompts and request texts for the editor endpoint.
- `extract` — chunking files for glossary extraction, merging and sorting
  the extracted terms, and stripping code fences from replies.
- `terms` — the term database and its prompt rendering.
- `wizard` — the setup wizard's list of screens, the screen it is on, and the
  small per-screen records for the hotkey and save screens.

`app/` is the program around it: command line, config files, HTTP clients,
audio capture, evdev/uinput/clipboard access and the async daemon loop.
