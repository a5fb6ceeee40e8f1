# Cooee

Push-to-talk dictation for Windows: hold a key, speak, and clean text lands in
whatever app has focus. All transcription runs locally.

`src/` is the library: what the app decides, written in Verus. Every function
states what it returns and is proved to do so; functions named `law_...` state
what holds of several of them together.

| Module | What it decides |
|---|---|
| `pipeline` | when a capture starts and stops, every step of an utterance |
| `hotkey` | chords, the keyboard hook's state, which keys Windows never sees |
| `polish` | fillers, spoken punctuation, capitals, whitespace |
| `dictionary` | corrections, and the prompt made of them |
| `config` | settings, per-app strategies, older settings files |
| `history` | what was dictated |
| `inject`, `caret`, `focus` | how text gets into an app |
| `audio`, `vad`, `tone` | ceilings, trimming, windows, cues |
| `asr` | which engine, how a decode runs, the tokenizer |
| `calendar`, `tray` | dates, the tray icon |
| `text`, `json` | characters and JSON values |

What std and `serde_json` do is stated, not proved: in `text`, in `json`, for
`String::from_utf8_lossy` in `asr::onnx::tokenizer`, and for the comparison of
paths in `config`. Sound samples and logits are
floats and stay outside; where a decision rests on one, the library takes its
bits.

`app/` is the application around the library: microphone, keyboard hook, ONNX
Runtime, whisper.cpp, windows. `tests/` runs the library.
