# voice2text

Live meeting captions for a non-native English speaker: system audio (the
attendees) and the microphone (the user) are transcribed side by side, echo of
the attendees picked up by the microphone is suppressed, lines are cleaned up,
optionally re-transcribed by a GPU Whisper sidecar and polished by a local LLM,
and saved to a transcript.

Layout:

- `src/` — the verified library (Verus): echo suppression, edit distances,
  text clean-up and casing, the LLM correction guard and its line protocol,
  the Whisper sidecar's binary frames, utterance segmentation, speaker
  numbering, console caption rendering, prompts, settings names and meters.
  Every public function carries a contract; the `law_*` proof functions state
  properties that span several calls.
- `tests/` — unit tests of the library.
- `app/` — the programs around it: the Tauri overlay, the two sidecars and the
  console tools. Audio capture, recognizers, processes, files and the
  floating-point signal processing live here and call into the library for
  every decision.
