# yamabiko_whisper

Streaming speech recognition with the LocalAgreement-2 policy, verified with Verus.

A recogniser is run again and again on a rolling window of 16 kHz audio. A word is committed once
two consecutive passes agree on it and on everything before it; the rest stays tentative.

- `src/` is the verified library. It decides; it does not run the recogniser.
  - `hypothesis_buffer`: the policy itself.
  - `online_asr`: the streaming processor: rolling audio, prompt, trimming, utterance resets.
  - `segments`: the words of a pass, and where audio may be cut.
  - `audio`, `resampler`, `pipeline`: source formats, downmixing, resampling, gathering.
  - `settings`, `error`, `text`, `time`: what the others share. Times are exact counts of 1/16000 s.
  - `laws`: what holds of the library as a whole.
- `app/` runs Whisper and the Silero VAD through `whisper-rs`, and does floating-point arithmetic.
- `tests/` runs the library on concrete values.
