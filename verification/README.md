# agent_transcription

Transcribes agent session events into playable musical scores. Each event (timestamp, agent, action, intensity) becomes a MIDI
note; a score can be sorted, split per voice and replayed tick by tick.

Layout:

- `src/event.rs`: actions and events. Intensities are fixed-point integers
  in millionths (`INTENSITY_SCALE` stands for `1.0`), so every formula of
  the mapping is exact integer arithmetic.
- `src/mapper.rs`: the three transcription styles and the default mapper,
  with the pitch, velocity and duration formulas as spec functions.
- `src/note.rs`, `src/score.rs`: notes, scores, their duration and their
  voices in byte order.
- `src/order.rs`: lexicographic byte order, the order of `String`.
- `src/sort.rs`: the stable sort by offset (defined as insertion sort,
  run as a merge sort) and its laws.
- `src/transcribe.rs`: transcription, and its independence of event order.
- `src/split.rs`: the one-pass split of a score into per-voice sub-scores.
- `src/player.rs`: tick-based playback over half-open windows.
- `app/main.rs`: the demo program; it turns float intensities into
  millionths and prints the scores.
