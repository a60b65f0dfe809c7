# MIDI Autocomplete

A desktop piano recorder that lets a model continue what was played. The logic is a library
written in [Verus](https://github.com/verus-lang/verus). Its functions are verified against their
contracts, but for the few in `src/smf.rs` that hand values to `midly` and back.

- `src/state.rs`, `src/keys.rs`, `src/midi.rs`: the timeline, held keys and the sustain pedal,
  and recording from an input device.
- `src/smf.rs`, `src/headers.rs`, `src/midi_file.rs`, `src/midi_export.rs`,
  `src/midi_roundtrip.rs`: standard MIDI files, and why an exported timeline can be imported
  again.
- `src/model.rs`, `src/generated.rs`: prompts, replies, and placing continuations.
- `src/playback.rs`, `src/replay.rs`, `src/timeline.rs`: the playhead, and planning what is
  rendered and sent.
- `src/config.rs`, `src/ui.rs`: the settings, and what the controls do.
- `src/order.rs`, `src/text.rs`: stable sorting, and numbers and lists as text.
- `app/`: the program around the library. It needs GTK4 and, on Linux, the ALSA headers.

Reading and writing the bytes of MIDI files is left to `midly`. What the library believes of it
is stated in `src/smf.rs` and not proved. Times are whole milliseconds in the library; the program
converts them to and from beats.
