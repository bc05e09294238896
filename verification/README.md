# notation

A music notation model, verified with Verus: note values, heads, notes and
voices; the quick-code text format that describes bars, parts and voices;
beam grouping, beam directions and levels; head placement; complexes (the
notes of a part that sound together) and the columns of a bar; beam roles,
tie marks and lines per complex; runs of sounding notes with their ties and
lines resolved across bars; and playback data.

## Layout

- `src/`: the verified library. Every public function states its result
  in `ensures` over spec functions; the laws of the library are public
  proof functions beside the functions they speak of.
  - Reading: `qcode.rs` (notes, voices), `barcode.rs` (parts, bars),
    `text.rs`, `decimal.rs`, `utils.rs` (chords, functions, symbols).
  - The model: `core_defs.rs`, `head.rs`, `heads.rs`, `note.rs`,
    `voice.rs`, `part.rs`, `bar.rs`, `numbering.rs` (note ids across a
    score).
  - Arranging: `beamgroup.rs`, `arrange.rs`, `complex.rs`, `setup.rs`,
    `columns.rs`, `matrix.rs`, `beams.rs`, `marks.rs`, `calc.rs`.
  - Runs and playback: `runs.rs`, `score.rs`, `chunks.rs`, `resolve.rs`,
    `playback.rs`.
- `tests/`: tests on concrete values, run against the compiled library.
- `app/`: ordinary Rust around the library: floating-point measures and
  spacing, error and serde types with their outside derives, and checked
  entry points for functions with preconditions.
