# ove

The core of a video editing engine, verified with Verus: exact rational
time, an editor timeline whose every command has an exact inverse, the
frame and buffer-pool model, media probing and the decisions of a software
decoder, and the track structures a timeline can be kept in.

## Layout

- `src/time.rs`, `src/arith.rs`, `src/order.rs`: exact rational time
  (reduced `i64` fractions, `i128` intermediates) and its algebra.
- `src/timeline/`: the timeline state, commands, the engine (apply, undo,
  redo, journal replay) and the laws that hold of them; `track.rs`,
  `gap.rs` and `avl.rs` hold position-addressed tracks (vector, gap buffer
  with a lazily rebuilt start index, order-statistic AVL tree with exact
  subtree sums) under one sequence contract.
- `src/media/`: content-hash asset identity, frame envelopes, the frame
  pool with generation-tagged stale detection, probe descriptions,
  keyframe indexes and frame-rate reports.
- `src/decode.rs`, `src/adapter.rs`: the decoder abstraction and every
  decision of the libav-based software adapter, taken on plain values.
- `src/composite.rs`: the exact integer reference of the two-frame YUV
  composite.
- `src/interop.rs`, `src/boundary.rs`: the values and operations exposed to
  other languages.
- `src/text.rs`: decimal and hex text used in messages.
- `app/`: the I/O around the library: the probe cache,
  file hashing, serde forms, and the libav calls of the adapter.
- `tests/`: executable tests of the library.
