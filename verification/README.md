# waveform_data

Read, write, and reshape precomputed audio waveform peak data in the BBC
`audiowaveform` formats (binary `.dat` versions 1 and 2, and the matching JSON
object), verified with Verus.

## Layout

- `src/` — the verified library. Every public function states its result in
  `ensures` over a byte-level model of the format:
  - `layout.rs` — the binary layout as spec functions on `Seq<u8>` (header
    fields, sample slots, validity);
  - `bytes.rs`, `header.rs` — little-endian fields and sample encodings;
  - `waveform.rs`, `channel.rs`, `json.rs` — loading, accessors, per-channel
    reads and writes, JSON conversion;
  - `resample.rs`, `concat.rs`, `slice.rs`, `generator.rs` — the reshaping
    operations and peak generation from precomputed levels;
  - `error.rs` — the error type and its messages;
  - `laws.rs` — properties that relate the operations (reload, JSON round
    trip, store-then-read, concatenation, slicing, resampling, peaks).
- `app/` — the parts that work in floating point (durations, times, resampling
  by width, level computation from PCM) and the `Display`/`Error` impls.
- `tests/` — tests run against the compiled library.
