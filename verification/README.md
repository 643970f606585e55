# asap_sketchlib

Sketches for telemetry streams, written in Verus: every executable function of
the library carries a contract that is proved.

- `src/sketches/bloom.rs`: Bloom filters, plain and counting.
- `src/sketches/countminsketch_hll/`: a Count-Min grid of HyperLogLogs, for
  distinct counts per key.
- `src/sketches/hll/`: HyperLogLog registers, ranks, and the stored form.
- `src/sketches/microscope/`: one cell of a sliding-window counter with adaptive
  zoom. `model.rs` is its mathematical model.
- `src/common/`: the bucket matrix, hashed column selection, seeded hashing.
- `src/message_pack_format/`: the envelope around stored sketches, and keys on
  the wire.
- The files named `laws.rs`, and the proof functions named `law_..`, state what
  holds across functions.
- `app/`: floating-point estimates, serde forms, and constructors that check
  their arguments at run time. It is ordinary Rust around the library.

## What is trusted

Calls into other crates are trusted, not proved. There are five, each behind one
small function whose comment says what is claimed of it:

- XXH3 from `twox-hash`, in its 64-bit and its 128-bit form: the value depends on
  the seed and the bytes alone.
- `rmp_serde::Serializer` on the registers of a sketch: the bytes that come out,
  and that writing them into memory succeeds.
- `rmp_serde::from_slice` on such bytes: what is read depends on the bytes alone,
  and registers are read back from their stored form.
- `rmp_serde::Serializer` on the metadata of a sketch: the bytes depend on the
  keys and the fields alone, and writing them into memory succeeds.

Reading any other MessagePack is left to the caller, and so is writing what holds
a floating-point number or is stored as a struct of its own: the encoders and
decoders take the writers and readers as arguments, and say what they make of
each thing that these can give. The laws on stored sketches hold for every pair
of which the reader reads back what the writer wrote.
