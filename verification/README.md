# oxideav-wavpack

A WavPack codec in Verus: executable Rust with contracts, proved by the verifier.

- `src/` holds the codec. Every function states what it returns; `lib.rs` lists the modules.
- `tests/` runs the codec on concrete values.
- `app/` offers the floating-point encoders and decoders on `f32` samples and `f64` settings. The codec itself works on bit patterns and integers.

Decoding undoes encoding, for plain, floating-point and wide-integer samples, in mono, stereo and multichannel streams, and for hybrid streams with their correction streams. The proofs stand in `block_law.rs`, `encode_stream.rs`, `encode_multichannel.rs` and `hybrid_law.rs`.
