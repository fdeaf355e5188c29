# vc_native

A realtime voice changer: microphone in, converted voice out through a virtual microphone that
other programs pick like any other.

- `src/` is the library, verified with Verus. It holds the signal processing, the conversion
  chain, the stitched stream, the worker's hop, the byte and sample formats, and the decisions of
  the host side (virtual microphone, node lookup, control window).
- `app/` is the program: the networks, the sound server, files, threads and the window. It hands
  the library plain values and closures.
- `tests/` runs the library on concrete values.

The library is generic over the number type of a sample. Its contracts say which operations are
applied to which numbers, in which order; `app/number.rs` supplies the operations of `f32` and
`f64`. The networks, the Fourier transform, the rate converter and the clock are closures as well:
a contract says what each is given and what becomes of each answer.
