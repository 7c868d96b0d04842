# edge_esr

The core of a speech recogniser, verified with Verus.

- `src/` is the library. It holds what decides and computes: the frontend and voice activity
  detection, buffers of the encoder, memory attention, beam search, the streaming session, number
  conversion, English grammar, punctuation, vocabularies and tables, and the kernels of the models.
  Every function states what it returns, and the laws that span functions stand beside them as
  proof functions named `law_..`.
- `tests/` holds plain tests of the library.
- `app/` is ordinary Rust around the library: files, ONNX sessions, operators, and float arithmetic.

Floating-point numbers do not occur in the library. It holds them by their bits, or is generic in
the kind of number and takes the arithmetic as functions; it then states which numbers meet, and in
which order they are added up.

Two calls leave the verified code: decompression of gzip resources by `flate2`, and decoding of
UTF-8 by the standard library. What is believed of them is stated in `src/encoding.rs`; two more
contracts of standard functions stand at the top of `src/text.rs`.
