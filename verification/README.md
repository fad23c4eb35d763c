# bubu2bubu

A steganographic chat library with machine-checked contracts (Verus).
Messages are sealed with AES-256-GCM under keys derived from a password,
scrambled, and hidden one bit per pixel in a generated noise image; the
image travels as PNG, in base64, over a Noise-secured link.

## Layout

- `src/stego/` — the hiding pipeline: noise image, position schedules
  (prime, spiral, random, Hénon), channel patterns, bit planes, the chaotic
  shuffle, `encode` and `decode`, and the proof that decoding gives back what
  encoding hid.
- `src/crypto/` — key derivation, AES-GCM, the symmetric ratchet, X25519
  key pairs and the Noise XX sessions.
- `src/net/` — frames, chunked packets and their reassembly, the transport.
- `src/chat/` — profiles and the chat session state machine.
- `src/codec.rs`, `src/text.rs` — hex, base64, decimal text.
- `app/` — the console client: sockets, files, and the chaotic maps in
  floating point, whose values the library takes as integers.
- `tests/` — tests of the library on concrete values.
