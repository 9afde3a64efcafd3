# wsntp — What's Signed On The Picture?

A command-line tool that hides an Ed25519-signed message in the frequency
domain of an RGB picture, and reads it back with the signer's public key.

## Layout

- `src/` — the verified library (Verus).
  - `payload` — the signed container: `"WSNT" | version | reserved | public key | signature | length | message`.
  - `crypto` — Ed25519 key generation, signing and verification (`ed25519-dalek`).
  - `block` — 8×8 blocks, the candidate coefficients of a block's spectrum,
    and the key-driven Fisher–Yates orders of blocks and coefficients (`rand`'s `StdRng`).
  - `embed` — the embedding plan and session: which block and coefficient
    receives which payload bit.
  - `extract` — the extraction session: bit packing, the search for the
    container, signature and key checks.
  - `qim` — the parity rule of quantization index modulation.
  - `picture` — RGB pictures as plain bytes and their blocks.
  - `keys` — key files, aliases and the configuration file, as text.
  - `report`, `text`, `error` — what the commands print, and the errors.
- `app/` — the program: command line, files, images, and the floating-point
  work (FFT, quantization of real values) around the library's sessions.
- `tests/` — tests of the library.
