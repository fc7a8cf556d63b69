# sqp-core

SQP ink-canister codes: each code is 20 bytes written as 32 RFE32 characters
in eight dashed groups of four. Four bytes carry a clear preview (number,
expiry, color, volume); sixteen carry the full fields, encrypted with RC6
under a key cut from a 4096-byte pool at offsets chosen by the preview.

`src/` is the library, written in Verus, with a contract on every function:

- `rfe32` - the base-32 text codec, with proofs that decoding and encoding
  invert each other;
- `rc6` - the RC6-32/20 key schedule and block cipher, with a proof that
  decryption undoes encryption;
- `codec` - preview and plaintext layouts, key derivation, `encode` and
  `decode`, with a proof of what decoding a freshly encoded code gives;
- `maps`, `generate` - SKU tables, request checks, random generation with
  self-check and uniqueness, and automatic batch names;
- `bytepool`, `qr`, `text` - the key pool, QR rendering and string helpers.

`app/` is the desktop front end (egui): it reads the pool from
`assets/bytepool.bin` next to the program, and saves QR images as PNG.
