# gm_save_core

Encrypted, slot-based save files for GameMaker Studio 2, verified with Verus.

A slot file is a 48-byte header (magic `GMSV`, format version, PBKDF2 salt,
ChaCha20-Poly1305 nonce, Unix timestamp, payload length, all little-endian)
followed by the ChaCha20-Poly1305 ciphertext of a JSON document. The key is
derived from the game's passphrase and the file's salt with
PBKDF2-HMAC-SHA256 (100 000 rounds).

## Layout

- `src/` — the verified library
  - `error.rs` — `SaveError` and its view
  - `bytes_le.rs` — little-endian integers and their round-trip lemmas
  - `format.rs` — the header layout, `parse_header`, `encode_slot_file`
  - `crypto.rs` — key derivation, encryption and decryption over the
    `pbkdf2`, `sha2`, `chacha20poly1305`, `zeroize` crates
  - `text.rs` — decimal numbers, ASCII strings, NUL-free text
  - `slots.rs` — slot file names and the sorted list of slots in a directory
  - `save.rs` — `SaveManager`, `SlotMeta`, sealing and opening slot files
  - `state.rs` — the session's installed manager
- `app/` — the native extension: file-system access, the global session
  state, error messages, and the `extern "C"` functions GameMaker calls
- `tests/` — tests of the library
