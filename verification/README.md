# koharu

The verified core of a comic translation pipeline: it finds the text on pages, has it read and
translated, and has it painted over.

- `src/` is the library. Verus proves its functions against their contracts, but for the trusted
  ones named below, whose contracts it believes. `src/lib.rs` says what its modules hold.
  Properties that relate several functions stand beside them as public proof functions whose names
  begin with `law_`.
- `tests/` runs the library on concrete values.
- `app/` is the program around it: files, the network, the models and all floating point. It hands
  the library plain values and carries out what the library decides.

Few things are trusted and not proved. Each is a small function that calls another crate: `mask.rs`
(morphology and distance transforms of `imageproc`), `page_image.rs` (resizing and JPEG),
`picture.rs` (reading, resizing and writing pictures with `image`), `json.rs` (`serde_json`),
`encoding.rs` (`base64` and lossy text), `storage.rs` (`blake3`) and `identifier.rs` (`uuid`). The
comment above each says what is believed of the call.
