# mpack

A MessagePack library whose logic is verified with Verus.

- `src/` is the verified library. `value.rs` holds the values and their
  model (`SpecValue`); `encode.rs` states, as `write_spec`, the bytes that
  writing a value emits and proves `write_value` against it; `decode.rs`
  states, as `read_spec`, what reading a byte sequence gives and proves the
  reader against it; `laws.rs` proves that a written value reads back, that a
  complete read does not depend on the bytes after it, and that an
  unrecognized byte stays unread; `rpc.rs` builds requests and takes
  responses apart; `text.rs` writes the text that describes a value in
  error messages.
- Floats are held as their bit patterns; turning them into `f32`/`f64` is
  left to the caller.
- `app/` wraps the library for `std::io` streams, raw-memory extended
  values, and a threaded RPC client.
- `tests/` runs the library on concrete values.
