# msgpack

MessagePack encoding and decoding. The wire format is stated as spec
functions, the encoder and decoder are proved against it, and the laws that
tie them together (what a writer emits, the matching reader gives back) are
proved as well.

- `src/format.rs` — the format: what each writer appends (`enc_*`, headers)
  and what each reader makes of its input (`parse_*`, `take_*`).
- `src/encoder.rs`, `src/decoder.rs` — the writer and the reader.
- `src/value.rs` — the dynamically typed `Value` and its model.
- `src/laws.rs` — round trips and shortest-form laws.
- `src/bytes.rs`, `src/convert.rs`, `src/text.rs` — the calls into
  `byteorder`, `num` and `std` that the logic makes, each with its contract.
- `app/` — `rustc_serialize` `Encoder`/`Decoder` impls, `to_msgpack` and
  `from_msgpack`.
