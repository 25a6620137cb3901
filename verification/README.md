# autocodec

Binary encoding and decoding of Rust values, with contracts proved by Verus.

Integers are written big-endian (network byte order) unless a field asks
for little-endian; `bool` is one byte; `String`, `Vec<T>` and `Box<[T]>`
carry a length prefix (`u32` unless a field's `LenRule` says otherwise) and
`HashMap<K, V>` a `u32` entry count; `Option<T>` a tag byte; arrays and
tuples (of two to eight components) their elements in order.
Records and enums encode their fields in declaration order, enums after a
discriminant, as `plan` lays them out.

## Layout

- `src/` is the verified library.
  - `model.rs`: abstract values (`Value`) and the byte arithmetic of integers.
  - `codec.rs`: the `Codec` and `CodecLe` traits, their laws, byte readers and writers.
  - `ints.rs`: the integer codecs and their laws.
  - `seq.rs`: length prefixes, length-prefixed sequences and UTF-8 text.
  - `collections.rs`: `bool`, `Option`, `Box`, `Vec`, `String`, arrays, `Box<[T]>`.
  - `tuples.rs`: tuples of two to eight components.
  - `maps.rs`: `HashMap`.
  - `bytes.rs`: `Bytes`, a length-prefixed run of bytes.
  - `plan.rs`: the layout of a derived record or enum from its fields'
    `#[codec(..)]` settings: byte order, length rules, skipped, constant and
    padded fields, bitfield groups, discriminant numbering, field labels.
  - `record.rs`: what a planned layout writes and reads, step by step,
    given each field's own codec, and the roundtrip laws of a planned record
    and of a planned enum.
  - `fields.rs`: helpers for record and enum code: field error context,
    padding, constant fields.
  - `bits.rs`: bitfield groups packed most significant bit first.
  - `text.rs`: comparison of names and decimal rendering of integers.
  - `error.rs`: `CodecError` and its messages.
- `app/` holds what is not verified: the code generator, which reads struct
  and enum syntax trees into `FieldSpec` and `VariantSpec`, asks `plan` for
  the layout and turns it into a `Codec` impl, and a copy of `CodecError`
  with `Display` and `std::error::Error`.
- `tests/` holds the tests.

Each implementation of `Codec` states its behaviour through `spec_encode`,
`spec_decode` and `spec_value`, and sets `obeys_codec_spec` where it does.
Where it does, the laws `codec_roundtrips` (decoding an encoding gives the
value back and leaves the following bytes untouched) and
`codec_consumes_prefix` are proved for the implementations of the library
(containers as far as their elements obey them).
