//! Binary encoding and decoding of values, with verified contracts.
//!
//! Every multi-byte integer is written big-endian (network byte order) unless
//! the little-endian entry points (`CodecLe`, `decode_le`, `encode_le`) are used.
//! Variable-length data carries a length prefix. The layout of a derived
//! record or enum is planned by `plan` and written by code that calls the
//! helpers of `fields`, `bits` and `seq`.

pub mod bits;
pub mod bytes;
pub mod codec;
pub mod collections;
pub mod error;
pub mod fields;
pub mod ints;
pub mod maps;
pub mod model;
pub mod plan;
pub mod record;
pub mod seq;
pub mod text;
pub mod tuples;

pub use bits::{pack_bits, unpack_bits};
pub use bytes::Bytes;
pub use codec::{check, decode_le, encode_le, Codec, CodecLe, MAX_DECODE_LEN};
pub use error::CodecError;
pub use fields::{decode_magic, encode_padding, in_field, skip_padding};
pub use plan::{
    field_label, plan_enum, plan_fields, Endian, FieldKind, FieldOp, FieldProblem, FieldSpec, PlanError,
    Read, VariantSpec,
};
pub use seq::{LenPrefix, LenRule};
