//! `Codec` and `CodecLe` for the fixed-width integers.
use crate::codec::{
    codec_consumes_prefix, codec_le_consumes_prefix, codec_le_roundtrips, codec_roundtrips,
    from_twos_complement, int_bytes, int_decode, int_width, is_suffix, read_uint, twos_complement,
    write_uint, Codec, CodecLe,
};
use crate::error::CodecError;
use crate::model::{
    big_endian_bytes, lemma_be_bytes_order, lemma_le_bytes_order, little_endian_bytes,
    lemma_pow256_values, lemma_signed_roundtrip, lemma_uint_roundtrip, lemma_uint_value_bytes,
    lemma_unsigned_roundtrip, pow256, signed_of, uint_value, unsigned_of, Value,
};
use vstd::prelude::*;

verus! {

/// An integer of `n` bytes, signed or not, fits the range of its type.
pub open spec fn int_in_range(x: int, n: nat, signed: bool) -> bool {
    if signed {
        -(pow256(n) as int) <= 2 * x < pow256(n)
    } else {
        0 <= x < pow256(n)
    }
}

impl Codec for u8 {
    open spec fn obeys_codec_spec() -> bool {
        true
    }

    open spec fn spec_value(&self) -> Value {
        Value::Int(*self as int)
    }

    open spec fn spec_encode(&self) -> Seq<u8> {
        int_bytes(*self as int, 1, false)
    }

    open spec fn spec_decode(input: Seq<u8>) -> Result<(Value, Seq<u8>), CodecError> {
        int_decode(input, 1, false, false)
    }

    fn decode(input: &[u8]) -> (r: Result<(Self, &[u8]), CodecError>) {
        proof {
            lemma_pow256_values();
        }
        match read_uint(input, 1, false) {
            Ok((u, rest)) => Ok((u as u8, rest)),
            Err(e) => Err(e),
        }
    }

    fn encode(&self, buf: &mut Vec<u8>) {
        proof {
            lemma_pow256_values();
        }
        write_uint(buf, *self as u128, 1, false)
    }

    fn encoded_size(&self) -> (r: usize) {
        proof {
            lemma_pow256_values();
            lemma_int_bytes_len(*self as int, 1, false);
        }
        1
    }
}

impl Codec for u16 {
    open spec fn obeys_codec_spec() -> bool {
        true
    }

    open spec fn spec_value(&self) -> Value {
        Value::Int(*self as int)
    }

    open spec fn spec_encode(&self) -> Seq<u8> {
        int_bytes(*self as int, 2, false)
    }

    open spec fn spec_decode(input: Seq<u8>) -> Result<(Value, Seq<u8>), CodecError> {
        int_decode(input, 2, false, false)
    }

    fn decode(input: &[u8]) -> (r: Result<(Self, &[u8]), CodecError>) {
        proof {
            lemma_pow256_values();
        }
        match read_uint(input, 2, false) {
            Ok((u, rest)) => Ok((u as u16, rest)),
            Err(e) => Err(e),
        }
    }

    fn encode(&self, buf: &mut Vec<u8>) {
        proof {
            lemma_pow256_values();
        }
        write_uint(buf, *self as u128, 2, false)
    }

    fn encoded_size(&self) -> (r: usize) {
        proof {
            lemma_pow256_values();
            lemma_int_bytes_len(*self as int, 2, false);
        }
        2
    }
}

impl Codec for u32 {
    open spec fn obeys_codec_spec() -> bool {
        true
    }

    open spec fn spec_value(&self) -> Value {
        Value::Int(*self as int)
    }

    open spec fn spec_encode(&self) -> Seq<u8> {
        int_bytes(*self as int, 4, false)
    }

    open spec fn spec_decode(input: Seq<u8>) -> Result<(Value, Seq<u8>), CodecError> {
        int_decode(input, 4, false, false)
    }

    fn decode(input: &[u8]) -> (r: Result<(Self, &[u8]), CodecError>) {
        proof {
            lemma_pow256_values();
        }
        match read_uint(input, 4, false) {
            Ok((u, rest)) => Ok((u as u32, rest)),
            Err(e) => Err(e),
        }
    }

    fn encode(&self, buf: &mut Vec<u8>) {
        proof {
            lemma_pow256_values();
        }
        write_uint(buf, *self as u128, 4, false)
    }

    fn encoded_size(&self) -> (r: usize) {
        proof {
            lemma_pow256_values();
            lemma_int_bytes_len(*self as int, 4, false);
        }
        4
    }
}

impl Codec for u64 {
    open spec fn obeys_codec_spec() -> bool {
        true
    }

    open spec fn spec_value(&self) -> Value {
        Value::Int(*self as int)
    }

    open spec fn spec_encode(&self) -> Seq<u8> {
        int_bytes(*self as int, 8, false)
    }

    open spec fn spec_decode(input: Seq<u8>) -> Result<(Value, Seq<u8>), CodecError> {
        int_decode(input, 8, false, false)
    }

    fn decode(input: &[u8]) -> (r: Result<(Self, &[u8]), CodecError>) {
        proof {
            lemma_pow256_values();
        }
        match read_uint(input, 8, false) {
            Ok((u, rest)) => Ok((u as u64, rest)),
            Err(e) => Err(e),
        }
    }

    fn encode(&self, buf: &mut Vec<u8>) {
        proof {
            lemma_pow256_values();
        }
        write_uint(buf, *self as u128, 8, false)
    }

    fn encoded_size(&self) -> (r: usize) {
        proof {
            lemma_pow256_values();
            lemma_int_bytes_len(*self as int, 8, false);
        }
        8
    }
}

impl Codec for u128 {
    open spec fn obeys_codec_spec() -> bool {
        true
    }

    open spec fn spec_value(&self) -> Value {
        Value::Int(*self as int)
    }

    open spec fn spec_encode(&self) -> Seq<u8> {
        int_bytes(*self as int, 16, false)
    }

    open spec fn spec_decode(input: Seq<u8>) -> Result<(Value, Seq<u8>), CodecError> {
        int_decode(input, 16, false, false)
    }

    fn decode(input: &[u8]) -> (r: Result<(Self, &[u8]), CodecError>) {
        proof {
            lemma_pow256_values();
        }
        match read_uint(input, 16, false) {
            Ok((u, rest)) => Ok((u as u128, rest)),
            Err(e) => Err(e),
        }
    }

    fn encode(&self, buf: &mut Vec<u8>) {
        proof {
            lemma_pow256_values();
        }
        write_uint(buf, *self as u128, 16, false)
    }

    fn encoded_size(&self) -> (r: usize) {
        proof {
            lemma_pow256_values();
            lemma_int_bytes_len(*self as int, 16, false);
        }
        16
    }
}

impl Codec for i8 {
    open spec fn obeys_codec_spec() -> bool {
        true
    }

    open spec fn spec_value(&self) -> Value {
        Value::Int(*self as int)
    }

    open spec fn spec_encode(&self) -> Seq<u8> {
        int_bytes(*self as int, 1, false)
    }

    open spec fn spec_decode(input: Seq<u8>) -> Result<(Value, Seq<u8>), CodecError> {
        int_decode(input, 1, true, false)
    }

    fn decode(input: &[u8]) -> (r: Result<(Self, &[u8]), CodecError>) {
        proof {
            lemma_pow256_values();
        }
        match read_uint(input, 1, false) {
            Ok((u, rest)) => {
                let x = from_twos_complement(u, 1);
                Ok((x as i8, rest))
            },
            Err(e) => Err(e),
        }
    }

    fn encode(&self, buf: &mut Vec<u8>) {
        proof {
            lemma_pow256_values();
        }
        let u = twos_complement(*self as i128, 1);
        write_uint(buf, u, 1, false)
    }

    fn encoded_size(&self) -> (r: usize) {
        proof {
            lemma_pow256_values();
            lemma_int_bytes_len(*self as int, 1, false);
        }
        1
    }
}

impl Codec for i16 {
    open spec fn obeys_codec_spec() -> bool {
        true
    }

    open spec fn spec_value(&self) -> Value {
        Value::Int(*self as int)
    }

    open spec fn spec_encode(&self) -> Seq<u8> {
        int_bytes(*self as int, 2, false)
    }

    open spec fn spec_decode(input: Seq<u8>) -> Result<(Value, Seq<u8>), CodecError> {
        int_decode(input, 2, true, false)
    }

    fn decode(input: &[u8]) -> (r: Result<(Self, &[u8]), CodecError>) {
        proof {
            lemma_pow256_values();
        }
        match read_uint(input, 2, false) {
            Ok((u, rest)) => {
                let x = from_twos_complement(u, 2);
                Ok((x as i16, rest))
            },
            Err(e) => Err(e),
        }
    }

    fn encode(&self, buf: &mut Vec<u8>) {
        proof {
            lemma_pow256_values();
        }
        let u = twos_complement(*self as i128, 2);
        write_uint(buf, u, 2, false)
    }

    fn encoded_size(&self) -> (r: usize) {
        proof {
            lemma_pow256_values();
            lemma_int_bytes_len(*self as int, 2, false);
        }
        2
    }
}

impl Codec for i32 {
    open spec fn obeys_codec_spec() -> bool {
        true
    }

    open spec fn spec_value(&self) -> Value {
        Value::Int(*self as int)
    }

    open spec fn spec_encode(&self) -> Seq<u8> {
        int_bytes(*self as int, 4, false)
    }

    open spec fn spec_decode(input: Seq<u8>) -> Result<(Value, Seq<u8>), CodecError> {
        int_decode(input, 4, true, false)
    }

    fn decode(input: &[u8]) -> (r: Result<(Self, &[u8]), CodecError>) {
        proof {
            lemma_pow256_values();
        }
        match read_uint(input, 4, false) {
            Ok((u, rest)) => {
                let x = from_twos_complement(u, 4);
                Ok((x as i32, rest))
            },
            Err(e) => Err(e),
        }
    }

    fn encode(&self, buf: &mut Vec<u8>) {
        proof {
            lemma_pow256_values();
        }
        let u = twos_complement(*self as i128, 4);
        write_uint(buf, u, 4, false)
    }

    fn encoded_size(&self) -> (r: usize) {
        proof {
            lemma_pow256_values();
            lemma_int_bytes_len(*self as int, 4, false);
        }
        4
    }
}

impl Codec for i64 {
    open spec fn obeys_codec_spec() -> bool {
        true
    }

    open spec fn spec_value(&self) -> Value {
        Value::Int(*self as int)
    }

    open spec fn spec_encode(&self) -> Seq<u8> {
        int_bytes(*self as int, 8, false)
    }

    open spec fn spec_decode(input: Seq<u8>) -> Result<(Value, Seq<u8>), CodecError> {
        int_decode(input, 8, true, false)
    }

    fn decode(input: &[u8]) -> (r: Result<(Self, &[u8]), CodecError>) {
        proof {
            lemma_pow256_values();
        }
        match read_uint(input, 8, false) {
            Ok((u, rest)) => {
                let x = from_twos_complement(u, 8);
                Ok((x as i64, rest))
            },
            Err(e) => Err(e),
        }
    }

    fn encode(&self, buf: &mut Vec<u8>) {
        proof {
            lemma_pow256_values();
        }
        let u = twos_complement(*self as i128, 8);
        write_uint(buf, u, 8, false)
    }

    fn encoded_size(&self) -> (r: usize) {
        proof {
            lemma_pow256_values();
            lemma_int_bytes_len(*self as int, 8, false);
        }
        8
    }
}

impl Codec for i128 {
    open spec fn obeys_codec_spec() -> bool {
        true
    }

    open spec fn spec_value(&self) -> Value {
        Value::Int(*self as int)
    }

    open spec fn spec_encode(&self) -> Seq<u8> {
        int_bytes(*self as int, 16, false)
    }

    open spec fn spec_decode(input: Seq<u8>) -> Result<(Value, Seq<u8>), CodecError> {
        int_decode(input, 16, true, false)
    }

    fn decode(input: &[u8]) -> (r: Result<(Self, &[u8]), CodecError>) {
        proof {
            lemma_pow256_values();
        }
        match read_uint(input, 16, false) {
            Ok((u, rest)) => {
                let x = from_twos_complement(u, 16);
                Ok((x as i128, rest))
            },
            Err(e) => Err(e),
        }
    }

    fn encode(&self, buf: &mut Vec<u8>) {
        proof {
            lemma_pow256_values();
        }
        let u = twos_complement(*self as i128, 16);
        write_uint(buf, u, 16, false)
    }

    fn encoded_size(&self) -> (r: usize) {
        proof {
            lemma_pow256_values();
            lemma_int_bytes_len(*self as int, 16, false);
        }
        16
    }
}

impl CodecLe for u8 {
    open spec fn obeys_codec_le_spec() -> bool {
        true
    }

    open spec fn spec_value_le(&self) -> Value {
        Value::Int(*self as int)
    }

    open spec fn spec_encode_le(&self) -> Seq<u8> {
        int_bytes(*self as int, 1, true)
    }

    open spec fn spec_decode_le(input: Seq<u8>) -> Result<(Value, Seq<u8>), CodecError> {
        int_decode(input, 1, false, true)
    }

    fn decode_le(input: &[u8]) -> (r: Result<(Self, &[u8]), CodecError>) {
        proof {
            lemma_pow256_values();
        }
        match read_uint(input, 1, true) {
            Ok((u, rest)) => Ok((u as u8, rest)),
            Err(e) => Err(e),
        }
    }

    fn encode_le(&self, buf: &mut Vec<u8>) {
        proof {
            lemma_pow256_values();
        }
        write_uint(buf, *self as u128, 1, true)
    }
}

impl CodecLe for u16 {
    open spec fn obeys_codec_le_spec() -> bool {
        true
    }

    open spec fn spec_value_le(&self) -> Value {
        Value::Int(*self as int)
    }

    open spec fn spec_encode_le(&self) -> Seq<u8> {
        int_bytes(*self as int, 2, true)
    }

    open spec fn spec_decode_le(input: Seq<u8>) -> Result<(Value, Seq<u8>), CodecError> {
        int_decode(input, 2, false, true)
    }

    fn decode_le(input: &[u8]) -> (r: Result<(Self, &[u8]), CodecError>) {
        proof {
            lemma_pow256_values();
        }
        match read_uint(input, 2, true) {
            Ok((u, rest)) => Ok((u as u16, rest)),
            Err(e) => Err(e),
        }
    }

    fn encode_le(&self, buf: &mut Vec<u8>) {
        proof {
            lemma_pow256_values();
        }
        write_uint(buf, *self as u128, 2, true)
    }
}

impl CodecLe for u32 {
    open spec fn obeys_codec_le_spec() -> bool {
        true
    }

    open spec fn spec_value_le(&self) -> Value {
        Value::Int(*self as int)
    }

    open spec fn spec_encode_le(&self) -> Seq<u8> {
        int_bytes(*self as int, 4, true)
    }

    open spec fn spec_decode_le(input: Seq<u8>) -> Result<(Value, Seq<u8>), CodecError> {
        int_decode(input, 4, false, true)
    }

    fn decode_le(input: &[u8]) -> (r: Result<(Self, &[u8]), CodecError>) {
        proof {
            lemma_pow256_values();
        }
        match read_uint(input, 4, true) {
            Ok((u, rest)) => Ok((u as u32, rest)),
            Err(e) => Err(e),
        }
    }

    fn encode_le(&self, buf: &mut Vec<u8>) {
        proof {
            lemma_pow256_values();
        }
        write_uint(buf, *self as u128, 4, true)
    }
}

impl CodecLe for u64 {
    open spec fn obeys_codec_le_spec() -> bool {
        true
    }

    open spec fn spec_value_le(&self) -> Value {
        Value::Int(*self as int)
    }

    open spec fn spec_encode_le(&self) -> Seq<u8> {
        int_bytes(*self as int, 8, true)
    }

    open spec fn spec_decode_le(input: Seq<u8>) -> Result<(Value, Seq<u8>), CodecError> {
        int_decode(input, 8, false, true)
    }

    fn decode_le(input: &[u8]) -> (r: Result<(Self, &[u8]), CodecError>) {
        proof {
            lemma_pow256_values();
        }
        match read_uint(input, 8, true) {
            Ok((u, rest)) => Ok((u as u64, rest)),
            Err(e) => Err(e),
        }
    }

    fn encode_le(&self, buf: &mut Vec<u8>) {
        proof {
            lemma_pow256_values();
        }
        write_uint(buf, *self as u128, 8, true)
    }
}

impl CodecLe for u128 {
    open spec fn obeys_codec_le_spec() -> bool {
        true
    }

    open spec fn spec_value_le(&self) -> Value {
        Value::Int(*self as int)
    }

    open spec fn spec_encode_le(&self) -> Seq<u8> {
        int_bytes(*self as int, 16, true)
    }

    open spec fn spec_decode_le(input: Seq<u8>) -> Result<(Value, Seq<u8>), CodecError> {
        int_decode(input, 16, false, true)
    }

    fn decode_le(input: &[u8]) -> (r: Result<(Self, &[u8]), CodecError>) {
        proof {
            lemma_pow256_values();
        }
        match read_uint(input, 16, true) {
            Ok((u, rest)) => Ok((u as u128, rest)),
            Err(e) => Err(e),
        }
    }

    fn encode_le(&self, buf: &mut Vec<u8>) {
        proof {
            lemma_pow256_values();
        }
        write_uint(buf, *self as u128, 16, true)
    }
}

impl CodecLe for i8 {
    open spec fn obeys_codec_le_spec() -> bool {
        true
    }

    open spec fn spec_value_le(&self) -> Value {
        Value::Int(*self as int)
    }

    open spec fn spec_encode_le(&self) -> Seq<u8> {
        int_bytes(*self as int, 1, true)
    }

    open spec fn spec_decode_le(input: Seq<u8>) -> Result<(Value, Seq<u8>), CodecError> {
        int_decode(input, 1, true, true)
    }

    fn decode_le(input: &[u8]) -> (r: Result<(Self, &[u8]), CodecError>) {
        proof {
            lemma_pow256_values();
        }
        match read_uint(input, 1, true) {
            Ok((u, rest)) => {
                let x = from_twos_complement(u, 1);
                Ok((x as i8, rest))
            },
            Err(e) => Err(e),
        }
    }

    fn encode_le(&self, buf: &mut Vec<u8>) {
        proof {
            lemma_pow256_values();
        }
        let u = twos_complement(*self as i128, 1);
        write_uint(buf, u, 1, true)
    }
}

impl CodecLe for i16 {
    open spec fn obeys_codec_le_spec() -> bool {
        true
    }

    open spec fn spec_value_le(&self) -> Value {
        Value::Int(*self as int)
    }

    open spec fn spec_encode_le(&self) -> Seq<u8> {
        int_bytes(*self as int, 2, true)
    }

    open spec fn spec_decode_le(input: Seq<u8>) -> Result<(Value, Seq<u8>), CodecError> {
        int_decode(input, 2, true, true)
    }

    fn decode_le(input: &[u8]) -> (r: Result<(Self, &[u8]), CodecError>) {
        proof {
            lemma_pow256_values();
        }
        match read_uint(input, 2, true) {
            Ok((u, rest)) => {
                let x = from_twos_complement(u, 2);
                Ok((x as i16, rest))
            },
            Err(e) => Err(e),
        }
    }

    fn encode_le(&self, buf: &mut Vec<u8>) {
        proof {
            lemma_pow256_values();
        }
        let u = twos_complement(*self as i128, 2);
        write_uint(buf, u, 2, true)
    }
}

impl CodecLe for i32 {
    open spec fn obeys_codec_le_spec() -> bool {
        true
    }

    open spec fn spec_value_le(&self) -> Value {
        Value::Int(*self as int)
    }

    open spec fn spec_encode_le(&self) -> Seq<u8> {
        int_bytes(*self as int, 4, true)
    }

    open spec fn spec_decode_le(input: Seq<u8>) -> Result<(Value, Seq<u8>), CodecError> {
        int_decode(input, 4, true, true)
    }

    fn decode_le(input: &[u8]) -> (r: Result<(Self, &[u8]), CodecError>) {
        proof {
            lemma_pow256_values();
        }
        match read_uint(input, 4, true) {
            Ok((u, rest)) => {
                let x = from_twos_complement(u, 4);
                Ok((x as i32, rest))
            },
            Err(e) => Err(e),
        }
    }

    fn encode_le(&self, buf: &mut Vec<u8>) {
        proof {
            lemma_pow256_values();
        }
        let u = twos_complement(*self as i128, 4);
        write_uint(buf, u, 4, true)
    }
}

impl CodecLe for i64 {
    open spec fn obeys_codec_le_spec() -> bool {
        true
    }

    open spec fn spec_value_le(&self) -> Value {
        Value::Int(*self as int)
    }

    open spec fn spec_encode_le(&self) -> Seq<u8> {
        int_bytes(*self as int, 8, true)
    }

    open spec fn spec_decode_le(input: Seq<u8>) -> Result<(Value, Seq<u8>), CodecError> {
        int_decode(input, 8, true, true)
    }

    fn decode_le(input: &[u8]) -> (r: Result<(Self, &[u8]), CodecError>) {
        proof {
            lemma_pow256_values();
        }
        match read_uint(input, 8, true) {
            Ok((u, rest)) => {
                let x = from_twos_complement(u, 8);
                Ok((x as i64, rest))
            },
            Err(e) => Err(e),
        }
    }

    fn encode_le(&self, buf: &mut Vec<u8>) {
        proof {
            lemma_pow256_values();
        }
        let u = twos_complement(*self as i128, 8);
        write_uint(buf, u, 8, true)
    }
}

impl CodecLe for i128 {
    open spec fn obeys_codec_le_spec() -> bool {
        true
    }

    open spec fn spec_value_le(&self) -> Value {
        Value::Int(*self as int)
    }

    open spec fn spec_encode_le(&self) -> Seq<u8> {
        int_bytes(*self as int, 16, true)
    }

    open spec fn spec_decode_le(input: Seq<u8>) -> Result<(Value, Seq<u8>), CodecError> {
        int_decode(input, 16, true, true)
    }

    fn decode_le(input: &[u8]) -> (r: Result<(Self, &[u8]), CodecError>) {
        proof {
            lemma_pow256_values();
        }
        match read_uint(input, 16, true) {
            Ok((u, rest)) => {
                let x = from_twos_complement(u, 16);
                Ok((x as i128, rest))
            },
            Err(e) => Err(e),
        }
    }

    fn encode_le(&self, buf: &mut Vec<u8>) {
        proof {
            lemma_pow256_values();
        }
        let u = twos_complement(*self as i128, 16);
        write_uint(buf, u, 16, true)
    }
}

/// The encoding of an `n`-byte integer has `n` bytes.
pub proof fn lemma_int_bytes_len(x: int, n: nat, little: bool)
    ensures
        int_bytes(x, n, little).len() == n,
{
    crate::model::lemma_be_bytes_value(unsigned_of(x, n), n);
    crate::model::lemma_le_bytes_value(unsigned_of(x, n), n);
}

/// Decoding the encoding of an in-range integer, followed by any bytes,
/// gives back the integer and exactly those bytes.
pub proof fn lemma_int_roundtrip(x: int, n: nat, signed: bool, little: bool, rest: Seq<u8>)
    requires
        int_width(n),
        int_in_range(x, n, signed),
    ensures
        int_decode(int_bytes(x, n, little) + rest, n, signed, little) == Ok::<
            (Value, Seq<u8>),
            CodecError,
        >((Value::Int(x), rest)),
{
    let u = unsigned_of(x, n);
    if signed {
        lemma_signed_roundtrip(x, n);
    }
    lemma_uint_roundtrip(u, n, little);
    let b = int_bytes(x, n, little);
    assert((b + rest).take(n as int) =~= b);
    assert((b + rest).skip(n as int) =~= rest);
}

/// Integer encodings are canonical: the bytes that a successful decode
/// consumed are the encoding of the integer it produced.
pub proof fn lemma_int_canonical(input: Seq<u8>, n: nat, signed: bool, little: bool)
    requires
        int_width(n),
    ensures
        int_decode(input, n, signed, little) matches Ok((Value::Int(x), rest)) ==> {
            &&& int_in_range(x, n, signed)
            &&& input == int_bytes(x, n, little) + rest
        },
{
    if input.len() >= n {
        let s = input.take(n as int);
        lemma_uint_value_bytes(s, little);
        let u = uint_value(s, little);
        if signed {
            lemma_unsigned_roundtrip(u, n);
        }
        assert(input =~= s + input.skip(n as int));
    }
}

/// The byte order of the integers: `encode` writes the `n` bytes of an
/// `n`-byte integer most significant first and `encode_le` least significant
/// first, a negative number as its two's complement `unsigned_of(x, n)`.
pub proof fn lemma_integer_byte_order()
    ensures
        forall|x: u8| #![trigger x.spec_encode()] big_endian_bytes(x.spec_encode(), x as nat, 1),
        forall|x: u8| #![trigger x.spec_encode_le()] little_endian_bytes(x.spec_encode_le(), x as nat, 1),
        forall|x: u16| #![trigger x.spec_encode()] big_endian_bytes(x.spec_encode(), x as nat, 2),
        forall|x: u16| #![trigger x.spec_encode_le()] little_endian_bytes(x.spec_encode_le(), x as nat, 2),
        forall|x: u32| #![trigger x.spec_encode()] big_endian_bytes(x.spec_encode(), x as nat, 4),
        forall|x: u32| #![trigger x.spec_encode_le()] little_endian_bytes(x.spec_encode_le(), x as nat, 4),
        forall|x: u64| #![trigger x.spec_encode()] big_endian_bytes(x.spec_encode(), x as nat, 8),
        forall|x: u64| #![trigger x.spec_encode_le()] little_endian_bytes(x.spec_encode_le(), x as nat, 8),
        forall|x: u128| #![trigger x.spec_encode()] big_endian_bytes(x.spec_encode(), x as nat, 16),
        forall|x: u128| #![trigger x.spec_encode_le()] little_endian_bytes(x.spec_encode_le(), x as nat, 16),
        forall|x: i8| #![trigger x.spec_encode()] big_endian_bytes(x.spec_encode(), unsigned_of(x as int, 1), 1),
        forall|x: i8| #![trigger x.spec_encode_le()] little_endian_bytes(x.spec_encode_le(), unsigned_of(x as int, 1), 1),
        forall|x: i16| #![trigger x.spec_encode()] big_endian_bytes(x.spec_encode(), unsigned_of(x as int, 2), 2),
        forall|x: i16| #![trigger x.spec_encode_le()] little_endian_bytes(x.spec_encode_le(), unsigned_of(x as int, 2), 2),
        forall|x: i32| #![trigger x.spec_encode()] big_endian_bytes(x.spec_encode(), unsigned_of(x as int, 4), 4),
        forall|x: i32| #![trigger x.spec_encode_le()] little_endian_bytes(x.spec_encode_le(), unsigned_of(x as int, 4), 4),
        forall|x: i64| #![trigger x.spec_encode()] big_endian_bytes(x.spec_encode(), unsigned_of(x as int, 8), 8),
        forall|x: i64| #![trigger x.spec_encode_le()] little_endian_bytes(x.spec_encode_le(), unsigned_of(x as int, 8), 8),
        forall|x: i128| #![trigger x.spec_encode()] big_endian_bytes(x.spec_encode(), unsigned_of(x as int, 16), 16),
        forall|x: i128| #![trigger x.spec_encode_le()] little_endian_bytes(x.spec_encode_le(), unsigned_of(x as int, 16), 16),
{
    assert forall|x: u8| #![trigger x.spec_encode()] big_endian_bytes(x.spec_encode(), x as nat, 1) by {
        lemma_be_bytes_order(unsigned_of(x as int, 1), 1);
    }
    assert forall|x: u8| #![trigger x.spec_encode_le()] little_endian_bytes(x.spec_encode_le(), x as nat, 1) by {
        lemma_le_bytes_order(unsigned_of(x as int, 1), 1);
    }
    assert forall|x: u16| #![trigger x.spec_encode()] big_endian_bytes(x.spec_encode(), x as nat, 2) by {
        lemma_be_bytes_order(unsigned_of(x as int, 2), 2);
    }
    assert forall|x: u16| #![trigger x.spec_encode_le()] little_endian_bytes(x.spec_encode_le(), x as nat, 2) by {
        lemma_le_bytes_order(unsigned_of(x as int, 2), 2);
    }
    assert forall|x: u32| #![trigger x.spec_encode()] big_endian_bytes(x.spec_encode(), x as nat, 4) by {
        lemma_be_bytes_order(unsigned_of(x as int, 4), 4);
    }
    assert forall|x: u32| #![trigger x.spec_encode_le()] little_endian_bytes(x.spec_encode_le(), x as nat, 4) by {
        lemma_le_bytes_order(unsigned_of(x as int, 4), 4);
    }
    assert forall|x: u64| #![trigger x.spec_encode()] big_endian_bytes(x.spec_encode(), x as nat, 8) by {
        lemma_be_bytes_order(unsigned_of(x as int, 8), 8);
    }
    assert forall|x: u64| #![trigger x.spec_encode_le()] little_endian_bytes(x.spec_encode_le(), x as nat, 8) by {
        lemma_le_bytes_order(unsigned_of(x as int, 8), 8);
    }
    assert forall|x: u128| #![trigger x.spec_encode()] big_endian_bytes(x.spec_encode(), x as nat, 16) by {
        lemma_be_bytes_order(unsigned_of(x as int, 16), 16);
    }
    assert forall|x: u128| #![trigger x.spec_encode_le()] little_endian_bytes(x.spec_encode_le(), x as nat, 16) by {
        lemma_le_bytes_order(unsigned_of(x as int, 16), 16);
    }
    assert forall|x: i8| #![trigger x.spec_encode()] big_endian_bytes(x.spec_encode(), unsigned_of(x as int, 1), 1) by {
        lemma_be_bytes_order(unsigned_of(x as int, 1), 1);
    }
    assert forall|x: i8| #![trigger x.spec_encode_le()] little_endian_bytes(x.spec_encode_le(), unsigned_of(x as int, 1), 1) by {
        lemma_le_bytes_order(unsigned_of(x as int, 1), 1);
    }
    assert forall|x: i16| #![trigger x.spec_encode()] big_endian_bytes(x.spec_encode(), unsigned_of(x as int, 2), 2) by {
        lemma_be_bytes_order(unsigned_of(x as int, 2), 2);
    }
    assert forall|x: i16| #![trigger x.spec_encode_le()] little_endian_bytes(x.spec_encode_le(), unsigned_of(x as int, 2), 2) by {
        lemma_le_bytes_order(unsigned_of(x as int, 2), 2);
    }
    assert forall|x: i32| #![trigger x.spec_encode()] big_endian_bytes(x.spec_encode(), unsigned_of(x as int, 4), 4) by {
        lemma_be_bytes_order(unsigned_of(x as int, 4), 4);
    }
    assert forall|x: i32| #![trigger x.spec_encode_le()] little_endian_bytes(x.spec_encode_le(), unsigned_of(x as int, 4), 4) by {
        lemma_le_bytes_order(unsigned_of(x as int, 4), 4);
    }
    assert forall|x: i64| #![trigger x.spec_encode()] big_endian_bytes(x.spec_encode(), unsigned_of(x as int, 8), 8) by {
        lemma_be_bytes_order(unsigned_of(x as int, 8), 8);
    }
    assert forall|x: i64| #![trigger x.spec_encode_le()] little_endian_bytes(x.spec_encode_le(), unsigned_of(x as int, 8), 8) by {
        lemma_le_bytes_order(unsigned_of(x as int, 8), 8);
    }
    assert forall|x: i128| #![trigger x.spec_encode()] big_endian_bytes(x.spec_encode(), unsigned_of(x as int, 16), 16) by {
        lemma_be_bytes_order(unsigned_of(x as int, 16), 16);
    }
    assert forall|x: i128| #![trigger x.spec_encode_le()] little_endian_bytes(x.spec_encode_le(), unsigned_of(x as int, 16), 16) by {
        lemma_le_bytes_order(unsigned_of(x as int, 16), 16);
    }
}

/// Every integer type obeys the roundtrip law.
pub proof fn lemma_integers_roundtrip()
    ensures
        codec_roundtrips::<u8>(),
        codec_roundtrips::<u16>(),
        codec_roundtrips::<u32>(),
        codec_roundtrips::<u64>(),
        codec_roundtrips::<u128>(),
        codec_roundtrips::<i8>(),
        codec_roundtrips::<i16>(),
        codec_roundtrips::<i32>(),
        codec_roundtrips::<i64>(),
        codec_roundtrips::<i128>(),
{
    lemma_pow256_values();
    assert forall|x: u8, rest: Seq<u8>| #[trigger] u8::spec_decode(x.spec_encode() + rest) == Ok::<
        (Value, Seq<u8>),
        CodecError,
    >((Value::Int(x as int), rest)) by {
        lemma_int_roundtrip(x as int, 1, false, false, rest);
    }
    assert forall|x: u16, rest: Seq<u8>| #[trigger] u16::spec_decode(x.spec_encode() + rest) == Ok::<
        (Value, Seq<u8>),
        CodecError,
    >((Value::Int(x as int), rest)) by {
        lemma_int_roundtrip(x as int, 2, false, false, rest);
    }
    assert forall|x: u32, rest: Seq<u8>| #[trigger] u32::spec_decode(x.spec_encode() + rest) == Ok::<
        (Value, Seq<u8>),
        CodecError,
    >((Value::Int(x as int), rest)) by {
        lemma_int_roundtrip(x as int, 4, false, false, rest);
    }
    assert forall|x: u64, rest: Seq<u8>| #[trigger] u64::spec_decode(x.spec_encode() + rest) == Ok::<
        (Value, Seq<u8>),
        CodecError,
    >((Value::Int(x as int), rest)) by {
        lemma_int_roundtrip(x as int, 8, false, false, rest);
    }
    assert forall|x: u128, rest: Seq<u8>| #[trigger] u128::spec_decode(x.spec_encode() + rest) == Ok::<
        (Value, Seq<u8>),
        CodecError,
    >((Value::Int(x as int), rest)) by {
        lemma_int_roundtrip(x as int, 16, false, false, rest);
    }
    assert forall|x: i8, rest: Seq<u8>| #[trigger] i8::spec_decode(x.spec_encode() + rest) == Ok::<
        (Value, Seq<u8>),
        CodecError,
    >((Value::Int(x as int), rest)) by {
        lemma_int_roundtrip(x as int, 1, true, false, rest);
    }
    assert forall|x: i16, rest: Seq<u8>| #[trigger] i16::spec_decode(x.spec_encode() + rest) == Ok::<
        (Value, Seq<u8>),
        CodecError,
    >((Value::Int(x as int), rest)) by {
        lemma_int_roundtrip(x as int, 2, true, false, rest);
    }
    assert forall|x: i32, rest: Seq<u8>| #[trigger] i32::spec_decode(x.spec_encode() + rest) == Ok::<
        (Value, Seq<u8>),
        CodecError,
    >((Value::Int(x as int), rest)) by {
        lemma_int_roundtrip(x as int, 4, true, false, rest);
    }
    assert forall|x: i64, rest: Seq<u8>| #[trigger] i64::spec_decode(x.spec_encode() + rest) == Ok::<
        (Value, Seq<u8>),
        CodecError,
    >((Value::Int(x as int), rest)) by {
        lemma_int_roundtrip(x as int, 8, true, false, rest);
    }
    assert forall|x: i128, rest: Seq<u8>| #[trigger] i128::spec_decode(x.spec_encode() + rest) == Ok::<
        (Value, Seq<u8>),
        CodecError,
    >((Value::Int(x as int), rest)) by {
        lemma_int_roundtrip(x as int, 16, true, false, rest);
    }
}

/// Every integer type obeys the little-endian roundtrip law.
pub proof fn lemma_integers_roundtrip_le()
    ensures
        codec_le_roundtrips::<u8>(),
        codec_le_roundtrips::<u16>(),
        codec_le_roundtrips::<u32>(),
        codec_le_roundtrips::<u64>(),
        codec_le_roundtrips::<u128>(),
        codec_le_roundtrips::<i8>(),
        codec_le_roundtrips::<i16>(),
        codec_le_roundtrips::<i32>(),
        codec_le_roundtrips::<i64>(),
        codec_le_roundtrips::<i128>(),
{
    lemma_pow256_values();
    assert forall|x: u8, rest: Seq<u8>| #[trigger] u8::spec_decode_le(x.spec_encode_le() + rest) == Ok::<
        (Value, Seq<u8>),
        CodecError,
    >((Value::Int(x as int), rest)) by {
        lemma_int_roundtrip(x as int, 1, false, true, rest);
    }
    assert forall|x: u16, rest: Seq<u8>| #[trigger] u16::spec_decode_le(x.spec_encode_le() + rest) == Ok::<
        (Value, Seq<u8>),
        CodecError,
    >((Value::Int(x as int), rest)) by {
        lemma_int_roundtrip(x as int, 2, false, true, rest);
    }
    assert forall|x: u32, rest: Seq<u8>| #[trigger] u32::spec_decode_le(x.spec_encode_le() + rest) == Ok::<
        (Value, Seq<u8>),
        CodecError,
    >((Value::Int(x as int), rest)) by {
        lemma_int_roundtrip(x as int, 4, false, true, rest);
    }
    assert forall|x: u64, rest: Seq<u8>| #[trigger] u64::spec_decode_le(x.spec_encode_le() + rest) == Ok::<
        (Value, Seq<u8>),
        CodecError,
    >((Value::Int(x as int), rest)) by {
        lemma_int_roundtrip(x as int, 8, false, true, rest);
    }
    assert forall|x: u128, rest: Seq<u8>| #[trigger] u128::spec_decode_le(x.spec_encode_le() + rest) == Ok::<
        (Value, Seq<u8>),
        CodecError,
    >((Value::Int(x as int), rest)) by {
        lemma_int_roundtrip(x as int, 16, false, true, rest);
    }
    assert forall|x: i8, rest: Seq<u8>| #[trigger] i8::spec_decode_le(x.spec_encode_le() + rest) == Ok::<
        (Value, Seq<u8>),
        CodecError,
    >((Value::Int(x as int), rest)) by {
        lemma_int_roundtrip(x as int, 1, true, true, rest);
    }
    assert forall|x: i16, rest: Seq<u8>| #[trigger] i16::spec_decode_le(x.spec_encode_le() + rest) == Ok::<
        (Value, Seq<u8>),
        CodecError,
    >((Value::Int(x as int), rest)) by {
        lemma_int_roundtrip(x as int, 2, true, true, rest);
    }
    assert forall|x: i32, rest: Seq<u8>| #[trigger] i32::spec_decode_le(x.spec_encode_le() + rest) == Ok::<
        (Value, Seq<u8>),
        CodecError,
    >((Value::Int(x as int), rest)) by {
        lemma_int_roundtrip(x as int, 4, true, true, rest);
    }
    assert forall|x: i64, rest: Seq<u8>| #[trigger] i64::spec_decode_le(x.spec_encode_le() + rest) == Ok::<
        (Value, Seq<u8>),
        CodecError,
    >((Value::Int(x as int), rest)) by {
        lemma_int_roundtrip(x as int, 8, true, true, rest);
    }
    assert forall|x: i128, rest: Seq<u8>| #[trigger] i128::spec_decode_le(x.spec_encode_le() + rest) == Ok::<
        (Value, Seq<u8>),
        CodecError,
    >((Value::Int(x as int), rest)) by {
        lemma_int_roundtrip(x as int, 16, true, true, rest);
    }
}

/// A successful integer decode leaves what follows the integer.
pub proof fn lemma_int_decode_suffix(input: Seq<u8>, n: nat, signed: bool, little: bool)
    ensures
        int_decode(input, n, signed, little) matches Ok((_, rest)) ==> is_suffix(rest, input),
{
}

/// Every integer type obeys the prefix law.
pub proof fn lemma_integers_consume_prefix()
    ensures
        codec_consumes_prefix::<u8>(),
        codec_consumes_prefix::<u16>(),
        codec_consumes_prefix::<u32>(),
        codec_consumes_prefix::<u64>(),
        codec_consumes_prefix::<u128>(),
        codec_consumes_prefix::<i8>(),
        codec_consumes_prefix::<i16>(),
        codec_consumes_prefix::<i32>(),
        codec_consumes_prefix::<i64>(),
        codec_consumes_prefix::<i128>(),
{
    assert forall|input: Seq<u8>| #[trigger] u8::spec_decode(input) matches Ok((_, rest))
        ==> is_suffix(rest, input) by {
        lemma_int_decode_suffix(input, 1, false, false);
    }
    assert forall|input: Seq<u8>| #[trigger] u16::spec_decode(input) matches Ok((_, rest))
        ==> is_suffix(rest, input) by {
        lemma_int_decode_suffix(input, 2, false, false);
    }
    assert forall|input: Seq<u8>| #[trigger] u32::spec_decode(input) matches Ok((_, rest))
        ==> is_suffix(rest, input) by {
        lemma_int_decode_suffix(input, 4, false, false);
    }
    assert forall|input: Seq<u8>| #[trigger] u64::spec_decode(input) matches Ok((_, rest))
        ==> is_suffix(rest, input) by {
        lemma_int_decode_suffix(input, 8, false, false);
    }
    assert forall|input: Seq<u8>| #[trigger] u128::spec_decode(input) matches Ok((_, rest))
        ==> is_suffix(rest, input) by {
        lemma_int_decode_suffix(input, 16, false, false);
    }
    assert forall|input: Seq<u8>| #[trigger] i8::spec_decode(input) matches Ok((_, rest))
        ==> is_suffix(rest, input) by {
        lemma_int_decode_suffix(input, 1, true, false);
    }
    assert forall|input: Seq<u8>| #[trigger] i16::spec_decode(input) matches Ok((_, rest))
        ==> is_suffix(rest, input) by {
        lemma_int_decode_suffix(input, 2, true, false);
    }
    assert forall|input: Seq<u8>| #[trigger] i32::spec_decode(input) matches Ok((_, rest))
        ==> is_suffix(rest, input) by {
        lemma_int_decode_suffix(input, 4, true, false);
    }
    assert forall|input: Seq<u8>| #[trigger] i64::spec_decode(input) matches Ok((_, rest))
        ==> is_suffix(rest, input) by {
        lemma_int_decode_suffix(input, 8, true, false);
    }
    assert forall|input: Seq<u8>| #[trigger] i128::spec_decode(input) matches Ok((_, rest))
        ==> is_suffix(rest, input) by {
        lemma_int_decode_suffix(input, 16, true, false);
    }
}

/// Every integer type obeys the little-endian prefix law.
pub proof fn lemma_integers_consume_prefix_le()
    ensures
        codec_le_consumes_prefix::<u8>(),
        codec_le_consumes_prefix::<u16>(),
        codec_le_consumes_prefix::<u32>(),
        codec_le_consumes_prefix::<u64>(),
        codec_le_consumes_prefix::<u128>(),
        codec_le_consumes_prefix::<i8>(),
        codec_le_consumes_prefix::<i16>(),
        codec_le_consumes_prefix::<i32>(),
        codec_le_consumes_prefix::<i64>(),
        codec_le_consumes_prefix::<i128>(),
{
    assert forall|input: Seq<u8>| #[trigger] u8::spec_decode_le(input) matches Ok((_, rest))
        ==> is_suffix(rest, input) by {
        lemma_int_decode_suffix(input, 1, false, true);
    }
    assert forall|input: Seq<u8>| #[trigger] u16::spec_decode_le(input) matches Ok((_, rest))
        ==> is_suffix(rest, input) by {
        lemma_int_decode_suffix(input, 2, false, true);
    }
    assert forall|input: Seq<u8>| #[trigger] u32::spec_decode_le(input) matches Ok((_, rest))
        ==> is_suffix(rest, input) by {
        lemma_int_decode_suffix(input, 4, false, true);
    }
    assert forall|input: Seq<u8>| #[trigger] u64::spec_decode_le(input) matches Ok((_, rest))
        ==> is_suffix(rest, input) by {
        lemma_int_decode_suffix(input, 8, false, true);
    }
    assert forall|input: Seq<u8>| #[trigger] u128::spec_decode_le(input) matches Ok((_, rest))
        ==> is_suffix(rest, input) by {
        lemma_int_decode_suffix(input, 16, false, true);
    }
    assert forall|input: Seq<u8>| #[trigger] i8::spec_decode_le(input) matches Ok((_, rest))
        ==> is_suffix(rest, input) by {
        lemma_int_decode_suffix(input, 1, true, true);
    }
    assert forall|input: Seq<u8>| #[trigger] i16::spec_decode_le(input) matches Ok((_, rest))
        ==> is_suffix(rest, input) by {
        lemma_int_decode_suffix(input, 2, true, true);
    }
    assert forall|input: Seq<u8>| #[trigger] i32::spec_decode_le(input) matches Ok((_, rest))
        ==> is_suffix(rest, input) by {
        lemma_int_decode_suffix(input, 4, true, true);
    }
    assert forall|input: Seq<u8>| #[trigger] i64::spec_decode_le(input) matches Ok((_, rest))
        ==> is_suffix(rest, input) by {
        lemma_int_decode_suffix(input, 8, true, true);
    }
    assert forall|input: Seq<u8>| #[trigger] i128::spec_decode_le(input) matches Ok((_, rest))
        ==> is_suffix(rest, input) by {
        lemma_int_decode_suffix(input, 16, true, true);
    }
}

} // verus!
