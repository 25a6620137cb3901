// Concrete cases of the contracts and laws of the library.
use autocodec::error::clone_error;
use autocodec::seq::{decode_seq, decode_string, encode_seq, encode_str};
use autocodec::{
    check, decode_le, decode_magic, encode_le, encode_padding, in_field, pack_bits,
    skip_padding, unpack_bits, Bytes, Codec, CodecError, LenPrefix, LenRule, MAX_DECODE_LEN,
};
use std::collections::HashMap;

fn encoded<T: Codec>(v: &T) -> Vec<u8> {
    let mut buf = Vec::new();
    v.encode(&mut buf);
    buf
}

#[test]
fn integers_are_big_endian_twos_complement() {
    assert_eq!(encoded(&0x0102u16), [0x01, 0x02]);
    assert_eq!(encoded(&0x01020304u32), [1, 2, 3, 4]);
    assert_eq!(encoded(&0x0102030405060708u64), [1, 2, 3, 4, 5, 6, 7, 8]);
    assert_eq!(encoded(&-1i8), [0xFF]);
    assert_eq!(encoded(&-2i16), [0xFF, 0xFE]);
    assert_eq!(encoded(&i32::MIN), [0x80, 0, 0, 0]);
    assert_eq!(encoded(&i64::MAX), [0x7F, 0xFF, 0xFF, 0xFF, 0xFF, 0xFF, 0xFF, 0xFF]);
    assert_eq!(encoded(&1u128), [0, 0, 0, 0, 0, 0, 0, 0, 0, 0, 0, 0, 0, 0, 0, 1]);
    assert_eq!(encoded(&i128::MIN)[0], 0x80);
}

#[test]
fn integers_decode_signed_values() {
    assert_eq!(i8::decode(&[0x80]).unwrap().0, -128);
    assert_eq!(i16::decode(&[0xFF, 0xFE, 9]).unwrap(), (-2, &[9u8][..]));
    assert_eq!(i32::decode(&[0x7F, 0xFF, 0xFF, 0xFF]).unwrap().0, i32::MAX);
    assert_eq!(i64::decode(&[0xFF; 8]).unwrap().0, -1);
    assert_eq!(i128::decode(&[0xFF; 16]).unwrap().0, -1);
    assert_eq!(u64::decode(&[0xFF; 8]).unwrap().0, u64::MAX);
}

#[test]
fn integers_roundtrip_at_the_edges() {
    for v in [i64::MIN, -1, 0, 1, i64::MAX] {
        let mut buf = encoded(&v);
        buf.push(0xAB);
        assert_eq!(i64::decode(&buf).unwrap(), (v, &[0xABu8][..]));
    }
    for v in [0u16, 1, 0x7FFF, 0x8000, u16::MAX] {
        assert_eq!(u16::decode(&encoded(&v)).unwrap().0, v);
    }
    for v in [i128::MIN, -1, 0, i128::MAX] {
        assert_eq!(i128::decode(&encoded(&v)).unwrap().0, v);
    }
}

#[test]
fn integers_report_short_input() {
    assert_eq!(u32::decode(&[0x01, 0x02]), Err(CodecError::NotEnoughBytes { needed: 4, available: 2 }));
    assert_eq!(u8::decode(&[]), Err(CodecError::NotEnoughBytes { needed: 1, available: 0 }));
    assert_eq!(i128::decode(&[0; 15]), Err(CodecError::NotEnoughBytes { needed: 16, available: 15 }));
    assert_eq!(
        decode_le::<u64>(&[1, 2, 3]),
        Err(CodecError::NotEnoughBytes { needed: 8, available: 3 })
    );
}

#[test]
fn little_endian_integers() {
    let mut buf = Vec::new();
    encode_le(&0x01020304u32, &mut buf);
    encode_le(&-2i16, &mut buf);
    assert_eq!(buf, [4, 3, 2, 1, 0xFE, 0xFF]);
    let (a, rest) = decode_le::<u32>(&buf).unwrap();
    let (b, rest) = decode_le::<i16>(rest).unwrap();
    assert_eq!((a, b), (0x01020304, -2));
    assert!(rest.is_empty());
    assert_eq!(decode_le::<u128>(&[1; 16]).unwrap().0, u128::from_le_bytes([1; 16]));
}

#[test]
fn bool_reads_any_nonzero_as_true() {
    assert_eq!(encoded(&true), [1]);
    assert_eq!(encoded(&false), [0]);
    assert_eq!(bool::decode(&[7, 8]).unwrap(), (true, &[8u8][..]));
    assert_eq!(bool::decode(&[0]).unwrap().0, false);
    assert_eq!(bool::decode(&[]), Err(CodecError::NotEnoughBytes { needed: 1, available: 0 }));
}

#[test]
fn option_tag_and_value() {
    assert_eq!(encoded(&Some(5u16)), [1, 0, 5]);
    assert_eq!(encoded(&None::<u16>), [0]);
    assert_eq!(Option::<u16>::decode(&[9, 0, 5]).unwrap().0, Some(5));
    assert_eq!(Option::<u16>::decode(&[0, 0xAA]).unwrap(), (None, &[0xAAu8][..]));
    assert_eq!(
        Option::<u16>::decode(&[1, 0]),
        Err(CodecError::NotEnoughBytes { needed: 2, available: 1 })
    );
}

#[test]
fn vec_roundtrip_keeps_following_bytes() {
    let v: Vec<u16> = vec![1, 0x0203, 0xFFFF];
    let mut buf = encoded(&v);
    assert_eq!(buf, [0, 0, 0, 3, 0, 1, 2, 3, 0xFF, 0xFF]);
    buf.extend_from_slice(&[0xEE]);
    let (back, rest) = Vec::<u16>::decode(&buf).unwrap();
    assert_eq!(back, v);
    assert_eq!(rest, &[0xEE]);
}

#[test]
fn vec_element_errors_pass_through() {
    assert_eq!(
        Vec::<u16>::decode(&[0, 0, 0, 2, 0, 1, 0]),
        Err(CodecError::NotEnoughBytes { needed: 2, available: 1 })
    );
    assert_eq!(
        Vec::<u8>::decode(&[0, 0, 1]),
        Err(CodecError::NotEnoughBytes { needed: 4, available: 3 })
    );
}

#[test]
fn allocation_limit_is_inclusive() {
    // A prefix of exactly the limit passes the guard; the missing elements are then reported.
    let buf = encoded(&(MAX_DECODE_LEN as u32));
    assert_eq!(Vec::<u8>::decode(&buf), Err(CodecError::NotEnoughBytes { needed: 1, available: 0 }));
    let buf = encoded(&(MAX_DECODE_LEN as u32 + 1));
    assert_eq!(
        Vec::<u8>::decode(&buf),
        Err(CodecError::AllocationTooLarge { len: MAX_DECODE_LEN as u64 + 1, max: MAX_DECODE_LEN })
    );
    assert_eq!(
        String::decode(&buf),
        Err(CodecError::AllocationTooLarge { len: MAX_DECODE_LEN as u64 + 1, max: MAX_DECODE_LEN })
    );
}

#[test]
fn length_rules() {
    let rule = LenRule { prefix: LenPrefix::U64, min_len: 2, max_len: Some(3) };
    let mut buf = Vec::new();
    encode_seq(&[7u8, 8], LenPrefix::U64, &mut buf);
    assert_eq!(buf, [0, 0, 0, 0, 0, 0, 0, 2, 7, 8]);
    assert_eq!(decode_seq::<u8>(&buf, &rule).unwrap().0, vec![7, 8]);
    let mut buf = Vec::new();
    encode_seq(&[1u8, 2, 3, 4], LenPrefix::U64, &mut buf);
    assert_eq!(decode_seq::<u8>(&buf, &rule), Err(CodecError::TooLong { max: 3, actual: 4 }));
    let mut buf = Vec::new();
    encode_seq(&[1u8], LenPrefix::U64, &mut buf);
    assert_eq!(decode_seq::<u8>(&buf, &rule), Err(CodecError::TooShort { min: 2, actual: 1 }));
    let huge = [0xFF; 8];
    assert_eq!(
        decode_seq::<u8>(&huge, &rule),
        Err(CodecError::AllocationTooLarge { len: u64::MAX, max: MAX_DECODE_LEN })
    );
    // A prefix narrower than the length keeps its low-order bytes.
    let mut buf = Vec::new();
    encode_seq(&[0u8; 300], LenPrefix::U8, &mut buf);
    assert_eq!(buf[0], 44);
}

#[test]
fn strings_are_utf8_with_byte_length() {
    let s = String::from("h\u{e9}llo");
    let buf = encoded(&s);
    assert_eq!(&buf[..4], &[0, 0, 0, 6]);
    assert_eq!(String::decode(&buf).unwrap().0, s);
    assert_eq!(s.encoded_size(), 10);
    let mut short = Vec::new();
    encode_str("abc", LenPrefix::U16, &mut short);
    assert_eq!(short, [0, 3, b'a', b'b', b'c']);
    assert_eq!(decode_string(&short, &LenRule::with_prefix(LenPrefix::U16)).unwrap().0, "abc");
    assert_eq!(
        String::decode(&[0, 0, 0, 5, b'a']),
        Err(CodecError::NotEnoughBytes { needed: 5, available: 1 })
    );
    // An overlong encoding of '/' is not UTF-8.
    assert_eq!(String::decode(&[0, 0, 0, 2, 0xC0, 0xAF]), Err(CodecError::InvalidUtf8));
}

#[test]
fn arrays_and_tuples() {
    assert_eq!(encoded(&[1u16, 2]), [0, 1, 0, 2]);
    assert_eq!(<[u16; 2]>::decode(&[0, 1, 0, 2, 3]).unwrap(), ([1, 2], &[3u8][..]));
    assert_eq!(
        <[u16; 2]>::decode(&[0, 1, 0]),
        Err(CodecError::NotEnoughBytes { needed: 2, available: 1 })
    );
    let t = (1u8, -1i16, true);
    let buf = encoded(&t);
    assert_eq!(buf, [1, 0xFF, 0xFF, 1]);
    assert_eq!(<(u8, i16, bool)>::decode(&buf).unwrap().0, t);
    assert_eq!(t.encoded_size(), 4);
    assert_eq!(<[u8; 0]>::decode(&[5]).unwrap(), ([], &[5u8][..]));
}

#[test]
fn boxes_are_transparent() {
    assert_eq!(encoded(&Box::new(0x0102u16)), [1, 2]);
    let b: Box<[u16]> = vec![3, 4].into_boxed_slice();
    let buf = encoded(&b);
    assert_eq!(buf, [0, 0, 0, 2, 0, 3, 0, 4]);
    assert_eq!(&*Box::<[u16]>::decode(&buf).unwrap().0, &[3, 4]);
}

#[test]
fn encoded_size_matches_encode() {
    let v: Vec<String> = vec!["a".into(), "bcd".into()];
    assert_eq!(v.encoded_size(), encoded(&v).len());
    assert_eq!(v.encoded_size(), 4 + 5 + 7);
    assert_eq!(Some(1u64).encoded_size(), 9);
    assert_eq!(None::<u64>.encoded_size(), 1);
    assert_eq!([0u32; 3].encoded_size(), 12);
    assert_eq!(0u128.encoded_size(), 16);
}

#[test]
fn decode_exact_reports_errors_and_trailing_bytes() {
    assert_eq!(u16::decode_exact(&[1, 2]), Ok(0x0102));
    assert_eq!(u16::decode_exact(&[1, 2, 3, 4]), Err(CodecError::TrailingBytes { count: 2 }));
    assert_eq!(u16::decode_exact(&[1]), Err(CodecError::NotEnoughBytes { needed: 2, available: 1 }));
    assert_eq!(Vec::<u8>::decode_exact(&[0, 0, 0, 1, 9]), Ok(vec![9]));
}

#[test]
fn check_counts_bytes() {
    assert_eq!(check(&[1, 2, 3], 3), Ok(()));
    assert_eq!(check(&[1, 2], 3), Err(CodecError::NotEnoughBytes { needed: 3, available: 2 }));
}

#[test]
fn field_helpers() {
    assert_eq!(in_field("f", u8::decode(&[7])).unwrap().0, 7);
    assert_eq!(
        in_field("f", u8::decode(&[])),
        Err(CodecError::FieldError {
            field: "f",
            source: Box::new(CodecError::NotEnoughBytes { needed: 1, available: 0 }),
        })
    );
    let mut buf = vec![9];
    encode_padding(&mut buf, 2);
    assert_eq!(buf, [9, 0, 0]);
    assert_eq!(skip_padding(&[1, 2, 3], 2), Ok(&[3u8][..]));
    assert_eq!(skip_padding(&[1], 2), Err(CodecError::NotEnoughBytes { needed: 2, available: 1 }));
    assert_eq!(decode_magic(&[0xCA, 0xFE, 1], &0xCAFEu16), Ok(&[1u8][..]));
    assert_eq!(decode_magic(&[0xCA, 0xFF, 1], &0xCAFEu16), Err(CodecError::BadMagic));
    assert_eq!(
        decode_magic(&[0xCA], &0xCAFEu16),
        Err(CodecError::NotEnoughBytes { needed: 2, available: 1 })
    );
}

#[test]
fn bitfields_reduce_values_and_pad_bytes() {
    let mut buf = Vec::new();
    pack_bits(&mut buf, &[0xFF, 0], &[4, 1]);
    // 1111 0 then three zero bits
    assert_eq!(buf, [0b1111_0000]);
    assert_eq!(unpack_bits(&[0b1111_0000, 7], &[4, 1]).unwrap(), (vec![0xF, 0], &[7u8][..]));
    let mut buf = Vec::new();
    pack_bits(&mut buf, &[u64::MAX, 1], &[64, 2]);
    assert_eq!(buf.len(), 9);
    assert_eq!(unpack_bits(&buf, &[64, 2]).unwrap().0, vec![u64::MAX, 1]);
    assert_eq!(
        unpack_bits(&[1], &[12, 4]),
        Err(CodecError::NotEnoughBytes { needed: 2, available: 1 })
    );
    let mut empty = Vec::new();
    pack_bits(&mut empty, &[], &[]);
    assert!(empty.is_empty());
}

#[test]
fn bytes_with_rules() {
    let data = [2, 0xAA, 0xBB, 0xCC];
    let (b, rest) = Bytes::decode_with(&data, &LenRule::with_prefix(LenPrefix::U8)).unwrap();
    assert_eq!(b.as_ref(), &[0xAA, 0xBB]);
    assert_eq!(rest, &[0xCC]);
    assert_eq!(
        Bytes::decode(&[0, 0, 0, 3, 1]),
        Err(CodecError::NotEnoughBytes { needed: 3, available: 1 })
    );
    let mut buf = Vec::new();
    Bytes(&[5, 6]).encode_with(LenPrefix::U16, &mut buf);
    assert_eq!(buf, [0, 2, 5, 6]);
}

#[test]
fn errors_clone_field_for_field() {
    let e = CodecError::FieldError { field: "a", source: Box::new(CodecError::TooLong { max: 1, actual: 2 }) };
    assert_eq!(clone_error(&e), e);
    assert_eq!(e.clone(), e);
    assert_eq!(CodecError::UnknownDiscriminant { value: 3 }.clone(), CodecError::UnknownDiscriminant { value: 3 });
}

#[test]
fn maps_keep_the_last_of_repeated_keys() {
    // Two entries for key 1: the later one wins.
    let buf = [0, 0, 0, 2, 1, 10, 1, 20];
    let (m, rest) = HashMap::<u8, u8>::decode(&buf).unwrap();
    assert_eq!(m.len(), 1);
    assert_eq!(m[&1], 20);
    assert!(rest.is_empty());
    assert_eq!(
        HashMap::<u8, u8>::decode(&[0, 0, 0, 1, 1]),
        Err(CodecError::NotEnoughBytes { needed: 1, available: 0 })
    );
    let mut one = HashMap::new();
    one.insert(7u8, -1i16);
    assert_eq!(encoded(&one), [0, 0, 0, 1, 7, 0xFF, 0xFF]);
    assert_eq!(one.encoded_size(), 7);
}

#[test]
fn tuples_up_to_eight() {
    let t4 = (1u8, 2u16, true, -1i8);
    assert_eq!(encoded(&t4), [1, 0, 2, 1, 0xFF]);
    assert_eq!(<(u8, u16, bool, i8)>::decode(&encoded(&t4)).unwrap().0, t4);
    let t8 = (1u8, 2u8, 3u8, 4u8, 5u8, 6u8, 7u8, 0x0809u16);
    let buf = encoded(&t8);
    assert_eq!(buf, [1, 2, 3, 4, 5, 6, 7, 8, 9]);
    assert_eq!(t8.encoded_size(), 9);
    assert_eq!(<(u8, u8, u8, u8, u8, u8, u8, u16)>::decode(&buf).unwrap().0, t8);
    assert_eq!(
        <(u8, u8, u8, u8, u8, u8, u8, u16)>::decode(&buf[..8]),
        Err(CodecError::NotEnoughBytes { needed: 2, available: 1 })
    );
}

/// An element type with a hand-written codec: one byte, any value.
#[derive(Debug, PartialEq, Eq, Hash, Clone, Copy)]
struct Opaque(u8);

impl Codec for Opaque {
    fn decode(input: &[u8]) -> Result<(Self, &[u8]), CodecError> {
        match input.split_first() {
            Some((b, rest)) => Ok((Opaque(*b), rest)),
            None => Err(CodecError::NotEnoughBytes { needed: 1, available: 0 }),
        }
    }
    fn encode(&self, buf: &mut Vec<u8>) {
        buf.push(self.0);
    }
}

#[test]
fn containers_of_any_element_type() {
    assert_eq!(Vec::<Opaque>::decode(&[0, 0, 0, 0, 9]), Ok((vec![], &[9u8][..])));
    assert_eq!(
        Vec::<Opaque>::decode(&[0, 0]),
        Err(CodecError::NotEnoughBytes { needed: 4, available: 2 })
    );
    assert_eq!(Vec::<Opaque>::decode(&[0, 0, 0, 2, 7, 8]).unwrap().0.len(), 2);
    assert_eq!(Option::<Opaque>::decode(&[0, 5]), Ok((None, &[5u8][..])));
    assert_eq!(Option::<Opaque>::decode(&[1, 5]), Ok((Some(Opaque(5)), &[][..])));
    assert_eq!(Option::<Opaque>::decode(&[]), Err(CodecError::NotEnoughBytes { needed: 1, available: 0 }));
    assert_eq!(encoded(&None::<Opaque>), [0]);
    assert_eq!(encoded(&Vec::<Opaque>::new()), [0, 0, 0, 0]);
    assert_eq!(<[Opaque; 0]>::decode(&[3]), Ok(([], &[3u8][..])));
    let empty: Box<[Opaque]> = Box::new([]);
    assert_eq!(encoded(&empty), [0, 0, 0, 0]);
    assert_eq!(encoded(&HashMap::<Opaque, Opaque>::new()), [0, 0, 0, 0]);
    assert_eq!(HashMap::<Opaque, Opaque>::decode(&[0, 0, 0, 0]), Ok((HashMap::new(), &[][..])));
    assert_eq!(Opaque::decode_exact(&[1, 2]), Err(CodecError::TrailingBytes { count: 1 }));
    assert_eq!(Opaque::decode_exact(&[1]), Ok(Opaque(1)));
}
