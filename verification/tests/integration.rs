// Records and enums here implement `Codec` by hand, field by field, the way
// the derive writes it: fields in declaration order, each field's error marked
// with its name, enums after their discriminant.
use autocodec::seq::{decode_seq, decode_string, encode_seq, encode_str};
use std::collections::HashMap;
use autocodec::{
    decode_le, Bytes, decode_magic, encode_le, encode_padding, in_field, pack_bits, skip_padding,
    unpack_bits, Codec, CodecError, LenPrefix, LenRule,
};

// --- Basic structs ---

#[derive(Debug, PartialEq)]
struct Header {
    version: u16,
    length: u32,
    flags: u8,
}

impl Codec for Header {
    fn decode(input: &[u8]) -> Result<(Self, &[u8]), CodecError> {
        let (version, input) = in_field("version", u16::decode(input))?;
        let (length, input) = in_field("length", u32::decode(input))?;
        let (flags, input) = in_field("flags", u8::decode(input))?;
        Ok((Header { version, length, flags }, input))
    }
    fn encode(&self, buf: &mut Vec<u8>) {
        self.version.encode(buf);
        self.length.encode(buf);
        self.flags.encode(buf);
    }
    fn encoded_size(&self) -> usize {
        self.version.encoded_size() + self.length.encoded_size() + self.flags.encoded_size()
    }
}

#[derive(Debug, PartialEq)]
struct Wrapper(u32);

impl Codec for Wrapper {
    fn decode(input: &[u8]) -> Result<(Self, &[u8]), CodecError> {
        let (f0, input) = in_field("0", u32::decode(input))?;
        Ok((Wrapper(f0), input))
    }
    fn encode(&self, buf: &mut Vec<u8>) {
        self.0.encode(buf);
    }
}

#[derive(Debug, PartialEq)]
struct Unit;

impl Codec for Unit {
    fn decode(input: &[u8]) -> Result<(Self, &[u8]), CodecError> {
        Ok((Unit, input))
    }
    fn encode(&self, _buf: &mut Vec<u8>) {}
}

// --- Enums ---

#[derive(Debug, PartialEq)]
enum Message {
    Ping,
    Data { id: u32, payload: Vec<u8> },
    Ack(u64),
}

impl Codec for Message {
    fn decode(input: &[u8]) -> Result<(Self, &[u8]), CodecError> {
        let (disc, input) = u8::decode(input)?;
        match disc {
            0 => Ok((Message::Ping, input)),
            1 => {
                let (id, input) = in_field("Data::id", u32::decode(input))?;
                let (payload, input) = in_field("Data::payload", Vec::<u8>::decode(input))?;
                Ok((Message::Data { id, payload }, input))
            }
            2 => {
                let (f0, input) = in_field("Ack::0", u64::decode(input))?;
                Ok((Message::Ack(f0), input))
            }
            other => Err(CodecError::UnknownDiscriminant { value: other as u64 }),
        }
    }
    fn encode(&self, buf: &mut Vec<u8>) {
        match self {
            Message::Ping => 0u8.encode(buf),
            Message::Data { id, payload } => {
                1u8.encode(buf);
                id.encode(buf);
                payload.encode(buf);
            }
            Message::Ack(f0) => {
                2u8.encode(buf);
                f0.encode(buf);
            }
        }
    }
    fn encoded_size(&self) -> usize {
        match self {
            Message::Ping => 1,
            Message::Data { id, payload } => 1 + id.encoded_size() + payload.encoded_size(),
            Message::Ack(f0) => 1 + f0.encoded_size(),
        }
    }
}

// --- Nested ---

#[derive(Debug, PartialEq)]
struct Nested {
    header: Header,
    name: String,
}

impl Codec for Nested {
    fn decode(input: &[u8]) -> Result<(Self, &[u8]), CodecError> {
        let (header, input) = in_field("header", Header::decode(input))?;
        let (name, input) = in_field("name", String::decode(input))?;
        Ok((Nested { header, name }, input))
    }
    fn encode(&self, buf: &mut Vec<u8>) {
        self.header.encode(buf);
        self.name.encode(buf);
    }
}

// --- Option ---

#[derive(Debug, PartialEq)]
struct WithOptional {
    id: u32,
    label: Option<String>,
}

impl Codec for WithOptional {
    fn decode(input: &[u8]) -> Result<(Self, &[u8]), CodecError> {
        let (id, input) = in_field("id", u32::decode(input))?;
        let (label, input) = in_field("label", Option::<String>::decode(input))?;
        Ok((WithOptional { id, label }, input))
    }
    fn encode(&self, buf: &mut Vec<u8>) {
        self.id.encode(buf);
        self.label.encode(buf);
    }
}

// --- Fixed array ---

#[derive(Debug, PartialEq)]
struct WithArray {
    data: [u8; 4],
    values: [u16; 3],
}

impl Codec for WithArray {
    fn decode(input: &[u8]) -> Result<(Self, &[u8]), CodecError> {
        let (data, input) = in_field("data", <[u8; 4]>::decode(input))?;
        let (values, input) = in_field("values", <[u16; 3]>::decode(input))?;
        Ok((WithArray { data, values }, input))
    }
    fn encode(&self, buf: &mut Vec<u8>) {
        self.data.encode(buf);
        self.values.encode(buf);
    }
}

// --- Endianness ---

#[derive(Debug, PartialEq)]
struct MixedEndian {
    big: u32,
    little: u32,
}

impl Codec for MixedEndian {
    fn decode(input: &[u8]) -> Result<(Self, &[u8]), CodecError> {
        let (big, input) = in_field("big", u32::decode(input))?;
        let (little, input) = in_field("little", decode_le::<u32>(input))?;
        Ok((MixedEndian { big, little }, input))
    }
    fn encode(&self, buf: &mut Vec<u8>) {
        self.big.encode(buf);
        encode_le(&self.little, buf);
    }
}

// --- Custom length prefix ---

#[derive(Debug, PartialEq)]
struct ShortVec {
    items: Vec<u16>,
}

impl Codec for ShortVec {
    fn decode(input: &[u8]) -> Result<(Self, &[u8]), CodecError> {
        let rule = LenRule::with_prefix(LenPrefix::U8);
        let (items, input) = in_field("items", decode_seq::<u16>(input, &rule))?;
        Ok((ShortVec { items }, input))
    }
    fn encode(&self, buf: &mut Vec<u8>) {
        encode_seq(&self.items, LenPrefix::U8, buf);
    }
}

#[derive(Debug, PartialEq)]
struct ShortString {
    name: String,
}

impl Codec for ShortString {
    fn decode(input: &[u8]) -> Result<(Self, &[u8]), CodecError> {
        let rule = LenRule::with_prefix(LenPrefix::U16);
        let (name, input) = in_field("name", decode_string(input, &rule))?;
        Ok((ShortString { name }, input))
    }
    fn encode(&self, buf: &mut Vec<u8>) {
        encode_str(&self.name, LenPrefix::U16, buf);
    }
}

// --- min_len / max_len ---

#[derive(Debug, PartialEq)]
struct NonEmpty {
    items: Vec<u8>,
}

impl Codec for NonEmpty {
    fn decode(input: &[u8]) -> Result<(Self, &[u8]), CodecError> {
        let rule = LenRule { prefix: LenPrefix::U32, min_len: 1, max_len: None };
        let (items, input) = in_field("items", decode_seq::<u8>(input, &rule))?;
        Ok((NonEmpty { items }, input))
    }
    fn encode(&self, buf: &mut Vec<u8>) {
        encode_seq(&self.items, LenPrefix::U32, buf);
    }
}

#[derive(Debug, PartialEq)]
struct Bounded {
    items: Vec<u8>,
}

impl Codec for Bounded {
    fn decode(input: &[u8]) -> Result<(Self, &[u8]), CodecError> {
        let rule = LenRule { prefix: LenPrefix::U32, min_len: 0, max_len: Some(3) };
        let (items, input) = in_field("items", decode_seq::<u8>(input, &rule))?;
        Ok((Bounded { items }, input))
    }
    fn encode(&self, buf: &mut Vec<u8>) {
        encode_seq(&self.items, LenPrefix::U32, buf);
    }
}

// --- skip ---

#[derive(Debug, PartialEq)]
struct WithSkip {
    id: u32,
    cached: u32,
    name: String,
}

impl Codec for WithSkip {
    fn decode(input: &[u8]) -> Result<(Self, &[u8]), CodecError> {
        let (id, input) = in_field("id", u32::decode(input))?;
        let cached = Default::default();
        let (name, input) = in_field("name", String::decode(input))?;
        Ok((WithSkip { id, cached, name }, input))
    }
    fn encode(&self, buf: &mut Vec<u8>) {
        self.id.encode(buf);
        self.name.encode(buf);
    }
}

// --- padding ---

#[derive(Debug, PartialEq)]
struct WithPadding {
    id: u8,
    flags: u8,
    data: u32,
}

impl Codec for WithPadding {
    fn decode(input: &[u8]) -> Result<(Self, &[u8]), CodecError> {
        let (id, input) = in_field("id", u8::decode(input))?;
        let (flags, input) = in_field("flags", u8::decode(input))?;
        let input = in_field("flags", skip_padding(input, 3))?;
        let (data, input) = in_field("data", u32::decode(input))?;
        Ok((WithPadding { id, flags, data }, input))
    }
    fn encode(&self, buf: &mut Vec<u8>) {
        self.id.encode(buf);
        self.flags.encode(buf);
        encode_padding(buf, 3);
        self.data.encode(buf);
    }
}

// --- magic ---

#[derive(Debug, PartialEq)]
struct WithMagic {
    _magic: u32,
    version: u16,
}

impl Codec for WithMagic {
    fn decode(input: &[u8]) -> Result<(Self, &[u8]), CodecError> {
        let input = in_field("_magic", decode_magic(input, &0xDEADBEEFu32))?;
        let (version, input) = in_field("version", u16::decode(input))?;
        Ok((WithMagic { _magic: 0xDEADBEEF, version }, input))
    }
    fn encode(&self, buf: &mut Vec<u8>) {
        0xDEADBEEFu32.encode(buf);
        self.version.encode(buf);
    }
}

// --- validate ---

fn is_even(val: &u32) -> bool {
    val.is_multiple_of(2)
}

#[derive(Debug, PartialEq)]
struct Validated {
    value: u32,
}

impl Codec for Validated {
    fn decode(input: &[u8]) -> Result<(Self, &[u8]), CodecError> {
        let (value, input) = in_field("value", u32::decode(input))?;
        if !is_even(&value) {
            return in_field("value", Err(CodecError::ValidationFailed));
        }
        Ok((Validated { value }, input))
    }
    fn encode(&self, buf: &mut Vec<u8>) {
        self.value.encode(buf);
    }
}

// --- container endian ---

#[derive(Debug, PartialEq)]
struct AllLittle {
    a: u16,
    b: u32,
}

impl Codec for AllLittle {
    fn decode(input: &[u8]) -> Result<(Self, &[u8]), CodecError> {
        let (a, input) = in_field("a", decode_le::<u16>(input))?;
        let (b, input) = in_field("b", decode_le::<u32>(input))?;
        Ok((AllLittle { a, b }, input))
    }
    fn encode(&self, buf: &mut Vec<u8>) {
        encode_le(&self.a, buf);
        encode_le(&self.b, buf);
    }
}

// --- custom discriminant ---

#[derive(Debug, PartialEq)]
enum CustomDisc {
    Foo,
    Bar(u32),
}

impl Codec for CustomDisc {
    fn decode(input: &[u8]) -> Result<(Self, &[u8]), CodecError> {
        let (disc, input) = u8::decode(input)?;
        match disc {
            10 => Ok((CustomDisc::Foo, input)),
            20 => {
                let (f0, input) = in_field("Bar::0", u32::decode(input))?;
                Ok((CustomDisc::Bar(f0), input))
            }
            other => Err(CodecError::UnknownDiscriminant { value: other as u64 }),
        }
    }
    fn encode(&self, buf: &mut Vec<u8>) {
        match self {
            CustomDisc::Foo => 10u8.encode(buf),
            CustomDisc::Bar(f0) => {
                20u8.encode(buf);
                f0.encode(buf);
            }
        }
    }
}

// --- discriminant_type ---

#[derive(Debug, PartialEq)]
enum WideEnum {
    A,
    B(u8),
}

impl Codec for WideEnum {
    fn decode(input: &[u8]) -> Result<(Self, &[u8]), CodecError> {
        let (disc, input) = u16::decode(input)?;
        match disc {
            0 => Ok((WideEnum::A, input)),
            1 => {
                let (f0, input) = in_field("B::0", u8::decode(input))?;
                Ok((WideEnum::B(f0), input))
            }
            other => Err(CodecError::UnknownDiscriminant { value: other as u64 }),
        }
    }
    fn encode(&self, buf: &mut Vec<u8>) {
        match self {
            WideEnum::A => 0u16.encode(buf),
            WideEnum::B(f0) => {
                1u16.encode(buf);
                f0.encode(buf);
            }
        }
    }
}

// --- f32/f64 ---

#[derive(Debug, PartialEq)]
struct Floats {
    x: f32,
    y: f64,
}

impl Codec for Floats {
    fn decode(input: &[u8]) -> Result<(Self, &[u8]), CodecError> {
        let (x, input) = in_field("x", u32::decode(input))?;
        let (y, input) = in_field("y", u64::decode(input))?;
        Ok((Floats { x: f32::from_bits(x), y: f64::from_bits(y) }, input))
    }
    fn encode(&self, buf: &mut Vec<u8>) {
        self.x.to_bits().encode(buf);
        self.y.to_bits().encode(buf);
    }
}

// --- Box ---

#[derive(Debug, PartialEq)]
struct Boxed {
    inner: Box<u32>,
}

impl Codec for Boxed {
    fn decode(input: &[u8]) -> Result<(Self, &[u8]), CodecError> {
        let (inner, input) = in_field("inner", Box::<u32>::decode(input))?;
        Ok((Boxed { inner }, input))
    }
    fn encode(&self, buf: &mut Vec<u8>) {
        self.inner.encode(buf);
    }
}

// --- Tuples ---

#[derive(Debug, PartialEq)]
struct WithTuple {
    pair: (u8, u16),
}

impl Codec for WithTuple {
    fn decode(input: &[u8]) -> Result<(Self, &[u8]), CodecError> {
        let (pair, input) = in_field("pair", <(u8, u16)>::decode(input))?;
        Ok((WithTuple { pair }, input))
    }
    fn encode(&self, buf: &mut Vec<u8>) {
        self.pair.encode(buf);
    }
}

// ============ TESTS ============

#[test]
fn roundtrip_struct() {
    let h = Header { version: 1, length: 42, flags: 0xFF };
    let mut buf = Vec::new();
    h.encode(&mut buf);
    assert_eq!(buf.len(), 7);
    let (decoded, rest) = Header::decode(&buf).unwrap();
    assert_eq!(decoded, h);
    assert!(rest.is_empty());
}

#[test]
fn roundtrip_tuple_struct() {
    let w = Wrapper(12345);
    let mut buf = Vec::new();
    w.encode(&mut buf);
    let (decoded, rest) = Wrapper::decode(&buf).unwrap();
    assert_eq!(decoded, w);
    assert!(rest.is_empty());
}

#[test]
fn roundtrip_unit_struct() {
    let mut buf = Vec::new();
    Unit.encode(&mut buf);
    assert!(buf.is_empty());
    let (decoded, rest) = Unit::decode(&buf).unwrap();
    assert_eq!(decoded, Unit);
    assert!(rest.is_empty());
}

#[test]
fn roundtrip_enum_unit() {
    let msg = Message::Ping;
    let mut buf = Vec::new();
    msg.encode(&mut buf);
    assert_eq!(buf, vec![0]);
    let (decoded, _) = Message::decode(&buf).unwrap();
    assert_eq!(decoded, msg);
}

#[test]
fn roundtrip_enum_named() {
    let msg = Message::Data { id: 99, payload: vec![1, 2, 3] };
    let mut buf = Vec::new();
    msg.encode(&mut buf);
    let (decoded, _) = Message::decode(&buf).unwrap();
    assert_eq!(decoded, msg);
}

#[test]
fn roundtrip_enum_tuple() {
    let msg = Message::Ack(0xDEADBEEF);
    let mut buf = Vec::new();
    msg.encode(&mut buf);
    let (decoded, _) = Message::decode(&buf).unwrap();
    assert_eq!(decoded, msg);
}

#[test]
fn roundtrip_nested() {
    let n = Nested {
        header: Header { version: 2, length: 100, flags: 0x01 },
        name: "hello".to_string(),
    };
    let mut buf = Vec::new();
    n.encode(&mut buf);
    let (decoded, _) = Nested::decode(&buf).unwrap();
    assert_eq!(decoded, n);
}

#[test]
fn roundtrip_option() {
    let some = WithOptional { id: 7, label: Some("test".into()) };
    let none = WithOptional { id: 7, label: None };
    for val in [some, none] {
        let mut buf = Vec::new();
        val.encode(&mut buf);
        let (decoded, _) = WithOptional::decode(&buf).unwrap();
        assert_eq!(decoded, val);
    }
}

#[test]
fn roundtrip_fixed_array() {
    let val = WithArray { data: [0xAA, 0xBB, 0xCC, 0xDD], values: [1, 2, 3] };
    let mut buf = Vec::new();
    val.encode(&mut buf);
    assert_eq!(buf.len(), 10);
    let (decoded, _) = WithArray::decode(&buf).unwrap();
    assert_eq!(decoded, val);
}

#[test]
fn mixed_endian_encoding() {
    let val = MixedEndian { big: 0x01020304, little: 0x01020304 };
    let mut buf = Vec::new();
    val.encode(&mut buf);
    assert_eq!(&buf[0..4], &[0x01, 0x02, 0x03, 0x04]);
    assert_eq!(&buf[4..8], &[0x04, 0x03, 0x02, 0x01]);
    let (decoded, _) = MixedEndian::decode(&buf).unwrap();
    assert_eq!(decoded, val);
}

#[test]
fn custom_len_u8() {
    let val = ShortVec { items: vec![1, 2, 3] };
    let mut buf = Vec::new();
    val.encode(&mut buf);
    assert_eq!(buf.len(), 7); // 1 + 3*2
    assert_eq!(buf[0], 3);
    let (decoded, _) = ShortVec::decode(&buf).unwrap();
    assert_eq!(decoded, val);
}

#[test]
fn custom_len_u16_string() {
    let val = ShortString { name: "hello".into() };
    let mut buf = Vec::new();
    val.encode(&mut buf);
    assert_eq!(buf.len(), 7); // 2 + 5
    let (decoded, _) = ShortString::decode(&buf).unwrap();
    assert_eq!(decoded, val);
}

#[test]
fn min_len_accepts_valid() {
    let val = NonEmpty { items: vec![1, 2, 3] };
    let mut buf = Vec::new();
    val.encode(&mut buf);
    let (decoded, _) = NonEmpty::decode(&buf).unwrap();
    assert_eq!(decoded, val);
}

#[test]
fn min_len_rejects_empty() {
    let val = NonEmpty { items: vec![] };
    let mut buf = Vec::new();
    val.encode(&mut buf);
    let err = NonEmpty::decode(&buf).unwrap_err();
    assert_eq!(err, CodecError::FieldError {
        field: "items",
        source: Box::new(CodecError::TooShort { min: 1, actual: 0 }),
    });
}

#[test]
fn max_len_accepts_valid() {
    let val = Bounded { items: vec![1, 2, 3] };
    let mut buf = Vec::new();
    val.encode(&mut buf);
    let (decoded, _) = Bounded::decode(&buf).unwrap();
    assert_eq!(decoded, val);
}

#[test]
fn max_len_rejects_too_long() {
    let val = Bounded { items: vec![1, 2, 3, 4] };
    let mut buf = Vec::new();
    val.encode(&mut buf);
    let err = Bounded::decode(&buf).unwrap_err();
    assert_eq!(err, CodecError::FieldError {
        field: "items",
        source: Box::new(CodecError::TooLong { max: 3, actual: 4 }),
    });
}

#[test]
fn skip_field() {
    let val = WithSkip { id: 42, cached: 999, name: "hi".into() };
    let mut buf = Vec::new();
    val.encode(&mut buf);
    // Should not contain the cached field (4 bytes for id + 4+2 for string = 10)
    assert_eq!(buf.len(), 10);
    let (decoded, _) = WithSkip::decode(&buf).unwrap();
    assert_eq!(decoded.id, 42);
    assert_eq!(decoded.cached, 0); // Default
    assert_eq!(decoded.name, "hi");
}

#[test]
fn padding_field() {
    let val = WithPadding { id: 1, flags: 2, data: 3 };
    let mut buf = Vec::new();
    val.encode(&mut buf);
    // 1 (id) + 1 (flags) + 3 (padding) + 4 (data) = 9
    assert_eq!(buf.len(), 9);
    assert_eq!(&buf[2..5], &[0, 0, 0]); // padding bytes
    let (decoded, _) = WithPadding::decode(&buf).unwrap();
    assert_eq!(decoded, val);
}

#[test]
fn magic_field() {
    let val = WithMagic { _magic: 0, version: 1 };
    let mut buf = Vec::new();
    val.encode(&mut buf);
    // 4 (magic) + 2 (version) = 6
    assert_eq!(buf.len(), 6);
    assert_eq!(&buf[0..4], &0xDEADBEEFu32.to_be_bytes());
    let (decoded, _) = WithMagic::decode(&buf).unwrap();
    assert_eq!(decoded.version, 1);
}

#[test]
fn magic_field_rejects_wrong_value() {
    let buf = vec![0x00, 0x00, 0x00, 0x00, 0x00, 0x01];
    let err = WithMagic::decode(&buf).unwrap_err();
    assert_eq!(err, CodecError::FieldError {
        field: "_magic",
        source: Box::new(CodecError::BadMagic),
    });
}

#[test]
fn validate_accepts_valid() {
    let val = Validated { value: 4 };
    let mut buf = Vec::new();
    val.encode(&mut buf);
    let (decoded, _) = Validated::decode(&buf).unwrap();
    assert_eq!(decoded, val);
}

#[test]
fn validate_rejects_invalid() {
    let val = Validated { value: 3 };
    let mut buf = Vec::new();
    val.encode(&mut buf);
    let err = Validated::decode(&buf).unwrap_err();
    assert_eq!(err, CodecError::FieldError {
        field: "value",
        source: Box::new(CodecError::ValidationFailed),
    });
}

#[test]
fn container_endian() {
    let val = AllLittle { a: 0x0102, b: 0x01020304 };
    let mut buf = Vec::new();
    val.encode(&mut buf);
    assert_eq!(&buf[0..2], &[0x02, 0x01]); // little-endian u16
    assert_eq!(&buf[2..6], &[0x04, 0x03, 0x02, 0x01]); // little-endian u32
    let (decoded, _) = AllLittle::decode(&buf).unwrap();
    assert_eq!(decoded, val);
}

#[test]
fn custom_discriminant() {
    let foo = CustomDisc::Foo;
    let bar = CustomDisc::Bar(42);
    let mut buf = Vec::new();
    foo.encode(&mut buf);
    assert_eq!(buf[0], 10);
    let (decoded, _) = CustomDisc::decode(&buf).unwrap();
    assert_eq!(decoded, foo);

    buf.clear();
    bar.encode(&mut buf);
    assert_eq!(buf[0], 20);
    let (decoded, _) = CustomDisc::decode(&buf).unwrap();
    assert_eq!(decoded, bar);
}

#[test]
fn wide_discriminant() {
    let a = WideEnum::A;
    let b = WideEnum::B(7);
    let mut buf = Vec::new();
    a.encode(&mut buf);
    assert_eq!(&buf[0..2], &[0, 0]); // u16 discriminant = 0
    let (decoded, _) = WideEnum::decode(&buf).unwrap();
    assert_eq!(decoded, a);

    buf.clear();
    b.encode(&mut buf);
    assert_eq!(&buf[0..2], &[0, 1]); // u16 discriminant = 1
    let (decoded, _) = WideEnum::decode(&buf).unwrap();
    assert_eq!(decoded, b);
}

#[test]
fn roundtrip_floats() {
    let val = Floats { x: 1.5, y: 2.5 };
    let mut buf = Vec::new();
    val.encode(&mut buf);
    assert_eq!(buf.len(), 12);
    let (decoded, _) = Floats::decode(&buf).unwrap();
    assert_eq!(decoded, val);
}

#[test]
fn roundtrip_box() {
    let val = Boxed { inner: Box::new(42) };
    let mut buf = Vec::new();
    val.encode(&mut buf);
    let (decoded, _) = Boxed::decode(&buf).unwrap();
    assert_eq!(decoded, val);
}

#[test]
fn roundtrip_tuple() {
    let val = WithTuple { pair: (1, 2) };
    let mut buf = Vec::new();
    val.encode(&mut buf);
    assert_eq!(buf.len(), 3); // 1 + 2
    let (decoded, _) = WithTuple::decode(&buf).unwrap();
    assert_eq!(decoded, val);
}

#[test]
fn roundtrip_hashmap() {
    let mut map = HashMap::new();
    map.insert(1u16, "one".to_string());
    map.insert(2u16, "two".to_string());
    let mut buf = Vec::new();
    map.encode(&mut buf);
    let (decoded, _) = <HashMap<u16, String>>::decode(&buf).unwrap();
    assert_eq!(decoded, map);
}

#[test]
fn error_not_enough_bytes() {
    let err = Header::decode(&[0x00]).unwrap_err();
    assert_eq!(err, CodecError::FieldError {
        field: "version",
        source: Box::new(CodecError::NotEnoughBytes { needed: 2, available: 1 }),
    });
}

#[test]
fn error_unknown_discriminant() {
    assert_eq!(Message::decode(&[255]), Err(CodecError::UnknownDiscriminant { value: 255 }));
}

#[test]
fn error_invalid_utf8() {
    let data = [0, 0, 0, 2, 0xFF, 0xFE];
    assert_eq!(String::decode(&data), Err(CodecError::InvalidUtf8));
}

#[test]
fn remaining_bytes_preserved() {
    let h = Header { version: 1, length: 0, flags: 0 };
    let mut buf = Vec::new();
    h.encode(&mut buf);
    buf.extend_from_slice(&[0xAA, 0xBB]);
    let (_, rest) = Header::decode(&buf).unwrap();
    assert_eq!(rest, &[0xAA, 0xBB]);
}

// --- u128/i128 ---

#[derive(Debug, PartialEq)]
struct BigInt {
    val: u128,
    signed: i128,
}

impl Codec for BigInt {
    fn decode(input: &[u8]) -> Result<(Self, &[u8]), CodecError> {
        let (val, input) = in_field("val", u128::decode(input))?;
        let (signed, input) = in_field("signed", i128::decode(input))?;
        Ok((BigInt { val, signed }, input))
    }
    fn encode(&self, buf: &mut Vec<u8>) {
        self.val.encode(buf);
        self.signed.encode(buf);
    }
}

#[test]
fn roundtrip_u128() {
    let val = BigInt { val: u128::MAX, signed: -1 };
    let mut buf = Vec::new();
    val.encode(&mut buf);
    assert_eq!(buf.len(), 32);
    let (decoded, _) = BigInt::decode(&buf).unwrap();
    assert_eq!(decoded, val);
}

// --- decode_exact ---

#[test]
fn decode_exact_success() {
    let h = Header { version: 1, length: 2, flags: 3 };
    let mut buf = Vec::new();
    h.encode(&mut buf);
    let decoded = Header::decode_exact(&buf).unwrap();
    assert_eq!(decoded, h);
}

#[test]
fn decode_exact_trailing_bytes() {
    let h = Header { version: 1, length: 2, flags: 3 };
    let mut buf = Vec::new();
    h.encode(&mut buf);
    buf.push(0xFF);
    let result = Header::decode_exact(&buf);
    assert_eq!(result, Err(CodecError::TrailingBytes { count: 1 }));
}

// --- encoded_size ---

#[test]
fn encoded_size_works() {
    let h = Header { version: 1, length: 2, flags: 3 };
    assert_eq!(h.encoded_size(), 7);
}

// --- allocation guard ---

#[test]
fn allocation_guard_rejects_huge_vec() {
    // Craft a buffer with a u32 length prefix of 0x01000001 (16M+1)
    let mut buf = Vec::new();
    (autocodec::MAX_DECODE_LEN as u32 + 1).encode(&mut buf);
    let result = <Vec<u8>>::decode(&buf);
    assert!(matches!(result, Err(CodecError::AllocationTooLarge { .. })));
}

// --- with module ---

// The custom codec functions that the field names with `with = "custom_codec"`.
fn custom_codec_decode(input: &[u8]) -> Result<(u16, &[u8]), CodecError> {
    // decode as little-endian u16
    if input.len() < 2 {
        return Err(CodecError::NotEnoughBytes { needed: 2, available: input.len() });
    }
    let val = u16::from_le_bytes([input[0], input[1]]);
    Ok((val, &input[2..]))
}

fn custom_codec_encode(val: &u16, buf: &mut Vec<u8>) {
    buf.extend_from_slice(&val.to_le_bytes());
}

#[derive(Debug, PartialEq)]
struct WithCustomCodec {
    value: u16,
}

impl Codec for WithCustomCodec {
    fn decode(input: &[u8]) -> Result<(Self, &[u8]), CodecError> {
        let (value, input) = in_field("value", custom_codec_decode(input))?;
        Ok((WithCustomCodec { value }, input))
    }
    fn encode(&self, buf: &mut Vec<u8>) {
        custom_codec_encode(&self.value, buf);
    }
}

#[test]
fn with_module_roundtrip() {
    let val = WithCustomCodec { value: 0x0102 };
    let mut buf = Vec::new();
    val.encode(&mut buf);
    assert_eq!(&buf, &[0x02, 0x01]); // little-endian via custom module
    let (decoded, _) = WithCustomCodec::decode(&buf).unwrap();
    assert_eq!(decoded, val);
}

// --- default expr ---

#[derive(Debug, PartialEq)]
struct WithDefault {
    id: u32,
    answer: u32,
}

impl Codec for WithDefault {
    fn decode(input: &[u8]) -> Result<(Self, &[u8]), CodecError> {
        let (id, input) = in_field("id", u32::decode(input))?;
        Ok((WithDefault { id, answer: 42 }, input))
    }
    fn encode(&self, buf: &mut Vec<u8>) {
        self.id.encode(buf);
    }
}

#[test]
fn skip_with_custom_default() {
    let val = WithDefault { id: 1, answer: 99 };
    let mut buf = Vec::new();
    val.encode(&mut buf);
    assert_eq!(buf.len(), 4); // only id encoded
    let (decoded, _) = WithDefault::decode(&buf).unwrap();
    assert_eq!(decoded.id, 1);
    assert_eq!(decoded.answer, 42); // custom default, not 0
}

// --- Bitfields ---

#[derive(Debug, PartialEq)]
struct Flags {
    syn: u8,
    ack: u8,
    fin: u8,
    reserved: u8,
    // total: 8 bits = 1 byte
}

impl Codec for Flags {
    fn decode(input: &[u8]) -> Result<(Self, &[u8]), CodecError> {
        let (v, input) = in_field("syn", unpack_bits(input, &[1, 1, 1, 5]))?;
        Ok((Flags { syn: v[0] as u8, ack: v[1] as u8, fin: v[2] as u8, reserved: v[3] as u8 }, input))
    }
    fn encode(&self, buf: &mut Vec<u8>) {
        let values = [self.syn as u64, self.ack as u64, self.fin as u64, self.reserved as u64];
        pack_bits(buf, &values, &[1, 1, 1, 5]);
    }
}

#[derive(Debug, PartialEq)]
struct TcpFlags {
    version: u8,
    ihl: u8,
    dscp: u8,
    // total: 16 bits = 2 bytes
}

impl Codec for TcpFlags {
    fn decode(input: &[u8]) -> Result<(Self, &[u8]), CodecError> {
        let (v, input) = in_field("version", unpack_bits(input, &[4, 4, 8]))?;
        Ok((TcpFlags { version: v[0] as u8, ihl: v[1] as u8, dscp: v[2] as u8 }, input))
    }
    fn encode(&self, buf: &mut Vec<u8>) {
        let values = [self.version as u64, self.ihl as u64, self.dscp as u64];
        pack_bits(buf, &values, &[4, 4, 8]);
    }
}

#[test]
fn bitfield_roundtrip() {
    let val = Flags { syn: 1, ack: 0, fin: 1, reserved: 0b10101 };
    let mut buf = Vec::new();
    val.encode(&mut buf);
    assert_eq!(buf.len(), 1);
    // syn=1, ack=0, fin=1, reserved=10101 -> 1 0 1 10101 = 0b10110101 = 0xB5
    assert_eq!(buf[0], 0b10110101);
    let (decoded, rest) = Flags::decode(&buf).unwrap();
    assert_eq!(decoded, val);
    assert!(rest.is_empty());
}

#[test]
fn bitfield_two_bytes() {
    let val = TcpFlags { version: 4, ihl: 5, dscp: 0xFF };
    let mut buf = Vec::new();
    val.encode(&mut buf);
    assert_eq!(buf.len(), 2);
    // version=0100, ihl=0101 -> byte 0 = 0b01000101 = 0x45
    // dscp=11111111 -> byte 1 = 0xFF
    assert_eq!(buf[0], 0x45);
    assert_eq!(buf[1], 0xFF);
    let (decoded, _) = TcpFlags::decode(&buf).unwrap();
    assert_eq!(decoded, val);
}

// --- Error context ---

#[test]
fn error_context_shows_field_name() {
    let err = Header::decode(&[0x00, 0x01]).unwrap_err(); // version ok (2 bytes), length fails
    match err {
        CodecError::FieldError { field, .. } => assert_eq!(field, "length"),
        other => panic!("expected FieldError, got {other:?}"),
    }
}

// --- repr(u8) with native discriminants ---

#[derive(Debug, PartialEq)]
enum ReprEnum {
    // wire discriminants 1, 5 and 10
    A,
    B,
    C,
}

impl Codec for ReprEnum {
    fn decode(input: &[u8]) -> Result<(Self, &[u8]), CodecError> {
        let (disc, input) = u8::decode(input)?;
        match disc {
            1 => Ok((ReprEnum::A, input)),
            5 => Ok((ReprEnum::B, input)),
            10 => Ok((ReprEnum::C, input)),
            other => Err(CodecError::UnknownDiscriminant { value: other as u64 }),
        }
    }
    fn encode(&self, buf: &mut Vec<u8>) {
        let disc: u8 = match self {
            ReprEnum::A => 1,
            ReprEnum::B => 5,
            ReprEnum::C => 10,
        };
        disc.encode(buf);
    }
}

#[test]
fn repr_u8_enum() {
    let mut buf = Vec::new();
    ReprEnum::A.encode(&mut buf);
    assert_eq!(buf, [1]);
    buf.clear();
    ReprEnum::B.encode(&mut buf);
    assert_eq!(buf, [5]);
    buf.clear();
    ReprEnum::C.encode(&mut buf);
    assert_eq!(buf, [10]);

    let (decoded, _) = ReprEnum::decode(&[5]).unwrap();
    assert_eq!(decoded, ReprEnum::B);

    assert!(ReprEnum::decode(&[0]).is_err());
}

#[derive(Debug, PartialEq)]
enum ReprU16Enum {
    // wire discriminants 256 and 512, as u16
    X,
    Y,
}

impl Codec for ReprU16Enum {
    fn decode(input: &[u8]) -> Result<(Self, &[u8]), CodecError> {
        let (disc, input) = u16::decode(input)?;
        match disc {
            256 => Ok((ReprU16Enum::X, input)),
            512 => Ok((ReprU16Enum::Y, input)),
            other => Err(CodecError::UnknownDiscriminant { value: other as u64 }),
        }
    }
    fn encode(&self, buf: &mut Vec<u8>) {
        let disc: u16 = match self {
            ReprU16Enum::X => 256,
            ReprU16Enum::Y => 512,
        };
        disc.encode(buf);
    }
}

#[test]
fn repr_u16_enum() {
    let mut buf = Vec::new();
    ReprU16Enum::X.encode(&mut buf);
    assert_eq!(buf, [1, 0]); // 256 big-endian
    let (decoded, _) = ReprU16Enum::decode(&buf).unwrap();
    assert_eq!(decoded, ReprU16Enum::X);
}

// --- Zero-copy Bytes ---

#[test]
fn bytes_zero_copy() {
    let data = [0, 0, 0, 5, 1, 2, 3, 4, 5, 0xFF];
    let (bytes, rest) = Bytes::decode(&data).unwrap();
    assert_eq!(bytes.as_ref(), &[1, 2, 3, 4, 5]);
    assert_eq!(rest, &[0xFF]);
    // Verify it's truly zero-copy: the slice points into the input data
    assert_eq!(bytes.0.as_ptr(), data[4..].as_ptr());
}

#[test]
fn bytes_encode() {
    let b = Bytes(&[0xAA, 0xBB]);
    let mut buf = Vec::new();
    b.encode(&mut buf);
    assert_eq!(buf, [0, 0, 0, 2, 0xAA, 0xBB]);
}

#[test]
fn bytes_encoded_size() {
    let b = Bytes(&[1, 2, 3]);
    assert_eq!(b.encoded_size(), 7); // 4 + 3
}

// --- Error context in enums ---

#[derive(Debug, PartialEq)]
enum ContextEnum {
    Foo { x: u32, y: String },
}

impl Codec for ContextEnum {
    fn decode(input: &[u8]) -> Result<(Self, &[u8]), CodecError> {
        let (disc, input) = u8::decode(input)?;
        match disc {
            0 => {
                let (x, input) = in_field("Foo::x", u32::decode(input))?;
                let (y, input) = in_field("Foo::y", String::decode(input))?;
                Ok((ContextEnum::Foo { x, y }, input))
            }
            other => Err(CodecError::UnknownDiscriminant { value: other as u64 }),
        }
    }
    fn encode(&self, buf: &mut Vec<u8>) {
        match self {
            ContextEnum::Foo { x, y } => {
                0u8.encode(buf);
                x.encode(buf);
                y.encode(buf);
            }
        }
    }
}

#[test]
fn error_context_enum_variant_field() {
    // Discriminant 0, x = valid u32, y = string with bad length
    let mut buf = vec![0u8]; // disc
    buf.extend_from_slice(&42u32.to_be_bytes()); // x
    buf.extend_from_slice(&100u32.to_be_bytes()); // y length = 100 but not enough bytes

    let err = ContextEnum::decode(&buf).unwrap_err();
    match err {
        CodecError::FieldError { field, .. } => assert_eq!(field, "Foo::y"),
        other => panic!("expected FieldError, got {other:?}"),
    }
}

// --- Error context in tuple structs ---

#[test]
fn error_context_tuple_struct() {
    let err = Wrapper::decode(&[0, 0]).unwrap_err(); // needs 4 bytes, only 2
    match err {
        CodecError::FieldError { field, .. } => assert_eq!(field, "0"),
        other => panic!("expected FieldError, got {other:?}"),
    }
}

// --- encoded_size for enums ---

#[test]
fn encoded_size_enum() {
    let msg = Message::Data { id: 1, payload: vec![0; 10] };
    // disc(1) + id(4) + vec_len(4) + 10 bytes = 19
    assert_eq!(msg.encoded_size(), 19);
    assert_eq!(Message::Ping.encoded_size(), 1);
}

// --- Bitfield edge cases ---

#[derive(Debug, PartialEq)]
struct BitfieldMixed {
    a: u8,
    b: u8,
    // 8 bits = 1 byte, then a normal field
    normal: u16,
}

impl Codec for BitfieldMixed {
    fn decode(input: &[u8]) -> Result<(Self, &[u8]), CodecError> {
        let (v, input) = in_field("a", unpack_bits(input, &[3, 5]))?;
        let (normal, input) = in_field("normal", u16::decode(input))?;
        Ok((BitfieldMixed { a: v[0] as u8, b: v[1] as u8, normal }, input))
    }
    fn encode(&self, buf: &mut Vec<u8>) {
        pack_bits(buf, &[self.a as u64, self.b as u64], &[3, 5]);
        self.normal.encode(buf);
    }
}

#[test]
fn bitfield_followed_by_normal() {
    let val = BitfieldMixed { a: 0b101, b: 0b11010, normal: 0x1234 };
    let mut buf = Vec::new();
    val.encode(&mut buf);
    // a=101, b=11010 -> 10111010 = 0xBA, then u16 0x1234
    assert_eq!(buf.len(), 3);
    assert_eq!(buf[0], 0b10111010);
    assert_eq!(&buf[1..3], &[0x12, 0x34]);
    let (decoded, _) = BitfieldMixed::decode(&buf).unwrap();
    assert_eq!(decoded, val);
}

#[derive(Debug, PartialEq)]
struct BitfieldWide {
    val12: u16,
    val4: u8,
    // 16 bits = 2 bytes
}

impl Codec for BitfieldWide {
    fn decode(input: &[u8]) -> Result<(Self, &[u8]), CodecError> {
        let (v, input) = in_field("val12", unpack_bits(input, &[12, 4]))?;
        Ok((BitfieldWide { val12: v[0] as u16, val4: v[1] as u8 }, input))
    }
    fn encode(&self, buf: &mut Vec<u8>) {
        pack_bits(buf, &[self.val12 as u64, self.val4 as u64], &[12, 4]);
    }
}

#[test]
fn bitfield_wide_values() {
    let val = BitfieldWide { val12: 0xABC, val4: 0xD };
    let mut buf = Vec::new();
    val.encode(&mut buf);
    assert_eq!(buf.len(), 2);
    // 0xABC = 1010 1011 1100, 0xD = 1101 -> 1010 1011 1100 1101 = 0xABCD
    assert_eq!(buf, [0xAB, 0xCD]);
    let (decoded, _) = BitfieldWide::decode(&buf).unwrap();
    assert_eq!(decoded, val);
}

// --- Empty struct with padding ---

#[derive(Debug, PartialEq)]
struct PaddedEmpty {
    _reserved: u32,
}

impl Codec for PaddedEmpty {
    fn decode(input: &[u8]) -> Result<(Self, &[u8]), CodecError> {
        let input = in_field("_reserved", skip_padding(input, 4))?;
        Ok((PaddedEmpty { _reserved: Default::default() }, input))
    }
    fn encode(&self, buf: &mut Vec<u8>) {
        encode_padding(buf, 4);
    }
}

#[test]
fn empty_struct_with_padding() {
    let val = PaddedEmpty { _reserved: 0 };
    let mut buf = Vec::new();
    val.encode(&mut buf);
    assert_eq!(buf, [0, 0, 0, 0]);
    let (decoded, rest) = PaddedEmpty::decode(&[0, 0, 0, 0, 0xFF]).unwrap();
    assert_eq!(decoded._reserved, 0);
    assert_eq!(rest, &[0xFF]);
}

// --- Box<[T]> ---

#[derive(Debug, PartialEq)]
struct WithBoxedSlice {
    data: Box<[u8]>,
}

impl Codec for WithBoxedSlice {
    fn decode(input: &[u8]) -> Result<(Self, &[u8]), CodecError> {
        let (data, input) = in_field("data", Box::<[u8]>::decode(input))?;
        Ok((WithBoxedSlice { data }, input))
    }
    fn encode(&self, buf: &mut Vec<u8>) {
        self.data.encode(buf);
    }
}

#[derive(Debug, PartialEq)]
struct WithBoxedSliceShortLen {
    data: Box<[u16]>,
}

impl Codec for WithBoxedSliceShortLen {
    fn decode(input: &[u8]) -> Result<(Self, &[u8]), CodecError> {
        let rule = LenRule::with_prefix(LenPrefix::U8);
        let (data, input) = in_field("data", decode_seq::<u16>(input, &rule))?;
        Ok((WithBoxedSliceShortLen { data: data.into_boxed_slice() }, input))
    }
    fn encode(&self, buf: &mut Vec<u8>) {
        encode_seq(&self.data, LenPrefix::U8, buf);
    }
}

#[derive(Debug, PartialEq)]
struct WithBoxedSliceMinLen {
    data: Box<[u8]>,
}

impl Codec for WithBoxedSliceMinLen {
    fn decode(input: &[u8]) -> Result<(Self, &[u8]), CodecError> {
        let rule = LenRule { prefix: LenPrefix::U32, min_len: 2, max_len: None };
        let (data, input) = in_field("data", decode_seq::<u8>(input, &rule))?;
        Ok((WithBoxedSliceMinLen { data: data.into_boxed_slice() }, input))
    }
    fn encode(&self, buf: &mut Vec<u8>) {
        encode_seq(&self.data, LenPrefix::U32, buf);
    }
}

#[test]
fn boxed_slice_roundtrip() {
    let val = WithBoxedSlice { data: vec![1, 2, 3].into_boxed_slice() };
    let mut buf = Vec::new();
    val.encode(&mut buf);
    // u32 len (4) + 3 bytes = 7
    assert_eq!(buf.len(), 7);
    let (decoded, rest) = WithBoxedSlice::decode(&buf).unwrap();
    assert_eq!(decoded, val);
    assert!(rest.is_empty());
}

#[test]
fn boxed_slice_custom_len() {
    let val = WithBoxedSliceShortLen { data: vec![1, 2].into_boxed_slice() };
    let mut buf = Vec::new();
    val.encode(&mut buf);
    // u8 len (1) + 2 * u16 (4) = 5
    assert_eq!(buf.len(), 5);
    assert_eq!(buf[0], 2); // u8 length prefix
    let (decoded, _) = WithBoxedSliceShortLen::decode(&buf).unwrap();
    assert_eq!(decoded, val);
}

#[test]
fn boxed_slice_min_len_rejects() {
    let val = WithBoxedSliceMinLen { data: vec![1].into_boxed_slice() };
    let mut buf = Vec::new();
    val.encode(&mut buf);
    let err = WithBoxedSliceMinLen::decode(&buf).unwrap_err();
    match err {
        CodecError::FieldError { field, source } => {
            assert_eq!(field, "data");
            assert_eq!(*source, CodecError::TooShort { min: 2, actual: 1 });
        }
        other => panic!("expected FieldError, got {other:?}"),
    }
}
