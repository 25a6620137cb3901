// Concrete cases of the layout planning, the field labels and the error messages.
use autocodec::plan::{
    field_label, plan_enum, plan_fields, Endian, FieldKind, FieldOp, FieldProblem, FieldSpec,
    PlanError, Read, SettingName, VariantSpec,
};
use autocodec::collections::{encoded_seq_size, encoded_text_size};
use autocodec::{
    encode_padding, pack_bits, skip_padding, unpack_bits, Codec, CodecError, LenPrefix, LenRule,
};

fn plain() -> FieldSpec {
    FieldSpec {
        kind: FieldKind::Plain,
        endian: None,
        len: None,
        min_len: None,
        max_len: None,
        skip: false,
        padding: 0,
        magic: false,
        validate: false,
        with: false,
        bits: None,
    }
}

fn of(kind: FieldKind) -> FieldSpec {
    FieldSpec { kind, ..plain() }
}

fn integer() -> FieldSpec {
    of(FieldKind::Integer)
}

fn bits(n: u32) -> FieldSpec {
    FieldSpec { bits: Some(n), ..integer() }
}

fn value(field: usize, read: Read) -> FieldOp {
    FieldOp::Value { field, read, validate: false, padding: 0 }
}

fn variant(declared: Option<u64>, native: Option<u64>) -> VariantSpec {
    VariantSpec { declared, native, fields: vec![] }
}

#[test]
fn fields_keep_declaration_order() {
    let ops = plan_fields(&[plain(), of(FieldKind::Vector), of(FieldKind::Text)], None).unwrap();
    assert_eq!(ops, vec![value(0, Read::Plain), value(1, Read::Plain), value(2, Read::Plain)]);
    assert_eq!(plan_fields(&[], None), Ok(vec![]));
}

#[test]
fn own_endianness_wins_over_the_container() {
    let big = FieldSpec { endian: Some(Endian::Big), ..integer() };
    let little = FieldSpec { endian: Some(Endian::Little), ..integer() };
    assert_eq!(
        plan_fields(&[integer(), big, little], Some(Endian::Little)).unwrap(),
        vec![value(0, Read::LittleEndian), value(1, Read::Plain), value(2, Read::LittleEndian)]
    );
    assert_eq!(plan_fields(&[integer()], Some(Endian::Big)).unwrap(), vec![value(0, Read::Plain)]);
    assert_eq!(
        plan_fields(&[of(FieldKind::Float32), of(FieldKind::Float64)], Some(Endian::Little)).unwrap(),
        vec![value(0, Read::Float32 { little: true }), value(1, Read::Float64 { little: true })]
    );
}

#[test]
fn bit_fields_group_into_runs() {
    let fields = [bits(4), bits(4), plain(), bits(1), bits(1), bits(6)];
    assert_eq!(
        plan_fields(&fields, None).unwrap(),
        vec![
            FieldOp::Bits { first: 0, count: 2, bytes: 1 },
            value(2, Read::Plain),
            FieldOp::Bits { first: 3, count: 3, bytes: 1 },
        ]
    );
    assert_eq!(
        plan_fields(&[bits(3), bits(7)], None).unwrap(),
        vec![FieldOp::Bits { first: 0, count: 2, bytes: 2 }]
    );
    assert_eq!(
        plan_fields(&[bits(64)], None).unwrap(),
        vec![FieldOp::Bits { first: 0, count: 1, bytes: 8 }]
    );
}

#[test]
fn only_byte_order_free_types_ignore_the_container_order() {
    let fields = [of(FieldKind::Text), plain(), of(FieldKind::Vector), of(FieldKind::BoxedSlice), integer()];
    assert_eq!(
        plan_fields(&fields, Some(Endian::Little)).unwrap(),
        vec![
            value(0, Read::Plain),
            value(1, Read::Plain),
            value(2, Read::Plain),
            value(3, Read::Plain),
            value(4, Read::LittleEndian),
        ]
    );
    let own = FieldSpec { endian: Some(Endian::Little), ..plain() };
    assert_eq!(plan_fields(&[own], None).unwrap(), vec![value(0, Read::Plain)]);
}

#[test]
fn bit_groups_take_any_number_of_bits() {
    assert_eq!(
        plan_fields(&[bits(60), bits(4), bits(1)], None).unwrap(),
        vec![FieldOp::Bits { first: 0, count: 3, bytes: 9 }]
    );
    assert_eq!(
        plan_fields(&[bits(64), bits(64), bits(64)], None).unwrap(),
        vec![FieldOp::Bits { first: 0, count: 3, bytes: 24 }]
    );
    assert_eq!(
        plan_fields(&[bits(1), bits(65)], None),
        Err(PlanError::Field { variant: None, field: 1, problem: FieldProblem::BitFieldTooWide })
    );
    assert_eq!(
        plan_fields(&[bits(8), FieldSpec { bits: Some(8), ..plain() }], None),
        Err(PlanError::Field { variant: None, field: 1, problem: FieldProblem::BitsConflict })
    );
    assert!(plan_fields(&[bits(60), plain(), bits(60)], None).is_ok());
    let skipped = FieldSpec { skip: true, ..bits(1) };
    assert_eq!(
        plan_fields(&[bits(1), skipped], None),
        Err(PlanError::Field { variant: None, field: 1, problem: FieldProblem::BitsConflict })
    );
}

#[test]
fn skip_and_magic_and_padding() {
    let skipped = FieldSpec { skip: true, magic: true, padding: 2, ..plain() };
    let magic = FieldSpec { magic: true, with: true, ..plain() };
    let checked = FieldSpec { validate: true, padding: 3, ..plain() };
    assert_eq!(
        plan_fields(&[skipped, magic, checked], None).unwrap(),
        vec![
            FieldOp::Default { field: 0, padding: 2 },
            FieldOp::Magic { field: 1, padding: 0 },
            FieldOp::Value { field: 2, read: Read::Plain, validate: true, padding: 3 },
        ]
    );
    let custom = FieldSpec { with: true, endian: Some(Endian::Little), ..plain() };
    assert_eq!(plan_fields(&[custom], None).unwrap(), vec![value(0, Read::Custom)]);
}

#[test]
fn length_settings_only_on_sequences() {
    let short = FieldSpec { len: Some(LenPrefix::U8), max_len: Some(4), ..of(FieldKind::Vector) };
    let boxed = FieldSpec { min_len: Some(1), ..of(FieldKind::BoxedSlice) };
    let text = FieldSpec { len: Some(LenPrefix::U16), ..of(FieldKind::Text) };
    assert_eq!(
        plan_fields(&[short, boxed, text], None).unwrap(),
        vec![
            value(0, Read::Sequence(LenRule { prefix: LenPrefix::U8, min_len: 0, max_len: Some(4) })),
            value(1, Read::BoxedSequence(LenRule { prefix: LenPrefix::U32, min_len: 1, max_len: None })),
            value(2, Read::Text(LenRule { prefix: LenPrefix::U16, min_len: 0, max_len: None })),
        ]
    );
    let wrong = FieldSpec { len: Some(LenPrefix::U8), ..plain() };
    assert_eq!(
        plan_fields(&[plain(), wrong], None),
        Err(PlanError::Field { variant: None, field: 1, problem: FieldProblem::LenOnNonSequence })
    );
}

#[test]
fn discriminants_follow_attribute_then_native_then_previous() {
    let vs = [variant(None, None), variant(None, Some(5)), variant(Some(9), Some(7)), variant(None, None)];
    let plan = plan_enum(&vs, 255, None).unwrap();
    let discs: Vec<u64> = plan.iter().map(|p| p.0).collect();
    assert_eq!(discs, vec![0, 5, 9, 10]);
    assert_eq!(plan_enum(&[], 255, None), Ok(vec![]));
    assert_eq!(
        plan_enum(&[variant(Some(255), None), variant(None, None)], 255, None),
        Err(PlanError::DiscriminantTooLarge { variant_index: 1 })
    );
    assert_eq!(
        plan_enum(&[variant(None, Some(256))], 255, None),
        Err(PlanError::DiscriminantTooLarge { variant_index: 0 })
    );
    assert_eq!(
        plan_enum(&[variant(Some(u64::MAX), None), variant(None, None)], u64::MAX, None),
        Err(PlanError::DiscriminantTooLarge { variant_index: 1 })
    );
    let many = vec![variant(None, None); 257];
    assert_eq!(
        plan_enum(&many, 255, None),
        Err(PlanError::DiscriminantTooLarge { variant_index: 256 })
    );
    assert_eq!(plan_enum(&many[..256], 255, None).unwrap()[255].0, 255);
}

#[test]
fn variant_fields_are_planned_per_variant() {
    let vs = [
        VariantSpec { declared: None, native: None, fields: vec![] },
        VariantSpec { declared: None, native: None, fields: vec![integer(), bits(3)] },
    ];
    assert_eq!(
        plan_enum(&vs, 255, Some(Endian::Little)).unwrap(),
        vec![
            (0, vec![]),
            (1, vec![value(0, Read::LittleEndian), FieldOp::Bits { first: 1, count: 1, bytes: 1 }]),
        ]
    );
    let wrong = VariantSpec { declared: None, native: None, fields: vec![bits(40), bits(70)] };
    assert_eq!(
        plan_enum(&[variant(None, None), wrong], 255, None),
        Err(PlanError::Field { variant: Some(1), field: 1, problem: FieldProblem::BitFieldTooWide })
    );
}

#[test]
fn labels_name_the_field_within_its_variant() {
    assert_eq!(field_label(None, Some("version"), 0), "version");
    assert_eq!(field_label(None, None, 12), "12");
    assert_eq!(field_label(Some("Data"), Some("id"), 0), "Data::id");
    assert_eq!(field_label(Some("Ack"), None, 0), "Ack::0");
}

#[test]
fn messages_describe_errors() {
    let e = CodecError::FieldError {
        field: "version",
        source: Box::new(CodecError::NotEnoughBytes { needed: 2, available: 1 }),
    };
    assert_eq!(e.message(), "in field `version`: not enough bytes: needed 2, have 1");
    assert_eq!(CodecError::InvalidUtf8.message(), "invalid UTF-8");
    assert_eq!(CodecError::UnknownDiscriminant { value: 300 }.message(), "unknown discriminant: 300");
    assert_eq!(
        CodecError::TooShort { min: 1, actual: 0 }.message(),
        "too short: at least 1 expected, got 0"
    );
    assert_eq!(
        CodecError::TooLong { max: 256, actual: 1000 }.message(),
        "too long: at most 256 expected, got 1000"
    );
    assert_eq!(CodecError::BadMagic.message(), "bad magic value");
    assert_eq!(CodecError::ValidationFailed.message(), "validation failed");
    assert_eq!(CodecError::TrailingBytes { count: 3 }.message(), "3 trailing bytes after value");
    assert_eq!(
        CodecError::AllocationTooLarge { len: 18446744073709551615, max: 16777216 }.message(),
        "length 18446744073709551615 exceeds the limit of 16777216"
    );
}

#[test]
fn discriminant_types_hold_their_range() {
    assert_eq!(LenPrefix::U8.max_value(), 255);
    assert_eq!(LenPrefix::U16.max_value(), 65535);
    assert_eq!(LenPrefix::U32.max_value(), 4294967295);
    assert_eq!(LenPrefix::U64.max_value(), u64::MAX);
    let vs = [variant(None, Some(65535)), variant(None, None)];
    assert_eq!(
        plan_enum(&vs, LenPrefix::U16.max_value(), None),
        Err(PlanError::DiscriminantTooLarge { variant_index: 1 })
    );
    assert!(plan_enum(&vs, LenPrefix::U32.max_value(), None).is_ok());
}

#[test]
fn names_parse_to_settings() {
    assert_eq!(Endian::parse("little"), Some(Endian::Little));
    assert_eq!(Endian::parse("big"), Some(Endian::Big));
    assert_eq!(Endian::parse("Little"), None);
    assert_eq!(Endian::parse(""), None);
    assert_eq!(LenPrefix::parse("u8"), Some(LenPrefix::U8));
    assert_eq!(LenPrefix::parse("u64"), Some(LenPrefix::U64));
    assert_eq!(LenPrefix::parse("u128"), None);
    assert_eq!(FieldKind::of_name("u128"), FieldKind::Integer);
    assert_eq!(FieldKind::of_name("i8"), FieldKind::Integer);
    assert_eq!(FieldKind::of_name("String"), FieldKind::Text);
    assert_eq!(FieldKind::of_name("f64"), FieldKind::Float64);
    assert_eq!(FieldKind::of_name("bool"), FieldKind::Plain);
    assert_eq!(FieldKind::of_name("Header"), FieldKind::Plain);
    assert_eq!(FieldKind::of_generic("Vec", false), FieldKind::Vector);
    assert_eq!(FieldKind::of_generic("Box", true), FieldKind::BoxedSlice);
    assert_eq!(FieldKind::of_generic("Box", false), FieldKind::Plain);
    assert_eq!(FieldKind::of_generic("Option", false), FieldKind::Plain);
    assert_eq!(SettingName::parse("max_len"), Some(SettingName::MaxLen));
    assert_eq!(SettingName::parse("bits"), Some(SettingName::Bits));
    assert_eq!(SettingName::parse("colour"), None);
}

#[test]
fn sizes_of_prefixed_data() {
    assert_eq!(encoded_seq_size(&[1u16, 2, 3], LenPrefix::U8), 7);
    assert_eq!(encoded_seq_size::<u32>(&[], LenPrefix::U64), 8);
    assert_eq!(encoded_text_size("h\u{e9}", LenPrefix::U16), 5);
    assert_eq!(encoded_text_size("", LenPrefix::U32), 4);
}

#[test]
fn a_planned_record_roundtrips() {
    let padded = FieldSpec { padding: 2, ..integer() };
    let ops = plan_fields(&[padded, bits(3), bits(13)], None).unwrap();
    assert_eq!(
        ops,
        vec![
            FieldOp::Value { field: 0, read: Read::Plain, validate: false, padding: 2 },
            FieldOp::Bits { first: 1, count: 2, bytes: 2 },
        ]
    );
    let mut buf = Vec::new();
    0x0102u16.encode(&mut buf);
    encode_padding(&mut buf, 2);
    pack_bits(&mut buf, &[5, 0x1ABC], &[3, 13]);
    buf.push(0xEE);
    assert_eq!(buf, [0x01, 0x02, 0, 0, 0xBA, 0xBC, 0xEE]);
    let (a, rest) = u16::decode(&buf).unwrap();
    let rest = skip_padding(rest, 2).unwrap();
    let (vals, rest) = unpack_bits(rest, &[3, 13]).unwrap();
    assert_eq!(a, 0x0102);
    assert_eq!(vals, vec![5, 0x1ABC]);
    assert_eq!(rest, &[0xEE]);
}

#[test]
fn repeated_discriminants_are_refused() {
    assert_eq!(
        plan_enum(&[variant(Some(1), None), variant(Some(1), None)], 255, None),
        Err(PlanError::DuplicateDiscriminant { variant_index: 1 })
    );
    assert_eq!(
        plan_enum(&[variant(None, Some(3)), variant(None, Some(2)), variant(None, None)], 255, None),
        Err(PlanError::DuplicateDiscriminant { variant_index: 2 })
    );
    let discs: Vec<u64> = plan_enum(&[variant(None, Some(3)), variant(Some(0), None), variant(None, None)], 255, None)
        .unwrap()
        .iter()
        .map(|p| p.0)
        .collect();
    assert_eq!(discs, vec![3, 0, 1]);
}
