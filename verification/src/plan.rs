//! The wire layout of a derived record or enum, planned from the
//! `#[codec(..)]` settings of its fields and variants: which read and write
//! each field gets, how consecutive bit fields are grouped, and which number
//! each enum variant carries.
use crate::seq::{LenPrefix, LenRule};
use crate::text::{decimal_usize, spec_decimal, text_eq};
use vstd::prelude::*;

verus! {

/// Byte order of a field or of a whole record.
#[derive(Clone, Copy, Debug, PartialEq, Eq)]
pub enum Endian {
    Big,
    Little,
}

/// The byte order an `endian = ".."` setting names.
pub open spec fn endian_named(t: Seq<char>) -> Option<Endian> {
    if t == "little"@ {
        Some(Endian::Little)
    } else if t == "big"@ {
        Some(Endian::Big)
    } else {
        None
    }
}

impl Endian {
    /// The byte order named `"little"` or `"big"`; `None` for any other text.
    pub fn parse(s: &str) -> (r: Option<Endian>)
        ensures
            r == endian_named(s@),
    {
        if text_eq(s, "little") {
            Some(Endian::Little)
        } else if text_eq(s, "big") {
            Some(Endian::Big)
        } else {
            None
        }
    }
}

/// The shape of a field's type, as far as the layout depends on it.
#[derive(Clone, Copy, Debug, PartialEq, Eq)]
pub enum FieldKind {
    /// A primitive integer (`u8` to `u128`, `i8` to `i128`): the one kind
    /// that has a little-endian form and can be a bit field.
    Integer,
    /// Any other type: read and written through its `Codec` impl.
    Plain,
    /// `Vec<T>`.
    Vector,
    /// `Box<[T]>`.
    BoxedSlice,
    /// `String`.
    Text,
    /// `f32`, carried as the bits of a `u32`.
    Float32,
    /// `f64`, carried as the bits of a `u64`.
    Float64,
}

/// The kind of a type named by the single identifier `t`, such as `u16` or
/// `String`; generic types such as `Vec<T>` are told apart by their shape.
pub open spec fn kind_named(t: Seq<char>) -> FieldKind {
    if t == "u8"@ || t == "u16"@ || t == "u32"@ || t == "u64"@ || t == "u128"@ || t == "i8"@ || t
        == "i16"@ || t == "i32"@ || t == "i64"@ || t == "i128"@ {
        FieldKind::Integer
    } else if t == "String"@ {
        FieldKind::Text
    } else if t == "f32"@ {
        FieldKind::Float32
    } else if t == "f64"@ {
        FieldKind::Float64
    } else {
        FieldKind::Plain
    }
}

impl FieldKind {
    /// The kind of a type named by the single identifier `s`.
    pub fn of_name(s: &str) -> (k: FieldKind)
        ensures
            k == kind_named(s@),
    {
        if text_eq(s, "u8") || text_eq(s, "u16") || text_eq(s, "u32") || text_eq(s, "u64")
            || text_eq(s, "u128") || text_eq(s, "i8") || text_eq(s, "i16") || text_eq(s, "i32")
            || text_eq(s, "i64") || text_eq(s, "i128") {
            FieldKind::Integer
        } else if text_eq(s, "String") {
            FieldKind::Text
        } else if text_eq(s, "f32") {
            FieldKind::Float32
        } else if text_eq(s, "f64") {
            FieldKind::Float64
        } else {
            FieldKind::Plain
        }
    }
}

/// The kind of a generic type named `s` whose first argument is a slice
/// type (`[T]`) where `slice` holds: `Vec<T>` and `Box<[T]>` are the
/// sequences, any other generic type is plain.
pub open spec fn kind_of_generic(t: Seq<char>, slice: bool) -> FieldKind {
    if t == "Vec"@ && !slice {
        FieldKind::Vector
    } else if t == "Box"@ && slice {
        FieldKind::BoxedSlice
    } else {
        FieldKind::Plain
    }
}

impl FieldKind {
    /// The kind of a generic type named `s` whose first argument is a slice
    /// type where `slice` holds.
    pub fn of_generic(s: &str, slice: bool) -> (k: FieldKind)
        ensures
            k == kind_of_generic(s@, slice),
    {
        if text_eq(s, "Vec") && !slice {
            FieldKind::Vector
        } else if text_eq(s, "Box") && slice {
            FieldKind::BoxedSlice
        } else {
            FieldKind::Plain
        }
    }
}

/// The sequence kinds of generic types: `Vec` of a non-slice type is a
/// vector, `Box` of a slice is a boxed slice, and nothing else is either.
pub proof fn lemma_generic_kinds(t: Seq<char>, slice: bool)
    ensures
        kind_of_generic(t, slice) == FieldKind::Vector <==> t == "Vec"@ && !slice,
        kind_of_generic(t, slice) == FieldKind::BoxedSlice <==> t == "Box"@ && slice,
        kind_of_generic(t, slice) == FieldKind::Vector || kind_of_generic(t, slice)
            == FieldKind::BoxedSlice || kind_of_generic(t, slice) == FieldKind::Plain,
{
}

/// The name of a field setting inside `#[codec(..)]`.
#[derive(Clone, Copy, Debug, PartialEq, Eq)]
pub enum SettingName {
    Endian,
    Len,
    MinLen,
    MaxLen,
    Skip,
    Default,
    Padding,
    Magic,
    Validate,
    With,
    Bits,
}

/// The field setting named `t`.
pub open spec fn setting_named(t: Seq<char>) -> Option<SettingName> {
    if t == "endian"@ {
        Some(SettingName::Endian)
    } else if t == "len"@ {
        Some(SettingName::Len)
    } else if t == "min_len"@ {
        Some(SettingName::MinLen)
    } else if t == "max_len"@ {
        Some(SettingName::MaxLen)
    } else if t == "skip"@ {
        Some(SettingName::Skip)
    } else if t == "default"@ {
        Some(SettingName::Default)
    } else if t == "padding"@ {
        Some(SettingName::Padding)
    } else if t == "magic"@ {
        Some(SettingName::Magic)
    } else if t == "validate"@ {
        Some(SettingName::Validate)
    } else if t == "with"@ {
        Some(SettingName::With)
    } else if t == "bits"@ {
        Some(SettingName::Bits)
    } else {
        None
    }
}

impl SettingName {
    /// The field setting named `s`; `None` for an unknown name.
    pub fn parse(s: &str) -> (r: Option<SettingName>)
        ensures
            r == setting_named(s@),
    {
        if text_eq(s, "endian") {
            Some(SettingName::Endian)
        } else if text_eq(s, "len") {
            Some(SettingName::Len)
        } else if text_eq(s, "min_len") {
            Some(SettingName::MinLen)
        } else if text_eq(s, "max_len") {
            Some(SettingName::MaxLen)
        } else if text_eq(s, "skip") {
            Some(SettingName::Skip)
        } else if text_eq(s, "default") {
            Some(SettingName::Default)
        } else if text_eq(s, "padding") {
            Some(SettingName::Padding)
        } else if text_eq(s, "magic") {
            Some(SettingName::Magic)
        } else if text_eq(s, "validate") {
            Some(SettingName::Validate)
        } else if text_eq(s, "with") {
            Some(SettingName::With)
        } else if text_eq(s, "bits") {
            Some(SettingName::Bits)
        } else {
            None
        }
    }
}

/// The text of a field setting's name.
pub open spec fn setting_text(s: SettingName) -> Seq<char> {
    match s {
        SettingName::Endian => "endian"@,
        SettingName::Len => "len"@,
        SettingName::MinLen => "min_len"@,
        SettingName::MaxLen => "max_len"@,
        SettingName::Skip => "skip"@,
        SettingName::Default => "default"@,
        SettingName::Padding => "padding"@,
        SettingName::Magic => "magic"@,
        SettingName::Validate => "validate"@,
        SettingName::With => "with"@,
        SettingName::Bits => "bits"@,
    }
}

/// Each field setting is named by its own text, and a text names a setting
/// only where it is that setting's text: no two settings share a name.
pub proof fn lemma_setting_names()
    ensures
        forall|s: SettingName| #[trigger] setting_named(setting_text(s)) == Some(s),
        forall|t: Seq<char>| #[trigger] setting_named(t) matches Some(s) ==> t == setting_text(s),
{
    reveal_strlit("endian");
    reveal_strlit("len");
    reveal_strlit("min_len");
    reveal_strlit("max_len");
    reveal_strlit("skip");
    reveal_strlit("default");
    reveal_strlit("padding");
    reveal_strlit("magic");
    reveal_strlit("validate");
    reveal_strlit("with");
    reveal_strlit("bits");
    assert("endian"@.len() == 6);
    assert("len"@.len() == 3);
    assert("min_len"@.len() == 7);
    assert("max_len"@.len() == 7);
    assert("skip"@.len() == 4);
    assert("default"@.len() == 7);
    assert("padding"@.len() == 7);
    assert("magic"@.len() == 5);
    assert("validate"@.len() == 8);
    assert("with"@.len() == 4);
    assert("bits"@.len() == 4);
    assert("min_len"@[1] != "max_len"@[1]);
    assert("default"@[0] != "min_len"@[0] && "default"@[0] != "max_len"@[0]);
    assert("padding"@[0] != "min_len"@[0] && "padding"@[0] != "max_len"@[0]);
    assert("padding"@[0] != "default"@[0]);
    assert("with"@[0] != "skip"@[0] && "bits"@[0] != "skip"@[0] && "bits"@[0] != "with"@[0]);
    assert forall|s: SettingName| #[trigger] setting_named(setting_text(s)) == Some(s) by {
        match s {
            SettingName::Endian => {},
            SettingName::Len => {},
            SettingName::MinLen => {},
            SettingName::MaxLen => {},
            SettingName::Skip => {},
            SettingName::Default => {},
            SettingName::Padding => {},
            SettingName::Magic => {},
            SettingName::Validate => {},
            SettingName::With => {},
            SettingName::Bits => {},
        }
    }
}

/// The text of a byte order's name.
pub open spec fn endian_text(e: Endian) -> Seq<char> {
    match e {
        Endian::Little => "little"@,
        Endian::Big => "big"@,
    }
}

/// Each byte order is named by its own text, and no other text names one.
pub proof fn lemma_endian_names()
    ensures
        forall|e: Endian| #[trigger] endian_named(endian_text(e)) == Some(e),
        forall|t: Seq<char>| #[trigger] endian_named(t) matches Some(e) ==> t == endian_text(e),
{
    reveal_strlit("little");
    reveal_strlit("big");
    assert("little"@.len() == 6 && "big"@.len() == 3);
    assert forall|e: Endian| #[trigger] endian_named(endian_text(e)) == Some(e) by {
        match e {
            Endian::Little => {},
            Endian::Big => {},
        }
    }
}

/// The name of the integer type of `bits` bits, signed or not: `i` or `u`
/// and the number.
pub open spec fn integer_type_name(signed: bool, bits: nat) -> Seq<char> {
    (if signed {
        "i"@
    } else {
        "u"@
    }) + spec_decimal(bits)
}

/// Whether `t` names a primitive integer type of 8 to 128 bits.
pub open spec fn is_integer_name(t: Seq<char>) -> bool {
    exists|signed: bool, bits: nat|
        (bits == 8 || bits == 16 || bits == 32 || bits == 64 || bits == 128) && t
            == #[trigger] integer_type_name(signed, bits)
}

/// The kinds that single type names give: the integers of 8 to 128 bits,
/// signed or not, are integers; `f` and 32 or 64 bits are the floats;
/// `String` is text; every other name is plain.
pub proof fn lemma_kind_names(t: Seq<char>)
    ensures
        kind_named(t) == FieldKind::Integer <==> is_integer_name(t),
        kind_named(t) == FieldKind::Float32 <==> t == "f"@ + spec_decimal(32),
        kind_named(t) == FieldKind::Float64 <==> t == "f"@ + spec_decimal(64),
        kind_named(t) == FieldKind::Text <==> t == "String"@,
{
    reveal_strlit("u");
    reveal_strlit("i");
    reveal_strlit("f");
    reveal_strlit("u8");
    reveal_strlit("u16");
    reveal_strlit("u32");
    reveal_strlit("u64");
    reveal_strlit("u128");
    reveal_strlit("i8");
    reveal_strlit("i16");
    reveal_strlit("i32");
    reveal_strlit("i64");
    reveal_strlit("i128");
    reveal_strlit("f32");
    reveal_strlit("f64");
    reveal_strlit("String");
    reveal_with_fuel(spec_decimal, 4);
    assert(integer_type_name(false, 8) =~= "u8"@);
    assert(integer_type_name(false, 16) =~= "u16"@);
    assert(integer_type_name(false, 32) =~= "u32"@);
    assert(integer_type_name(false, 64) =~= "u64"@);
    assert(integer_type_name(false, 128) =~= "u128"@);
    assert(integer_type_name(true, 8) =~= "i8"@);
    assert(integer_type_name(true, 16) =~= "i16"@);
    assert(integer_type_name(true, 32) =~= "i32"@);
    assert(integer_type_name(true, 64) =~= "i64"@);
    assert(integer_type_name(true, 128) =~= "i128"@);
    assert("f"@ + spec_decimal(32) =~= "f32"@);
    assert("f"@ + spec_decimal(64) =~= "f64"@);
    if is_integer_name(t) {
        let (signed, bits) = choose|signed: bool, bits: nat|
            (bits == 8 || bits == 16 || bits == 32 || bits == 64 || bits == 128) && t
                == #[trigger] integer_type_name(signed, bits);
        assert(kind_named(t) == FieldKind::Integer);
    }
    if kind_named(t) == FieldKind::Integer {
        if t == "u8"@ {
            assert(t == integer_type_name(false, 8));
        } else if t == "u16"@ {
            assert(t == integer_type_name(false, 16));
        } else if t == "u32"@ {
            assert(t == integer_type_name(false, 32));
        } else if t == "u64"@ {
            assert(t == integer_type_name(false, 64));
        } else if t == "u128"@ {
            assert(t == integer_type_name(false, 128));
        } else if t == "i8"@ {
            assert(t == integer_type_name(true, 8));
        } else if t == "i16"@ {
            assert(t == integer_type_name(true, 16));
        } else if t == "i32"@ {
            assert(t == integer_type_name(true, 32));
        } else if t == "i64"@ {
            assert(t == integer_type_name(true, 64));
        } else {
            assert(t == integer_type_name(true, 128));
        }
    }
    assert("f32"@[0] != "u16"@[0] && "f32"@[0] != "i16"@[0]);
    assert("f64"@[1] != "f32"@[1]);
    assert("f64"@[0] != "u64"@[0] && "f64"@[0] != "i64"@[0]);
    assert("f32"@[0] != "u32"@[0] && "f32"@[0] != "i32"@[0]);
    assert("f64"@[0] != "u16"@[0] && "f64"@[0] != "i16"@[0]);
    assert("String"@.len() != "u128"@.len());
}

/// The `#[codec(..)]` settings of one field, with the kind of its type.
#[derive(Clone, Copy, Debug, PartialEq, Eq)]
pub struct FieldSpec {
    pub kind: FieldKind,
    /// `endian = ".."`.
    pub endian: Option<Endian>,
    /// `len = ".."`.
    pub len: Option<LenPrefix>,
    /// `min_len = N`.
    pub min_len: Option<usize>,
    /// `max_len = N`.
    pub max_len: Option<usize>,
    /// `skip`: the field is not on the wire.
    pub skip: bool,
    /// `padding = N`: zero bytes after the field.
    pub padding: usize,
    /// `magic = ..`: the field is a constant checked on decoding.
    pub magic: bool,
    /// `validate = ".."`: a check on the decoded value.
    pub validate: bool,
    /// `with = ".."`: a module with custom `encode` and `decode` functions.
    pub with: bool,
    /// `bits = N`: the field is packed into `N` bits.
    pub bits: Option<u32>,
}

/// How a field's value is read and written.
#[derive(Clone, Copy, Debug, PartialEq, Eq)]
pub enum Read {
    /// Through the type's `Codec` impl.
    Plain,
    /// Through the integer type's `CodecLe` impl.
    LittleEndian,
    /// Through the `with` module's functions.
    Custom,
    /// A `Vec<T>` under the given length rule.
    Sequence(LenRule),
    /// A `Box<[T]>` under the given length rule.
    BoxedSequence(LenRule),
    /// A `String` under the given length rule.
    Text(LenRule),
    /// An `f32` as the bits of a `u32` in the given byte order.
    Float32 { little: bool },
    /// An `f64` as the bits of a `u64` in the given byte order.
    Float64 { little: bool },
}

/// One step of the layout, for one field or for a group of bit fields.
#[derive(Clone, Copy, Debug, PartialEq, Eq)]
pub enum FieldOp {
    /// The field's value on the wire, then `padding` zero bytes.
    Value { field: usize, read: Read, validate: bool, padding: usize },
    /// A skipped field: no bytes of its own, only its `padding`; decoding
    /// gives its default.
    Default { field: usize, padding: usize },
    /// A constant field, then `padding` zero bytes.
    Magic { field: usize, padding: usize },
    /// The `count` bit fields from `first` on, packed into `bytes` bytes.
    Bits { first: usize, count: usize, bytes: usize },
}

/// What is wrong with a field's settings.
#[derive(Clone, Copy, Debug, PartialEq, Eq)]
pub enum FieldProblem {
    /// A length setting on a field that is not a `Vec`, `Box<[T]>` or `String`.
    LenOnNonSequence,
    /// A bit field that is not an integer or has other settings.
    BitsConflict,
    /// A bit field wider than 64 bits.
    BitFieldTooWide,
    /// A group of consecutive bit fields whose byte count does not fit a `usize`.
    BitGroupTooLarge,
}

/// Why no layout can be planned.
#[derive(Clone, Copy, Debug, PartialEq, Eq)]
pub enum PlanError {
    /// A field's settings are wrong; `variant` is the enum variant it is in.
    Field { variant: Option<usize>, field: usize, problem: FieldProblem },
    /// A variant's discriminant does not fit the discriminant type.
    DiscriminantTooLarge { variant_index: usize },
    /// A variant's discriminant is that of an earlier variant.
    DuplicateDiscriminant { variant_index: usize },
}

/// The error of field `i` of a record.
pub open spec fn problem_at(i: int, problem: FieldProblem) -> PlanError {
    PlanError::Field { variant: None, field: i as usize, problem }
}

/// Whether any of `len`, `min_len` and `max_len` is set.
pub open spec fn has_len_settings(f: FieldSpec) -> bool {
    f.len is Some || f.min_len is Some || f.max_len is Some
}

/// Whether the kind is one that carries a length prefix.
pub open spec fn is_sequence(k: FieldKind) -> bool {
    k == FieldKind::Vector || k == FieldKind::BoxedSlice || k == FieldKind::Text
}

/// A field's byte order: its own, else the container's.
pub open spec fn effective_endian(f: FieldSpec, container: Option<Endian>) -> Option<Endian> {
    match f.endian {
        Some(e) => Some(e),
        None => container,
    }
}

/// The length rule of a field: its prefix (`u32` by default) and bounds.
pub open spec fn len_rule_of(f: FieldSpec) -> LenRule {
    LenRule {
        prefix: match f.len {
            Some(p) => p,
            None => LenPrefix::U32,
        },
        min_len: match f.min_len {
            Some(m) => m,
            None => 0,
        },
        max_len: f.max_len,
    }
}

/// How a field that is on the wire is read: `with` first, then its length
/// settings, then its byte order, which only integers and floats have:
/// every other type is read through its own `Codec` impl whatever the order.
pub open spec fn spec_read(f: FieldSpec, container: Option<Endian>) -> Read {
    if f.with {
        Read::Custom
    } else if has_len_settings(f) {
        match f.kind {
            FieldKind::Vector => Read::Sequence(len_rule_of(f)),
            FieldKind::BoxedSlice => Read::BoxedSequence(len_rule_of(f)),
            _ => Read::Text(len_rule_of(f)),
        }
    } else {
        let little = effective_endian(f, container) == Some(Endian::Little);
        match f.kind {
            FieldKind::Float32 => Read::Float32 { little },
            FieldKind::Float64 => Read::Float64 { little },
            FieldKind::Integer => if little {
                Read::LittleEndian
            } else {
                Read::Plain
            },
            _ => Read::Plain,
        }
    }
}

/// The byte order of a field's value, where neither `with` nor a length
/// setting decides its read: an integer or a float is little-endian exactly
/// where the field says `endian = "little"`, or says nothing while its
/// container does, and big-endian otherwise; every other type is read
/// through its own codec.
pub proof fn lemma_read_byte_order(f: FieldSpec, container: Option<Endian>)
    requires
        !f.with,
        f.len is None && f.min_len is None && f.max_len is None,
    ensures
        ({
            let little = f.endian == Some(Endian::Little) || (f.endian is None && container == Some(
                Endian::Little,
            ));
            &&& f.kind == FieldKind::Float32 ==> spec_read(f, container) == (Read::Float32 { little })
            &&& f.kind == FieldKind::Float64 ==> spec_read(f, container) == (Read::Float64 { little })
            &&& f.kind == FieldKind::Integer && little ==> spec_read(f, container)
                == Read::LittleEndian
            &&& f.kind == FieldKind::Integer && !little ==> spec_read(f, container) == Read::Plain
            &&& f.kind != FieldKind::Integer && f.kind != FieldKind::Float32 && f.kind
                != FieldKind::Float64 ==> spec_read(f, container) == Read::Plain
        }),
{
}

/// The read of a field with a custom codec, or with length settings: `with`
/// reads through the custom module whatever else the field says; a `Vec`,
/// `Box<[T]>` or `String` with length settings keeps them, with a `u32`
/// prefix and no minimum where it names none.
pub proof fn lemma_read_settings(f: FieldSpec, container: Option<Endian>)
    ensures
        f.with ==> spec_read(f, container) == Read::Custom,
        !f.with && has_len_settings(f) && f.kind == FieldKind::Vector ==> spec_read(f, container)
            is Sequence,
        !f.with && has_len_settings(f) && f.kind == FieldKind::BoxedSlice ==> spec_read(
            f,
            container,
        ) is BoxedSequence,
        !f.with && has_len_settings(f) && f.kind == FieldKind::Text ==> spec_read(f, container)
            is Text,
        ({
            let r = match spec_read(f, container) {
                Read::Sequence(r) => Some(r),
                Read::BoxedSequence(r) => Some(r),
                Read::Text(r) => Some(r),
                _ => None,
            };
            r matches Some(rule) ==> {
                &&& (f.len matches Some(p) ==> rule.prefix == p)
                &&& (f.len is None ==> rule.prefix == LenPrefix::U32)
                &&& (f.min_len matches Some(m) ==> rule.min_len == m)
                &&& (f.min_len is None ==> rule.min_len == 0)
                &&& rule.max_len == f.max_len
            }
        }),
{
}

/// The step of field `i`, which is not a bit field: `skip` wins over `magic`,
/// which wins over the value's own read.
pub open spec fn spec_field_op(f: FieldSpec, i: int, container: Option<Endian>) -> Result<
    FieldOp,
    PlanError,
> {
    if has_len_settings(f) && !is_sequence(f.kind) {
        Err(problem_at(i, FieldProblem::LenOnNonSequence))
    } else if f.skip {
        Ok(FieldOp::Default { field: i as usize, padding: f.padding })
    } else if f.magic {
        Ok(FieldOp::Magic { field: i as usize, padding: f.padding })
    } else {
        Ok(
            FieldOp::Value {
                field: i as usize,
                read: spec_read(f, container),
                validate: f.validate,
                padding: f.padding,
            },
        )
    }
}

/// Whether a bit field carries anything but its width, or is not an integer.
pub open spec fn bits_conflict(f: FieldSpec) -> bool {
    ||| f.kind != FieldKind::Integer
    ||| f.endian is Some
    ||| has_len_settings(f)
    ||| f.skip
    ||| f.padding != 0
    ||| f.magic
    ||| f.validate
    ||| f.with
}

/// The width of a bit field (0 for any other field).
pub open spec fn bit_width(f: FieldSpec) -> int {
    match f.bits {
        Some(w) => w as int,
        None => 0,
    }
}

/// The end of the run of consecutive bit fields that starts at `i`.
pub open spec fn run_end(fields: Seq<FieldSpec>, i: int) -> int
    decreases fields.len() - i,
{
    if 0 <= i < fields.len() && fields[i].bits is Some {
        run_end(fields, i + 1)
    } else {
        i
    }
}

/// The total width of the fields from `k` to `end`.
pub open spec fn run_width(fields: Seq<FieldSpec>, k: int, end: int) -> int
    decreases end - k,
{
    if k >= end {
        0
    } else {
        bit_width(fields[k]) + run_width(fields, k + 1, end)
    }
}

/// The first problem of the bit fields from `k` to `end`, given the `total`
/// width before `k`: a field with other settings, a field wider than 64
/// bits, or the field at which the group's byte count stops fitting a `usize`.
pub open spec fn run_problem(fields: Seq<FieldSpec>, k: int, end: int, total: int) -> Option<
    PlanError,
>
    decreases end - k,
{
    if k >= end {
        None
    } else if bits_conflict(fields[k]) {
        Some(problem_at(k, FieldProblem::BitsConflict))
    } else if bit_width(fields[k]) > 64 {
        Some(problem_at(k, FieldProblem::BitFieldTooWide))
    } else if total + bit_width(fields[k]) + 7 > usize::MAX {
        Some(problem_at(k, FieldProblem::BitGroupTooLarge))
    } else {
        run_problem(fields, k + 1, end, total + bit_width(fields[k]))
    }
}

/// `ops` followed by the steps of `r`, or the error of `r`.
pub open spec fn prepend<T>(ops: Seq<T>, r: Result<Seq<T>, PlanError>) -> Result<Seq<T>, PlanError> {
    match r {
        Ok(rest) => Ok(ops + rest),
        Err(e) => Err(e),
    }
}

/// A run of bit fields ends within the fields, after its first field.
pub proof fn lemma_run_end(fields: Seq<FieldSpec>, i: int)
    requires
        0 <= i <= fields.len(),
    ensures
        i <= run_end(fields, i) <= fields.len(),
        i < fields.len() && fields[i].bits is Some ==> i < run_end(fields, i),
    decreases fields.len() - i,
{
    if i < fields.len() && fields[i].bits is Some {
        lemma_run_end(fields, i + 1);
    }
}

/// The steps of the fields from `i` on, in declaration order.
pub open spec fn spec_plan_from(fields: Seq<FieldSpec>, i: int, container: Option<Endian>) -> Result<
    Seq<FieldOp>,
    PlanError,
>
    decreases fields.len() - i,
{
    if i < 0 || i >= fields.len() {
        Ok(Seq::empty())
    } else if fields[i].bits is Some {
        let end = run_end(fields, i);
        proof {
            lemma_run_end(fields, i);
        }
        match run_problem(fields, i, end, 0) {
            Some(e) => Err(e),
            None => prepend(
                seq![
                    FieldOp::Bits {
                        first: i as usize,
                        count: (end - i) as usize,
                        bytes: ((run_width(fields, i, end) + 7) / 8) as usize,
                    },
                ],
                spec_plan_from(fields, end, container),
            ),
        }
    } else {
        match spec_field_op(fields[i], i, container) {
            Err(e) => Err(e),
            Ok(op) => prepend(seq![op], spec_plan_from(fields, i + 1, container)),
        }
    }
}

/// The layout of a record's fields under the container's byte order.
pub open spec fn spec_plan_fields(fields: Seq<FieldSpec>, container: Option<Endian>) -> Result<
    Seq<FieldOp>,
    PlanError,
> {
    spec_plan_from(fields, 0, container)
}

proof fn lemma_prepend_push<T>(ops: Seq<T>, more: Seq<T>, r: Result<Seq<T>, PlanError>)
    ensures
        prepend(ops, prepend(more, r)) == prepend(ops + more, r),
{
    if let Ok(rest) = r {
        assert(ops + (more + rest) =~= (ops + more) + rest);
    }
}

fn has_len(f: &FieldSpec) -> (b: bool)
    ensures
        b == has_len_settings(*f),
{
    f.len.is_some() || f.min_len.is_some() || f.max_len.is_some()
}

fn len_rule(f: &FieldSpec) -> (r: LenRule)
    ensures
        r == len_rule_of(*f),
{
    let prefix = match f.len {
        Some(p) => p,
        None => LenPrefix::U32,
    };
    let min_len: usize = match f.min_len {
        Some(m) => m,
        None => 0,
    };
    LenRule { prefix, min_len, max_len: f.max_len }
}

fn read_of(f: &FieldSpec, container: Option<Endian>) -> (r: Read)
    ensures
        r == spec_read(*f, container),
{
    if f.with {
        Read::Custom
    } else if has_len(f) {
        match f.kind {
            FieldKind::Vector => Read::Sequence(len_rule(f)),
            FieldKind::BoxedSlice => Read::BoxedSequence(len_rule(f)),
            _ => Read::Text(len_rule(f)),
        }
    } else {
        let e = match f.endian {
            Some(e) => Some(e),
            None => container,
        };
        let little = match e {
            Some(Endian::Little) => true,
            _ => false,
        };
        match f.kind {
            FieldKind::Float32 => Read::Float32 { little },
            FieldKind::Float64 => Read::Float64 { little },
            FieldKind::Integer => if little {
                Read::LittleEndian
            } else {
                Read::Plain
            },
            _ => Read::Plain,
        }
    }
}

fn field_op(f: &FieldSpec, i: usize, container: Option<Endian>) -> (r: Result<FieldOp, PlanError>)
    ensures
        r == spec_field_op(*f, i as int, container),
{
    let sequence = match f.kind {
        FieldKind::Vector | FieldKind::BoxedSlice | FieldKind::Text => true,
        _ => false,
    };
    if has_len(f) && !sequence {
        Err(PlanError::Field { variant: None, field: i, problem: FieldProblem::LenOnNonSequence })
    } else if f.skip {
        Ok(FieldOp::Default { field: i, padding: f.padding })
    } else if f.magic {
        Ok(FieldOp::Magic { field: i, padding: f.padding })
    } else {
        Ok(
            FieldOp::Value {
                field: i,
                read: read_of(f, container),
                validate: f.validate,
                padding: f.padding,
            },
        )
    }
}

fn conflicts(f: &FieldSpec) -> (b: bool)
    ensures
        b == bits_conflict(*f),
{
    let integer = match f.kind {
        FieldKind::Integer => true,
        _ => false,
    };
    !integer || f.endian.is_some() || has_len(f) || f.skip || f.padding != 0 || f.magic || f.validate
        || f.with
}

/// The end of the run of bit fields that starts at `i`.
fn find_run_end(fields: &[FieldSpec], i: usize) -> (end: usize)
    requires
        i < fields@.len(),
        fields@[i as int].bits is Some,
    ensures
        end == run_end(fields@, i as int),
        i < end <= fields@.len(),
{
    let mut j: usize = i;
    while j < fields.len() && fields[j].bits.is_some()
        invariant
            i <= j <= fields@.len(),
            i < fields@.len(),
            fields@[i as int].bits is Some,
            run_end(fields@, i as int) == run_end(fields@, j as int),
        decreases fields@.len() - j,
    {
        j = j + 1;
    }
    j
}

/// Check the bit fields from `i` to `end`, giving their total width.
fn check_run(fields: &[FieldSpec], i: usize, end: usize) -> (r: Result<usize, PlanError>)
    requires
        i <= end <= fields@.len(),
    ensures
        match r {
            Ok(total) => run_problem(fields@, i as int, end as int, 0) is None && total
                == run_width(fields@, i as int, end as int) && total + 7 <= usize::MAX,
            Err(e) => run_problem(fields@, i as int, end as int, 0) == Some(e),
        },
{
    let mut k: usize = i;
    let mut total: usize = 0;
    while k < end
        invariant
            i <= k <= end <= fields@.len(),
            total + 7 <= usize::MAX,
            run_problem(fields@, i as int, end as int, 0) == run_problem(
                fields@,
                k as int,
                end as int,
                total as int,
            ),
            run_width(fields@, i as int, end as int) == total + run_width(
                fields@,
                k as int,
                end as int,
            ),
        decreases end - k,
    {
        let f = &fields[k];
        if conflicts(f) {
            return Err(PlanError::Field { variant: None, field: k, problem: FieldProblem::BitsConflict });
        }
        let w: u32 = match f.bits {
            Some(w) => w,
            None => 0,
        };
        if w > 64 {
            return Err(
                PlanError::Field { variant: None, field: k, problem: FieldProblem::BitFieldTooWide },
            );
        }
        let w: usize = w as usize;
        if total > usize::MAX - 7 - w {
            return Err(
                PlanError::Field { variant: None, field: k, problem: FieldProblem::BitGroupTooLarge },
            );
        }
        total = total + w;
        k = k + 1;
    }
    Ok(total)
}

/// Plan the layout of a record's fields, in declaration order, under the
/// container's byte order `container`.
pub fn plan_fields(fields: &[FieldSpec], container: Option<Endian>) -> (r: Result<
    Vec<FieldOp>,
    PlanError,
>)
    ensures
        match r {
            Ok(ops) => spec_plan_fields(fields@, container) == Ok::<Seq<FieldOp>, PlanError>(ops@),
            Err(e) => spec_plan_fields(fields@, container) == Err::<Seq<FieldOp>, PlanError>(e),
        },
{
    let mut ops: Vec<FieldOp> = Vec::new();
    let mut i: usize = 0;
    while i < fields.len()
        invariant
            i <= fields@.len(),
            spec_plan_fields(fields@, container) == prepend(
                ops@,
                spec_plan_from(fields@, i as int, container),
            ),
        decreases fields@.len() - i,
    {
        let f = &fields[i];
        if f.bits.is_some() {
            let end = find_run_end(fields, i);
            let total = match check_run(fields, i, end) {
                Ok(t) => t,
                Err(e) => return Err(e),
            };
            let op = FieldOp::Bits { first: i, count: end - i, bytes: (total + 7) / 8 };
            proof {
                lemma_prepend_push(ops@, seq![op], spec_plan_from(fields@, end as int, container));
                assert(ops@.push(op) =~= ops@ + seq![op]);
            }
            ops.push(op);
            i = end;
        } else {
            let op = match field_op(f, i, container) {
                Ok(op) => op,
                Err(e) => return Err(e),
            };
            proof {
                lemma_prepend_push(ops@, seq![op], spec_plan_from(fields@, i + 1, container));
                assert(ops@.push(op) =~= ops@ + seq![op]);
            }
            ops.push(op);
            i = i + 1;
        }
    }
    assert(ops@ + Seq::<FieldOp>::empty() =~= ops@);
    Ok(ops)
}

/// The first field a step covers.
pub open spec fn op_first(op: FieldOp) -> int {
    match op {
        FieldOp::Value { field, .. } => field as int,
        FieldOp::Default { field, .. } => field as int,
        FieldOp::Magic { field, .. } => field as int,
        FieldOp::Bits { first, .. } => first as int,
    }
}

/// The number of fields a step covers.
pub open spec fn op_count(op: FieldOp) -> int {
    match op {
        FieldOp::Bits { count, .. } => count as int,
        _ => 1,
    }
}

/// Whether `ops` cover the fields from `from` to `end` one after another,
/// each field once, in declaration order.
pub open spec fn covers_in_order(ops: Seq<FieldOp>, from: int, end: int) -> bool
    decreases ops.len(),
{
    if ops.len() == 0 {
        from == end
    } else {
        &&& op_first(ops[0]) == from
        &&& op_count(ops[0]) >= 1
        &&& covers_in_order(ops.drop_first(), from + op_count(ops[0]), end)
    }
}

/// Whether a step fits the fields: a bit group takes a whole run of bit
/// fields, each of at most 64 bits, and packs it into the fewest bytes; any
/// other step takes one field that is not a bit field, and a value step
/// validates where its field asks for validation.
pub open spec fn op_fits(fields: Seq<FieldSpec>, op: FieldOp) -> bool {
    match op {
        FieldOp::Bits { first, count, bytes } => {
            let end = first + count;
            &&& end <= fields.len()
            &&& forall|j: int|
                first <= j < end ==> (#[trigger] fields[j]).bits is Some && bit_width(fields[j])
                    <= 64
            &&& (end < fields.len() ==> fields[end].bits is None)
            &&& run_width(fields, first as int, end) + 7 <= usize::MAX
            &&& bytes == (run_width(fields, first as int, end) + 7) / 8
        },
        FieldOp::Value { field, validate, .. } => {
            &&& 0 <= field < fields.len()
            &&& fields[field as int].bits is None
            &&& validate == fields[field as int].validate
        },
        _ => 0 <= op_first(op) < fields.len() && fields[op_first(op)].bits is None,
    }
}

proof fn lemma_run_all_bits(fields: Seq<FieldSpec>, i: int)
    requires
        0 <= i <= fields.len(),
    ensures
        forall|j: int| i <= j < run_end(fields, i) ==> (#[trigger] fields[j]).bits is Some,
        run_end(fields, i) < fields.len() ==> fields[run_end(fields, i)].bits is None,
    decreases fields.len() - i,
{
    if i < fields.len() && fields[i].bits is Some {
        lemma_run_all_bits(fields, i + 1);
    }
}

proof fn lemma_run_width_bound(fields: Seq<FieldSpec>, k: int, end: int, total: int)
    requires
        run_problem(fields, k, end, total) is None,
        0 <= total,
        total + 7 <= usize::MAX,
    ensures
        total + run_width(fields, k, end) + 7 <= usize::MAX,
        run_width(fields, k, end) >= 0,
        forall|j: int| k <= j < end ==> #[trigger] bit_width(fields[j]) <= 64,
    decreases end - k,
{
    if k < end {
        lemma_run_width_bound(fields, k + 1, end, total + bit_width(fields[k]));
    }
}

proof fn lemma_plan_from_in_order(fields: Seq<FieldSpec>, i: int, container: Option<Endian>)
    requires
        0 <= i <= fields.len(),
        fields.len() <= usize::MAX,
    ensures
        spec_plan_from(fields, i, container) matches Ok(ops) ==> {
            &&& covers_in_order(ops, i, fields.len() as int)
            &&& forall|k: int| 0 <= k < ops.len() ==> op_fits(fields, #[trigger] ops[k])
        },
    decreases fields.len() - i,
{
    if i < fields.len() {
        if fields[i].bits is Some {
            let end = run_end(fields, i);
            lemma_run_end(fields, i);
            lemma_run_all_bits(fields, i);
            lemma_plan_from_in_order(fields, end, container);
            if run_problem(fields, i, end, 0) is None {
                lemma_run_width_bound(fields, i, end, 0);
                if let Ok(rest) = spec_plan_from(fields, end, container) {
                    let op = FieldOp::Bits {
                        first: i as usize,
                        count: (end - i) as usize,
                        bytes: ((run_width(fields, i, end) + 7) / 8) as usize,
                    };
                    let ops = seq![op] + rest;
                    assert(ops.drop_first() =~= rest);
                    assert(op_fits(fields, op));
                    assert forall|k: int| 0 <= k < ops.len() implies op_fits(
                        fields,
                        #[trigger] ops[k],
                    ) by {
                        if k > 0 {
                            assert(ops[k] == rest[k - 1]);
                        }
                    }
                }
            }
        } else {
            lemma_plan_from_in_order(fields, i + 1, container);
            if let Ok(op) = spec_field_op(fields[i], i, container) {
                if let Ok(rest) = spec_plan_from(fields, i + 1, container) {
                    let ops = seq![op] + rest;
                    assert(ops.drop_first() =~= rest);
                    assert forall|k: int| 0 <= k < ops.len() implies op_fits(
                        fields,
                        #[trigger] ops[k],
                    ) by {
                        if k > 0 {
                            assert(ops[k] == rest[k - 1]);
                        }
                    }
                }
            }
        }
    }
}

/// A planned layout takes every field once, in declaration order: bit fields
/// in whole runs, each field of at most 64 bits, packed into the fewest
/// bytes; every other field in a step of its own.
pub proof fn lemma_plan_in_order(fields: Seq<FieldSpec>, container: Option<Endian>)
    requires
        fields.len() <= usize::MAX,
    ensures
        spec_plan_fields(fields, container) matches Ok(ops) ==> {
            &&& covers_in_order(ops, 0, fields.len() as int)
            &&& forall|k: int| 0 <= k < ops.len() ==> op_fits(fields, #[trigger] ops[k])
        },
{
    lemma_plan_from_in_order(fields, 0, container);
}

/// The `#[codec(..)]` settings of an enum variant, with those of its fields.
#[derive(Clone, Debug, PartialEq, Eq)]
pub struct VariantSpec {
    /// `#[codec(discriminant = N)]`.
    pub declared: Option<u64>,
    /// The native discriminant `= N`.
    pub native: Option<u64>,
    pub fields: Vec<FieldSpec>,
}

/// A variant's discriminant: its attribute, else its native `= N`, else one
/// more than the previous variant's (0 for the first).
pub open spec fn next_discriminant(v: VariantSpec, prev: Option<int>) -> int {
    match v.declared {
        Some(d) => d as int,
        None => match v.native {
            Some(n) => n as int,
            None => match prev {
                Some(p) => p + 1,
                None => 0,
            },
        },
    }
}

/// The number before the next variant's: the last of `ds`, if any.
pub open spec fn prev_of(ds: Seq<u64>) -> Option<int> {
    if ds.len() == 0 {
        None
    } else {
        Some(ds.last() as int)
    }
}

/// The discriminants of all the variants, given those of the variants before
/// the next, `earlier`; or the error of the first variant whose discriminant
/// exceeds `max` or repeats an earlier one.
pub open spec fn spec_discriminants_from(vs: Seq<VariantSpec>, earlier: Seq<u64>, max: u64) -> Result<
    Seq<u64>,
    PlanError,
>
    decreases vs.len() - earlier.len(),
{
    if earlier.len() >= vs.len() {
        Ok(earlier)
    } else {
        let k = earlier.len() as int;
        let d = next_discriminant(vs[k], prev_of(earlier));
        if d > max {
            Err(PlanError::DiscriminantTooLarge { variant_index: k as usize })
        } else if earlier.contains(d as u64) {
            Err(PlanError::DuplicateDiscriminant { variant_index: k as usize })
        } else {
            spec_discriminants_from(vs, earlier.push(d as u64), max)
        }
    }
}

/// A field's error, marked with the variant `k` it is in.
pub open spec fn in_variant(k: int, e: PlanError) -> PlanError {
    match e {
        PlanError::Field { variant: _, field, problem } => PlanError::Field {
            variant: Some(k as usize),
            field,
            problem,
        },
        other => other,
    }
}

/// The field layouts of the variants from `k` on.
pub open spec fn spec_plan_variants(vs: Seq<VariantSpec>, k: int, container: Option<Endian>) -> Result<
    Seq<Seq<FieldOp>>,
    PlanError,
>
    decreases vs.len() - k,
{
    if k < 0 || k >= vs.len() {
        Ok(Seq::empty())
    } else {
        match spec_plan_fields(vs[k].fields@, container) {
            Err(e) => Err(in_variant(k, e)),
            Ok(ops) => prepend(seq![ops], spec_plan_variants(vs, k + 1, container)),
        }
    }
}

/// The layout of an enum whose discriminant type holds values up to `max`:
/// each variant's discriminant with its fields' layout. The discriminants are
/// checked first, then the fields of each variant in turn.
pub open spec fn spec_plan_enum(vs: Seq<VariantSpec>, max: u64, container: Option<Endian>) -> Result<
    Seq<(u64, Seq<FieldOp>)>,
    PlanError,
> {
    match spec_discriminants_from(vs, Seq::empty(), max) {
        Err(e) => Err(e),
        Ok(ds) => match spec_plan_variants(vs, 0, container) {
            Err(e) => Err(e),
            Ok(ps) => Ok(Seq::new(ds.len(), |k: int| (ds[k], ps[k]))),
        },
    }
}

/// Whether `ds[j]` is the number the rule gives variant `j`: its attribute,
/// else its native `= N`, else one more than `ds[j - 1]` (0 for the first).
pub open spec fn numbered_by_rule(vs: Seq<VariantSpec>, ds: Seq<u64>, j: int) -> bool {
    ds[j] as int == next_discriminant(
        vs[j],
        if j == 0 {
            None
        } else {
            Some(ds[j - 1] as int)
        },
    )
}

/// Whether the numbers `ds` of the first variants follow the rule, are at
/// most `max` and are all different.
pub open spec fn numbered(vs: Seq<VariantSpec>, ds: Seq<u64>, max: u64) -> bool {
    &&& forall|j: int| 0 <= j < ds.len() ==> #[trigger] ds[j] <= max
    &&& forall|j: int| 0 <= j < ds.len() ==> #[trigger] numbered_by_rule(vs, ds, j)
    &&& forall|i: int, j: int| 0 <= i < j < ds.len() ==> ds[i] != ds[j]
}

proof fn lemma_discriminants_from(vs: Seq<VariantSpec>, earlier: Seq<u64>, max: u64)
    requires
        earlier.len() <= vs.len(),
        numbered(vs, earlier, max),
    ensures
        spec_discriminants_from(vs, earlier, max) matches Ok(ds) ==> ds.len() == vs.len()
            && numbered(vs, ds, max),
    decreases vs.len() - earlier.len(),
{
    if earlier.len() < vs.len() {
        let k = earlier.len() as int;
        let d = next_discriminant(vs[k], prev_of(earlier));
        if d <= max && !earlier.contains(d as u64) {
            let next = earlier.push(d as u64);
            assert forall|j: int| 0 <= j < next.len() implies #[trigger] next[j] <= max by {
                if j < k {
                    assert(next[j] == earlier[j]);
                }
            }
            assert forall|j: int| 0 <= j < next.len() implies #[trigger] numbered_by_rule(
                vs,
                next,
                j,
            ) by {
                if j < k {
                    assert(numbered_by_rule(vs, earlier, j));
                    assert(next[j] == earlier[j]);
                    if j > 0 {
                        assert(next[j - 1] == earlier[j - 1]);
                    }
                } else if k > 0 {
                    assert(next[j - 1] == earlier[k - 1]);
                }
            }
            assert forall|i: int, j: int| 0 <= i < j < next.len() implies next[i] != next[j] by {
                if j == k {
                    assert(next[i] == earlier[i]);
                    if next[i] == next[j] {
                        assert(earlier.contains(d as u64));
                    }
                } else {
                    assert(next[i] == earlier[i]);
                    assert(next[j] == earlier[j]);
                }
            }
            lemma_discriminants_from(vs, next, max);
        }
    }
}

proof fn lemma_plan_variants(vs: Seq<VariantSpec>, k: int, container: Option<Endian>)
    requires
        0 <= k <= vs.len(),
    ensures
        spec_plan_variants(vs, k, container) matches Ok(ps) ==> {
            &&& ps.len() == vs.len() - k
            &&& forall|j: int|
                0 <= j < ps.len() ==> spec_plan_fields(vs[k + j].fields@, container) == Ok::<
                    Seq<FieldOp>,
                    PlanError,
                >(#[trigger] ps[j])
        },
    decreases vs.len() - k,
{
    if k < vs.len() {
        lemma_plan_variants(vs, k + 1, container);
        if let Ok(ops) = spec_plan_fields(vs[k].fields@, container) {
            if let Ok(rest) = spec_plan_variants(vs, k + 1, container) {
                let ps = seq![ops] + rest;
                assert forall|j: int| 0 <= j < ps.len() implies spec_plan_fields(
                    vs[k + j].fields@,
                    container,
                ) == Ok::<Seq<FieldOp>, PlanError>(#[trigger] ps[j]) by {
                    if j > 0 {
                        assert(ps[j] == rest[j - 1]);
                    }
                }
            }
        }
    }
}

/// A planned enum has one entry per variant, in declaration order: the
/// variant's attribute discriminant, else its native `= N`, else one more
/// than the previous variant's (0 for the first), never above `max` and
/// different from every other variant's, with the variant's own field layout.
pub proof fn lemma_enum_plan(vs: Seq<VariantSpec>, max: u64, container: Option<Endian>)
    ensures
        spec_plan_enum(vs, max, container) matches Ok(out) ==> {
            &&& out.len() == vs.len()
            &&& forall|k: int|
                0 <= k < out.len() ==> {
                    &&& (#[trigger] out[k]).0 <= max
                    &&& out[k].0 as int == next_discriminant(
                        vs[k],
                        if k == 0 {
                            None
                        } else {
                            Some(out[k - 1].0 as int)
                        },
                    )
                    &&& spec_plan_fields(vs[k].fields@, container) == Ok::<Seq<FieldOp>, PlanError>(
                        out[k].1,
                    )
                }
            &&& forall|i: int, j: int| 0 <= i < j < out.len() ==> out[i].0 != out[j].0
        },
{
    lemma_discriminants_from(vs, Seq::empty(), max);
    lemma_plan_variants(vs, 0, container);
    if let Ok(ds) = spec_discriminants_from(vs, Seq::empty(), max) {
        if let Ok(ps) = spec_plan_variants(vs, 0, container) {
            let out = Seq::new(ds.len(), |k: int| (ds[k], ps[k]));
            assert forall|k: int| 0 <= k < out.len() implies {
                &&& (#[trigger] out[k]).0 <= max
                &&& out[k].0 as int == next_discriminant(
                    vs[k],
                    if k == 0 {
                        None
                    } else {
                        Some(out[k - 1].0 as int)
                    },
                )
                &&& spec_plan_fields(vs[k].fields@, container) == Ok::<Seq<FieldOp>, PlanError>(
                    out[k].1,
                )
            } by {
                assert(numbered_by_rule(vs, ds, k));
                assert(ds[k] <= max);
                assert(ps[k] == out[k].1);
            }
            assert forall|i: int, j: int| 0 <= i < j < out.len() implies out[i].0 != out[j].0 by {
                assert(out[i].0 == ds[i]);
                assert(out[j].0 == ds[j]);
            }
        }
    }
}

fn contains_number(ds: &Vec<u64>, d: u64) -> (b: bool)
    ensures
        b == ds@.contains(d),
{
    let mut j: usize = 0;
    while j < ds.len()
        invariant
            j <= ds@.len(),
            forall|i: int| 0 <= i < j ==> ds@[i] != d,
        decreases ds@.len() - j,
    {
        if ds[j] == d {
            return true;
        }
        j = j + 1;
    }
    false
}

/// Number the variants of an enum whose discriminant type holds values up to
/// `max`, refusing a number that does not fit or that repeats an earlier one.
pub fn plan_discriminants(variants: &[VariantSpec], max: u64) -> (r: Result<Vec<u64>, PlanError>)
    ensures
        match r {
            Ok(ds) => spec_discriminants_from(variants@, Seq::empty(), max) == Ok::<
                Seq<u64>,
                PlanError,
            >(ds@) && ds@.len() == variants@.len(),
            Err(e) => spec_discriminants_from(variants@, Seq::empty(), max) == Err::<
                Seq<u64>,
                PlanError,
            >(e),
        },
{
    let mut ds: Vec<u64> = Vec::new();
    let mut k: usize = 0;
    while k < variants.len()
        invariant
            k <= variants@.len(),
            ds@.len() == k,
            forall|j: int| 0 <= j < k ==> ds@[j] <= max,
            spec_discriminants_from(variants@, Seq::empty(), max) == spec_discriminants_from(
                variants@,
                ds@,
                max,
            ),
        decreases variants@.len() - k,
    {
        let v = &variants[k];
        let d: u64 = match v.declared {
            Some(d) => d,
            None => match v.native {
                Some(n) => n,
                None => if k == 0 {
                    0
                } else {
                    let p = ds[k - 1];
                    if p >= max {
                        return Err(PlanError::DiscriminantTooLarge { variant_index: k });
                    }
                    p + 1
                },
            },
        };
        if d > max {
            return Err(PlanError::DiscriminantTooLarge { variant_index: k });
        }
        if contains_number(&ds, d) {
            return Err(PlanError::DuplicateDiscriminant { variant_index: k });
        }
        ds.push(d);
        k = k + 1;
    }
    Ok(ds)
}

/// The field layouts of the variants, as a sequence of sequences.
pub open spec fn layouts_of(out: Seq<(u64, Vec<FieldOp>)>) -> Seq<Seq<FieldOp>> {
    Seq::new(out.len(), |j: int| out[j].1@)
}

/// Plan the layout of an enum whose discriminant type holds values up to
/// `max`, under the container's byte order `container`: each variant's
/// discriminant, in declaration order, with the layout of its fields.
pub fn plan_enum(variants: &[VariantSpec], max: u64, container: Option<Endian>) -> (r: Result<
    Vec<(u64, Vec<FieldOp>)>,
    PlanError,
>)
    ensures
        match r {
            Ok(out) => spec_plan_enum(variants@, max, container) == Ok::<
                Seq<(u64, Seq<FieldOp>)>,
                PlanError,
            >(Seq::new(out@.len(), |k: int| (out@[k].0, out@[k].1@))),
            Err(e) => spec_plan_enum(variants@, max, container) == Err::<
                Seq<(u64, Seq<FieldOp>)>,
                PlanError,
            >(e),
        },
        r matches Ok(out) ==> forall|i: int, j: int|
            0 <= i < j < out@.len() ==> out@[i].0 != out@[j].0,
{
    let ds = match plan_discriminants(variants, max) {
        Ok(ds) => ds,
        Err(e) => return Err(e),
    };
    let mut out: Vec<(u64, Vec<FieldOp>)> = Vec::new();
    let mut k: usize = 0;
    while k < variants.len()
        invariant
            k <= variants@.len(),
            ds@.len() == variants@.len(),
            spec_discriminants_from(variants@, Seq::empty(), max) == Ok::<Seq<u64>, PlanError>(ds@),
            out@.len() == k,
            forall|j: int| 0 <= j < k ==> (#[trigger] out@[j]).0 == ds@[j],
            spec_plan_variants(variants@, 0, container) == prepend(
                layouts_of(out@),
                spec_plan_variants(variants@, k as int, container),
            ),
        decreases variants@.len() - k,
    {
        let fields = variants[k].fields.as_slice();
        assert(fields@ == variants@[k as int].fields@);
        let ops = match plan_fields(fields, container) {
            Ok(ops) => ops,
            Err(e) => {
                assert(spec_plan_variants(variants@, k as int, container) == Err::<
                    Seq<Seq<FieldOp>>,
                    PlanError,
                >(in_variant(k as int, e)));
                let marked = match e {
                    PlanError::Field { variant: _, field, problem } => PlanError::Field {
                        variant: Some(k),
                        field,
                        problem,
                    },
                    other => other,
                };
                return Err(marked);
            },
        };
        let ghost layout = ops@;
        proof {
            lemma_prepend_push(
                layouts_of(out@),
                seq![layout],
                spec_plan_variants(variants@, k + 1, container),
            );
        }
        let ghost before = out@;
        out.push((ds[k], ops));
        assert(layouts_of(out@) =~= layouts_of(before) + seq![layout]);
        k = k + 1;
    }
    proof {
        assert(layouts_of(out@) + Seq::<Seq<FieldOp>>::empty() =~= layouts_of(out@));
        assert(Seq::new(out@.len(), |j: int| (out@[j].0, out@[j].1@)) =~= Seq::new(
            ds@.len(),
            |j: int| (ds@[j], layouts_of(out@)[j]),
        ));
    }
    proof {
        lemma_enum_plan(variants@, max, container);
        let v = Seq::new(out@.len(), |k: int| (out@[k].0, out@[k].1@));
        assert forall|i: int, j: int| 0 <= i < j < out@.len() implies out@[i].0 != out@[j].0 by {
            assert(v[i].0 == out@[i].0 && v[j].0 == out@[j].0);
        }
    }
    Ok(out)
}

/// The text of an optional string.
pub open spec fn opt_text(s: Option<&str>) -> Option<Seq<char>> {
    match s {
        Some(t) => Some(t@),
        None => None,
    }
}

/// The name a field's errors carry: the field's name, or its position for
/// a tuple field, after `Variant::` for a field of an enum variant.
pub open spec fn spec_label(variant: Option<Seq<char>>, name: Option<Seq<char>>, index: nat) -> Seq<
    char,
> {
    let base = match name {
        Some(n) => n,
        None => spec_decimal(index),
    };
    match variant {
        Some(v) => v + "::"@ + base,
        None => base,
    }
}

/// The name a field's errors carry: `name`, or `index` for a tuple field,
/// after `variant::` for a field of an enum variant.
pub fn field_label(variant: Option<&str>, name: Option<&str>, index: usize) -> (s: String)
    ensures
        s@ == spec_label(opt_text(variant), opt_text(name), index as nat),
{
    let mut s = String::new();
    match variant {
        Some(v) => {
            s.append(v);
            s.append("::");
        },
        None => {},
    }
    match name {
        Some(n) => s.append(n),
        None => {
            let d = decimal_usize(index);
            s.append(d.as_str());
        },
    }
    assert(s@ =~= spec_label(opt_text(variant), opt_text(name), index as nat));
    s
}

} // verus!
