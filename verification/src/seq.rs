//! Length-prefixed data: the prefix itself, sequences of encoded elements,
//! and UTF-8 text, each under a `LenRule`.
use crate::codec::{
    codec_consumes_prefix, codec_roundtrips, is_suffix, lemma_suffix_trans, not_enough, read_uint,
    write_uint, Codec, MAX_DECODE_LEN,
};
use crate::error::CodecError;
use crate::text::{spec_decimal, text_eq};
use crate::model::{big_endian_bytes, lemma_be_bytes_order, be_bytes, be_value, lemma_pow256_values, lemma_uint_roundtrip, pow256, Value};
use vstd::prelude::*;
use vstd::utf8::{decode_utf8, encode_utf8, valid_utf8};

verus! {

/// The unsigned integer type of a length prefix or an enum discriminant;
/// both are written big-endian.
#[derive(Clone, Copy, Debug, PartialEq, Eq)]
pub enum LenPrefix {
    U8,
    U16,
    U32,
    U64,
}

/// The integer type that the text `t` names.
pub open spec fn prefix_named(t: Seq<char>) -> Option<LenPrefix> {
    if t == "u8"@ {
        Some(LenPrefix::U8)
    } else if t == "u16"@ {
        Some(LenPrefix::U16)
    } else if t == "u32"@ {
        Some(LenPrefix::U32)
    } else if t == "u64"@ {
        Some(LenPrefix::U64)
    } else {
        None
    }
}

/// A length prefix writes the count most significant byte first, in as
/// many bytes as its type is wide.
pub proof fn lemma_prefix_byte_order(n: nat, prefix: LenPrefix)
    ensures
        big_endian_bytes(spec_encode_len(n, prefix), n, prefix.spec_width()),
{
    lemma_be_bytes_order(n, prefix.spec_width());
}

/// The name of the unsigned integer type of `bits` bits: `u` and the number.
pub open spec fn unsigned_type_name(bits: nat) -> Seq<char> {
    "u"@ + spec_decimal(bits)
}

/// The names of the prefix types: each name is that of the unsigned integer
/// type as wide as the prefix, and each prefix is named by it.
pub proof fn lemma_prefix_names()
    ensures
        forall|p: LenPrefix| #[trigger] prefix_named(unsigned_type_name(8 * p.spec_width())) == Some(p),
        forall|t: Seq<char>|
            #[trigger] prefix_named(t) matches Some(p) ==> t == unsigned_type_name(8 * p.spec_width()),
{
    reveal_strlit("u");
    reveal_strlit("u8");
    reveal_strlit("u16");
    reveal_strlit("u32");
    reveal_strlit("u64");
    reveal_with_fuel(spec_decimal, 3);
    assert(unsigned_type_name(8) =~= "u8"@);
    assert(unsigned_type_name(16) =~= "u16"@);
    assert(unsigned_type_name(32) =~= "u32"@);
    assert(unsigned_type_name(64) =~= "u64"@);
    assert("u16"@[1] != "u8"@[1]);
    assert("u32"@[1] != "u16"@[1]);
    assert("u64"@[1] != "u16"@[1] && "u64"@[1] != "u32"@[1]);
    assert forall|p: LenPrefix| #[trigger] prefix_named(unsigned_type_name(8 * p.spec_width()))
        == Some(p) by {
        match p {
            LenPrefix::U8 => assert(8 * p.spec_width() == 8),
            LenPrefix::U16 => assert(8 * p.spec_width() == 16),
            LenPrefix::U32 => assert(8 * p.spec_width() == 32),
            LenPrefix::U64 => assert(8 * p.spec_width() == 64),
        }
    }
}

impl LenPrefix {
    /// The number of bytes the prefix takes.
    pub open spec fn spec_width(self) -> nat {
        match self {
            LenPrefix::U8 => 1,
            LenPrefix::U16 => 2,
            LenPrefix::U32 => 4,
            LenPrefix::U64 => 8,
        }
    }

    /// The number of bytes the prefix takes.
    pub fn width(&self) -> (w: usize)
        ensures
            w == self.spec_width(),
    {
        match self {
            LenPrefix::U8 => 1,
            LenPrefix::U16 => 2,
            LenPrefix::U32 => 4,
            LenPrefix::U64 => 8,
        }
    }

    /// The integer type named `"u8"`, `"u16"`, `"u32"` or `"u64"`; `None` for
    /// any other text.
    pub fn parse(s: &str) -> (r: Option<LenPrefix>)
        ensures
            r == prefix_named(s@),
    {
        if text_eq(s, "u8") {
            Some(LenPrefix::U8)
        } else if text_eq(s, "u16") {
            Some(LenPrefix::U16)
        } else if text_eq(s, "u32") {
            Some(LenPrefix::U32)
        } else if text_eq(s, "u64") {
            Some(LenPrefix::U64)
        } else {
            None
        }
    }

    /// The largest value the prefix's integer type holds.
    pub fn max_value(&self) -> (m: u64)
        ensures
            m as int == pow256(self.spec_width()) - 1,
    {
        proof {
            lemma_pow256_values();
        }
        match self {
            LenPrefix::U8 => 0xFF,
            LenPrefix::U16 => 0xFFFF,
            LenPrefix::U32 => 0xFFFF_FFFF,
            LenPrefix::U64 => 0xFFFF_FFFF_FFFF_FFFF,
        }
    }
}

/// How a length-prefixed field is laid out and which lengths it accepts.
#[derive(Clone, Copy, Debug, PartialEq, Eq)]
pub struct LenRule {
    /// The integer type of the prefix.
    pub prefix: LenPrefix,
    /// The smallest accepted length.
    pub min_len: usize,
    /// The largest accepted length, if any.
    pub max_len: Option<usize>,
}

/// The rule of plain `Vec`, `String` and `Box<[T]>` fields: a `u32` prefix, any length.
pub open spec fn standard_rule() -> LenRule {
    LenRule { prefix: LenPrefix::U32, min_len: 0, max_len: None }
}

impl LenRule {
    /// The rule of plain `Vec`, `String` and `Box<[T]>` fields: a `u32` prefix, any length.
    pub fn standard() -> (r: LenRule)
        ensures
            r == standard_rule(),
    {
        LenRule { prefix: LenPrefix::U32, min_len: 0, max_len: None }
    }

    /// A rule with the given prefix that accepts any length.
    pub fn with_prefix(prefix: LenPrefix) -> (r: LenRule)
        ensures
            r == (LenRule { prefix, min_len: 0, max_len: None }),
    {
        LenRule { prefix, min_len: 0, max_len: None }
    }

    /// Whether a length of `n` elements or bytes is accepted on decoding.
    pub open spec fn admits(self, n: nat) -> bool {
        &&& n <= MAX_DECODE_LEN
        &&& n < pow256(self.prefix.spec_width())
        &&& self.min_len <= n
        &&& (self.max_len matches Some(m) ==> n <= m)
    }
}

/// What reading a length prefix under `rule` from `input` yields: the length
/// and the bytes after the prefix, or the error.
///
/// The allocation limit is checked first, then the declared minimum and maximum.
pub open spec fn spec_decode_len(input: Seq<u8>, rule: LenRule) -> Result<
    (nat, Seq<u8>),
    CodecError,
> {
    let w = rule.prefix.spec_width();
    if input.len() < w {
        Err(not_enough(w, input.len()))
    } else {
        let n = be_value(input.take(w as int));
        if n > MAX_DECODE_LEN {
            Err(CodecError::AllocationTooLarge { len: n as u64, max: MAX_DECODE_LEN })
        } else if n < rule.min_len {
            Err(CodecError::TooShort { min: rule.min_len, actual: n as usize })
        } else if rule.max_len is Some && n > rule.max_len->0 {
            Err(CodecError::TooLong { max: rule.max_len->0, actual: n as usize })
        } else {
            Ok((n, input.skip(w as int)))
        }
    }
}

/// The bytes of the length prefix for a length `n` (its low-order bytes where it does not fit).
pub open spec fn spec_encode_len(n: nat, prefix: LenPrefix) -> Seq<u8> {
    be_bytes(n, prefix.spec_width())
}

/// Read a length prefix under `rule` from the front of `input`.
pub fn decode_len<'a>(input: &'a [u8], rule: &LenRule) -> (r: Result<(usize, &'a [u8]), CodecError>)
    ensures
        match r {
            Ok((n, rest)) => spec_decode_len(input@, *rule) == Ok::<(nat, Seq<u8>), CodecError>(
                (n as nat, rest@),
            ),
            Err(e) => spec_decode_len(input@, *rule) == Err::<(nat, Seq<u8>), CodecError>(e),
        },
{
    let w = rule.prefix.width();
    proof {
        lemma_pow256_values();
    }
    let (n, rest) = match read_uint(input, w, false) {
        Ok(p) => p,
        Err(e) => return Err(e),
    };
    if n > MAX_DECODE_LEN as u128 {
        return Err(CodecError::AllocationTooLarge { len: n as u64, max: MAX_DECODE_LEN });
    }
    let n = n as usize;
    if n < rule.min_len {
        return Err(CodecError::TooShort { min: rule.min_len, actual: n });
    }
    match rule.max_len {
        Some(m) => {
            if n > m {
                return Err(CodecError::TooLong { max: m, actual: n });
            }
        },
        None => {},
    }
    Ok((n, rest))
}

/// Append the length prefix for `n`.
pub fn encode_len(buf: &mut Vec<u8>, n: usize, prefix: LenPrefix)
    ensures
        final(buf)@ == old(buf)@ + spec_encode_len(n as nat, prefix),
{
    write_uint(buf, n as u128, prefix.width(), false)
}

/// The abstract values of a sequence of data.
pub open spec fn values_of<T: Codec>(s: Seq<T>) -> Seq<Value> {
    s.map_values(|x: T| x.spec_value())
}

/// What decoding `count` elements one after another from `input` yields.
pub open spec fn decode_items<T: Codec>(input: Seq<u8>, count: nat) -> Result<
    (Seq<Value>, Seq<u8>),
    CodecError,
>
    decreases count,
{
    if count == 0 {
        Ok((Seq::empty(), input))
    } else {
        match decode_items::<T>(input, (count - 1) as nat) {
            Ok((vs, rest)) => match T::spec_decode(rest) {
                Ok((v, rest2)) => Ok((vs.push(v), rest2)),
                Err(e) => Err(e),
            },
            Err(e) => Err(e),
        }
    }
}

/// The encodings of the elements of `s`, one after another.
pub open spec fn encode_items<T: Codec>(s: Seq<T>) -> Seq<u8>
    decreases s.len(),
{
    if s.len() == 0 {
        Seq::empty()
    } else {
        encode_items(s.drop_last()) + s.last().spec_encode()
    }
}

/// What decoding a length-prefixed sequence of `T` under `rule` yields.
pub open spec fn spec_decode_seq<T: Codec>(input: Seq<u8>, rule: LenRule) -> Result<
    (Value, Seq<u8>),
    CodecError,
> {
    match spec_decode_len(input, rule) {
        Ok((n, rest)) => match decode_items::<T>(rest, n) {
            Ok((vs, rest2)) => Ok((Value::List(vs), rest2)),
            Err(e) => Err(e),
        },
        Err(e) => Err(e),
    }
}

/// The encoding of the sequence `s` with a length prefix.
pub open spec fn spec_encode_seq<T: Codec>(s: Seq<T>, prefix: LenPrefix) -> Seq<u8> {
    spec_encode_len(s.len(), prefix) + encode_items(s)
}

/// Once decoding the elements fails, decoding more of them fails the same way.
pub proof fn lemma_decode_items_error_persists<T: Codec>(input: Seq<u8>, k: nat, m: nat)
    requires
        k <= m,
        decode_items::<T>(input, k) is Err,
    ensures
        decode_items::<T>(input, m) == decode_items::<T>(input, k),
    decreases m,
{
    if k < m {
        lemma_decode_items_error_persists::<T>(input, k, (m - 1) as nat);
    }
}

/// A successful read of a length prefix leaves what follows the prefix.
pub proof fn lemma_decode_len_suffix(input: Seq<u8>, rule: LenRule)
    ensures
        spec_decode_len(input, rule) matches Ok((_, rest)) ==> is_suffix(rest, input),
{
}

/// Decoding elements of a type that obeys the prefix law consumes a prefix.
pub proof fn lemma_decode_items_suffix<T: Codec>(input: Seq<u8>, count: nat)
    requires
        codec_consumes_prefix::<T>(),
    ensures
        decode_items::<T>(input, count) matches Ok((_, rest)) ==> is_suffix(rest, input),
    decreases count,
{
    if count > 0 {
        lemma_decode_items_suffix::<T>(input, (count - 1) as nat);
        match decode_items::<T>(input, (count - 1) as nat) {
            Ok((vs, rest)) => {
                if let Ok((v, rest2)) = T::spec_decode(rest) {
                    lemma_suffix_trans(rest2, rest, input);
                }
            },
            Err(_) => {},
        }
    } else {
        assert(input.skip(0) =~= input);
    }
}

/// Decoding a length-prefixed sequence of a type that obeys the prefix law consumes a prefix.
pub proof fn lemma_decode_seq_suffix<T: Codec>(input: Seq<u8>, rule: LenRule)
    requires
        codec_consumes_prefix::<T>(),
    ensures
        spec_decode_seq::<T>(input, rule) matches Ok((_, rest)) ==> is_suffix(rest, input),
{
    if let Ok((n, rest)) = spec_decode_len(input, rule) {
        lemma_decode_items_suffix::<T>(rest, n);
        if let Ok((vs, rest2)) = decode_items::<T>(rest, n) {
            lemma_suffix_trans(rest2, rest, input);
        }
    }
}

/// Decoding length-prefixed text consumes a prefix.
pub proof fn lemma_decode_text_suffix(input: Seq<u8>, rule: LenRule)
    ensures
        spec_decode_text(input, rule) matches Ok((_, rest)) ==> is_suffix(rest, input),
{
    if let Ok((n, rest)) = spec_decode_len(input, rule) {
        if rest.len() >= n {
            lemma_suffix_trans(rest.skip(n as int), rest, input);
        }
    }
}

/// Decode `count` elements one after another from the front of `input`.
pub fn decode_elements<'a, T: Codec>(input: &'a [u8], count: usize) -> (r: Result<
    (Vec<T>, &'a [u8]),
    CodecError,
>)
    ensures
        T::obeys_codec_spec() ==> match r {
            Ok((v, rest)) => decode_items::<T>(input@, count as nat) == Ok::<
                (Seq<Value>, Seq<u8>),
                CodecError,
            >((values_of(v@), rest@)),
            Err(e) => decode_items::<T>(input@, count as nat) == Err::<
                (Seq<Value>, Seq<u8>),
                CodecError,
            >(e),
        },
        r matches Ok((v, _)) ==> v@.len() == count,
        count == 0 ==> (r matches Ok((v, rest)) && rest@ == input@),
{
    let mut rest = input;
    let mut items: Vec<T> = Vec::with_capacity(count);
    let mut i: usize = 0;
    assert(values_of(items@) =~= Seq::<Value>::empty());
    while i < count
        invariant
            i <= count,
            items@.len() == i,
            i == 0 ==> rest@ == input@,
            T::obeys_codec_spec() ==> decode_items::<T>(input@, i as nat) == Ok::<
                (Seq<Value>, Seq<u8>),
                CodecError,
            >((values_of(items@), rest@)),
        decreases count - i,
    {
        match T::decode(rest) {
            Ok((item, remaining)) => {
                let ghost before = items@;
                items.push(item);
                rest = remaining;
                proof {
                    assert(values_of(items@) =~= values_of(before).push(item.spec_value()));
                }
            },
            Err(e) => {
                proof {
                    if T::obeys_codec_spec() {
                        lemma_decode_items_error_persists::<T>(input@, (i + 1) as nat, count as nat);
                    }
                }
                return Err(e);
            },
        }
        i = i + 1;
    }
    Ok((items, rest))
}

/// What decoding a length-prefixed sequence gives, whatever the element
/// type: the prefix's error where the prefix is refused, the empty sequence
/// and the bytes after the prefix where it counts no element, and otherwise,
/// on success, as many elements as it counts.
pub open spec fn seq_frame<T>(input: Seq<u8>, rule: LenRule, r: Result<(Seq<T>, Seq<u8>), CodecError>) -> bool {
    match spec_decode_len(input, rule) {
        Err(e) => r == Err::<(Seq<T>, Seq<u8>), CodecError>(e),
        Ok((n, after)) => {
            &&& (n == 0 ==> r == Ok::<(Seq<T>, Seq<u8>), CodecError>((Seq::empty(), after)))
            &&& (r matches Ok((v, _)) ==> v.len() == n)
        },
    }
}

/// The elements and remaining bytes of a decoded sequence, or its error.
pub open spec fn list_view<T>(r: Result<(Vec<T>, &[u8]), CodecError>) -> Result<(Seq<T>, Seq<u8>), CodecError> {
    match r {
        Ok((v, rest)) => Ok((v@, rest@)),
        Err(e) => Err(e),
    }
}

/// Decode a length-prefixed sequence of `T` under `rule` from the front of `input`.
pub fn decode_seq<'a, T: Codec>(input: &'a [u8], rule: &LenRule) -> (r: Result<
    (Vec<T>, &'a [u8]),
    CodecError,
>)
    ensures
        seq_frame(input@, *rule, list_view(r)),
        T::obeys_codec_spec() ==> match r {
            Ok((v, rest)) => spec_decode_seq::<T>(input@, *rule) == Ok::<
                (Value, Seq<u8>),
                CodecError,
            >((Value::List(values_of(v@)), rest@)),
            Err(e) => spec_decode_seq::<T>(input@, *rule) == Err::<(Value, Seq<u8>), CodecError>(e),
        },
{
    let (n, rest) = match decode_len(input, rule) {
        Ok(p) => p,
        Err(e) => return Err(e),
    };
    let r = decode_elements(rest, n);
    proof {
        if n == 0 && r is Ok {
            assert(r->Ok_0.0@ =~= Seq::<T>::empty());
        }
    }
    r
}

/// Append the encodings of the elements of `items`, one after another.
pub fn encode_elements<T: Codec>(items: &[T], buf: &mut Vec<u8>)
    ensures
        T::obeys_codec_spec() ==> final(buf)@ == old(buf)@ + encode_items(items@),
        items@.len() == 0 ==> final(buf)@ == old(buf)@,
{
    let ghost start = buf@;
    let mut i: usize = 0;
    while i < items.len()
        invariant
            i <= items@.len(),
            T::obeys_codec_spec() ==> buf@ == start + encode_items(items@.take(i as int)),
            items@.len() == 0 ==> buf@ == start,
        decreases items@.len() - i,
    {
        items[i].encode(buf);
        proof {
            assert(items@.take(i + 1).drop_last() =~= items@.take(i as int));
            assert(items@.take(i + 1).last() == items@[i as int]);
            if T::obeys_codec_spec() {
                assert(buf@ =~= start + encode_items(items@.take(i + 1)));
            }
        }
        i = i + 1;
    }
    assert(items@.take(items@.len() as int) =~= items@);
}

/// Append a length prefix and the encodings of the elements of `items`.
pub fn encode_seq<T: Codec>(items: &[T], prefix: LenPrefix, buf: &mut Vec<u8>)
    ensures
        T::obeys_codec_spec() ==> final(buf)@ == old(buf)@ + spec_encode_seq(items@, prefix),
        items@.len() == 0 ==> final(buf)@ == old(buf)@ + spec_encode_len(0, prefix),
{
    let ghost start = buf@;
    encode_len(buf, items.len(), prefix);
    encode_elements(items, buf);
    assert(T::obeys_codec_spec() ==> buf@ =~= start + spec_encode_seq(items@, prefix));
}

/// Reading back the prefix written for an admitted length gives that length.
pub proof fn lemma_len_roundtrip(n: nat, rule: LenRule, rest: Seq<u8>)
    requires
        rule.admits(n),
    ensures
        spec_decode_len(spec_encode_len(n, rule.prefix) + rest, rule) == Ok::<
            (nat, Seq<u8>),
            CodecError,
        >((n, rest)),
{
    let w = rule.prefix.spec_width();
    lemma_uint_roundtrip(n, w, false);
    let b = spec_encode_len(n, rule.prefix);
    assert((b + rest).take(w as int) =~= b);
    assert((b + rest).skip(w as int) =~= rest);
}

/// Decoding the encodings of elements, followed by any bytes, gives back
/// their values and exactly those bytes, where the element type obeys the
/// roundtrip law and each element is encodable.
pub proof fn lemma_items_roundtrip<T: Codec>(s: Seq<T>, rest: Seq<u8>)
    requires
        codec_roundtrips::<T>(),
        forall|i: int| 0 <= i < s.len() ==> #[trigger] s[i].encodable(),
    ensures
        decode_items::<T>(encode_items(s) + rest, s.len()) == Ok::<
            (Seq<Value>, Seq<u8>),
            CodecError,
        >((values_of(s), rest)),
    decreases s.len(),
{
    if s.len() > 0 {
        let init = s.drop_last();
        let x = s.last();
        let tail = x.spec_encode() + rest;
        assert(encode_items(s) + rest =~= encode_items(init) + tail);
        lemma_items_roundtrip::<T>(init, tail);
        assert(x.encodable()) by {
            assert(s[s.len() - 1].encodable());
        }
        assert(T::spec_decode(x.spec_encode() + rest) == Ok::<(Value, Seq<u8>), CodecError>(
            (x.spec_value(), rest),
        ));
        assert(values_of(init).push(x.spec_value()) =~= values_of(s));
    } else {
        assert(values_of(s) =~= Seq::<Value>::empty());
        assert(encode_items(s) + rest =~= rest);
    }
}

/// Roundtrip of a length-prefixed sequence whose length the rule admits.
pub proof fn lemma_seq_roundtrip<T: Codec>(s: Seq<T>, rule: LenRule, rest: Seq<u8>)
    requires
        codec_roundtrips::<T>(),
        rule.admits(s.len()),
        forall|i: int| 0 <= i < s.len() ==> #[trigger] s[i].encodable(),
    ensures
        spec_decode_seq::<T>(spec_encode_seq(s, rule.prefix) + rest, rule) == Ok::<
            (Value, Seq<u8>),
            CodecError,
        >((Value::List(values_of(s)), rest)),
{
    let body = encode_items(s) + rest;
    assert(spec_encode_seq(s, rule.prefix) + rest =~= spec_encode_len(s.len(), rule.prefix)
        + body);
    lemma_len_roundtrip(s.len(), rule, body);
    lemma_items_roundtrip::<T>(s, rest);
}

/// `std::str::from_utf8`: the string slice over `bytes` where they are valid
/// UTF-8, and `None` where they are not.
///
/// Its documentation states that it fails exactly on invalid UTF-8 and that
/// the string it returns is a view of the same bytes; `valid_utf8` is vstd's
/// definition of UTF-8 well-formedness.
#[verifier::external_body]
fn str_from_utf8(bytes: &[u8]) -> (r: Option<&str>)
    ensures
        r is Some <==> valid_utf8(bytes@),
        r matches Some(s) ==> encode_utf8(s@) == bytes@,
{
    match std::str::from_utf8(bytes) {
        Ok(s) => Some(s),
        Err(_) => None,
    }
}

/// What decoding length-prefixed UTF-8 text under `rule` yields.
pub open spec fn spec_decode_text(input: Seq<u8>, rule: LenRule) -> Result<
    (Value, Seq<u8>),
    CodecError,
> {
    match spec_decode_len(input, rule) {
        Ok((n, rest)) => if rest.len() < n {
            Err(not_enough(n, rest.len()))
        } else if !valid_utf8(rest.take(n as int)) {
            Err(CodecError::InvalidUtf8)
        } else {
            Ok((Value::Text(decode_utf8(rest.take(n as int))), rest.skip(n as int)))
        },
        Err(e) => Err(e),
    }
}

/// The encoding of the text `chars` with a length prefix counting its UTF-8 bytes.
pub open spec fn spec_encode_text(chars: Seq<char>, prefix: LenPrefix) -> Seq<u8> {
    spec_encode_len(encode_utf8(chars).len(), prefix) + encode_utf8(chars)
}

/// Decode length-prefixed UTF-8 text under `rule` from the front of `input`.
pub fn decode_string<'a>(input: &'a [u8], rule: &LenRule) -> (r: Result<
    (String, &'a [u8]),
    CodecError,
>)
    ensures
        match r {
            Ok((s, rest)) => spec_decode_text(input@, *rule) == Ok::<
                (Value, Seq<u8>),
                CodecError,
            >((Value::Text(s@), rest@)),
            Err(e) => spec_decode_text(input@, *rule) == Err::<(Value, Seq<u8>), CodecError>(e),
        },
{
    let (n, rest) = match decode_len(input, rule) {
        Ok(p) => p,
        Err(e) => return Err(e),
    };
    if rest.len() < n {
        return Err(CodecError::NotEnoughBytes { needed: n, available: rest.len() });
    }
    let (text, after) = rest.split_at(n);
    match str_from_utf8(text) {
        Some(s) => {
            let owned = s.to_owned();
            proof {
                vstd::utf8::encode_utf8_decode_utf8(s@);
            }
            Ok((owned, after))
        },
        None => Err(CodecError::InvalidUtf8),
    }
}

/// Append a length prefix and the UTF-8 bytes of `s`.
pub fn encode_str(s: &str, prefix: LenPrefix, buf: &mut Vec<u8>)
    ensures
        final(buf)@ == old(buf)@ + spec_encode_text(s@, prefix),
{
    let bytes = s.as_bytes();
    let ghost start = buf@;
    encode_len(buf, bytes.len(), prefix);
    buf.extend_from_slice(bytes);
    assert(buf@ =~= start + spec_encode_text(s@, prefix));
}

/// Roundtrip of length-prefixed text whose byte length the rule admits.
pub proof fn lemma_text_roundtrip(chars: Seq<char>, rule: LenRule, rest: Seq<u8>)
    requires
        rule.admits(encode_utf8(chars).len()),
    ensures
        spec_decode_text(spec_encode_text(chars, rule.prefix) + rest, rule) == Ok::<
            (Value, Seq<u8>),
            CodecError,
        >((Value::Text(chars), rest)),
{
    let bytes = encode_utf8(chars);
    let body = bytes + rest;
    assert(spec_encode_text(chars, rule.prefix) + rest =~= spec_encode_len(bytes.len(), rule.prefix)
        + body);
    lemma_len_roundtrip(bytes.len(), rule, body);
    assert(body.take(bytes.len() as int) =~= bytes);
    assert(body.skip(bytes.len() as int) =~= rest);
    vstd::utf8::encode_utf8_valid_utf8(chars);
    vstd::utf8::encode_utf8_decode_utf8(chars);
}

} // verus!
