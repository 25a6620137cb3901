//! `Codec` for `bool`, `Option<T>`, `Box<T>`, `Vec<T>`, `String`, arrays,
//! tuples and `Box<[T]>`, with their roundtrip laws.
use crate::codec::{
    add_capped, capped, capped_len, lemma_capped_concat, codec_consumes_prefix, codec_roundtrips, is_suffix, lemma_suffix_trans,
    not_enough, Codec, MAX_DECODE_LEN,
};
use crate::error::CodecError;
use crate::model::Value;
use crate::seq::{
    decode_elements, decode_items, lemma_decode_items_suffix, lemma_decode_seq_suffix,
    lemma_decode_text_suffix, decode_seq, decode_string, encode_elements, encode_items,
    encode_seq, encode_str, lemma_items_roundtrip, lemma_seq_roundtrip, lemma_text_roundtrip,
    spec_decode_seq, spec_decode_text, spec_encode_seq, spec_encode_text, standard_rule, values_of,
    list_view, seq_frame, spec_encode_len, LenPrefix, LenRule,
};
use vstd::prelude::*;
use vstd::utf8::encode_utf8;

verus! {

impl Codec for bool {
    open spec fn obeys_codec_spec() -> bool {
        true
    }

    open spec fn spec_value(&self) -> Value {
        Value::Bool(*self)
    }

    /// One byte: 1 for true, 0 for false.
    open spec fn spec_encode(&self) -> Seq<u8> {
        seq![if *self { 1u8 } else { 0u8 }]
    }

    /// One byte: 0 is false, any other value true.
    open spec fn spec_decode(input: Seq<u8>) -> Result<(Value, Seq<u8>), CodecError> {
        if input.len() < 1 {
            Err(not_enough(1, input.len()))
        } else {
            Ok((Value::Bool(input[0] != 0), input.skip(1)))
        }
    }

    fn decode(input: &[u8]) -> (r: Result<(Self, &[u8]), CodecError>) {
        if input.len() < 1 {
            return Err(CodecError::NotEnoughBytes { needed: 1, available: input.len() });
        }
        let (head, rest) = input.split_at(1);
        Ok((head[0] != 0, rest))
    }

    fn encode(&self, buf: &mut Vec<u8>) {
        buf.push(if *self { 1 } else { 0 });
        assert(buf@ =~= old(buf)@ + self.spec_encode());
    }

    fn encoded_size(&self) -> (r: usize) {
        1
    }
}

impl<T: Codec> Codec for Option<T> {
    open spec fn obeys_codec_spec() -> bool {
        T::obeys_codec_spec()
    }

    open spec fn spec_value(&self) -> Value {
        match self {
            None => Value::Absent,
            Some(v) => Value::Present(Box::new(v.spec_value())),
        }
    }

    /// A tag byte, 0 for `None` and 1 for `Some`, then the value if present.
    open spec fn spec_encode(&self) -> Seq<u8> {
        match self {
            None => seq![0u8],
            Some(v) => seq![1u8] + v.spec_encode(),
        }
    }

    /// A tag byte: 0 means `None`, any other value means a `T` follows.
    open spec fn spec_decode(input: Seq<u8>) -> Result<(Value, Seq<u8>), CodecError> {
        if input.len() < 1 {
            Err(not_enough(1, input.len()))
        } else if input[0] == 0 {
            Ok((Value::Absent, input.skip(1)))
        } else {
            match T::spec_decode(input.skip(1)) {
                Ok((v, rest)) => Ok((Value::Present(Box::new(v)), rest)),
                Err(e) => Err(e),
            }
        }
    }

    open spec fn encodable(&self) -> bool {
        match self {
            None => true,
            Some(v) => v.encodable(),
        }
    }

    /// Also, whatever `T`: no byte is `NotEnoughBytes`, a zero tag is `None`
    /// with the bytes after it, and any other tag gives `Some` on success.
    fn decode(input: &[u8]) -> (r: Result<(Self, &[u8]), CodecError>)
        ensures
            input@.len() == 0 ==> r == Err::<(Self, &[u8]), CodecError>(not_enough(1, 0)),
            input@.len() >= 1 && input@[0] == 0 ==> (r matches Ok((v, rest)) && v is None
                && rest@ == input@.skip(1)),
            input@.len() >= 1 && input@[0] != 0 ==> (r matches Ok((v, _)) ==> v is Some),
    {
        if input.len() < 1 {
            return Err(CodecError::NotEnoughBytes { needed: 1, available: input.len() });
        }
        let (head, rest) = input.split_at(1);
        if head[0] == 0 {
            Ok((None, rest))
        } else {
            match T::decode(rest) {
                Ok((v, rest2)) => Ok((Some(v), rest2)),
                Err(e) => Err(e),
            }
        }
    }

    /// Also, whatever `T`: `None` writes the single byte 0.
    fn encode(&self, buf: &mut Vec<u8>)
        ensures
            self is None ==> final(buf)@ == old(buf)@ + seq![0u8],
    {
        match self {
            None => {
                buf.push(0);
                assert(buf@ =~= old(buf)@ + self.spec_encode());
            },
            Some(v) => {
                let ghost start = buf@;
                buf.push(1);
                v.encode(buf);
                assert(T::obeys_codec_spec() ==> buf@ =~= start + self.spec_encode());
            },
        }
    }

    fn encoded_size(&self) -> (r: usize) {
        match self {
            None => 1,
            Some(v) => {
                let n = v.encoded_size();
                proof {
                    lemma_capped_concat(seq![1u8], v.spec_encode());
                }
                add_capped(1, n)
            },
        }
    }
}

impl<T: Codec> Codec for Box<T> {
    open spec fn obeys_codec_spec() -> bool {
        T::obeys_codec_spec()
    }

    /// Transparent: the value of the boxed datum.
    open spec fn spec_value(&self) -> Value {
        (**self).spec_value()
    }

    open spec fn spec_encode(&self) -> Seq<u8> {
        (**self).spec_encode()
    }

    open spec fn spec_decode(input: Seq<u8>) -> Result<(Value, Seq<u8>), CodecError> {
        T::spec_decode(input)
    }

    open spec fn encodable(&self) -> bool {
        (**self).encodable()
    }

    fn decode(input: &[u8]) -> (r: Result<(Self, &[u8]), CodecError>) {
        match T::decode(input) {
            Ok((v, rest)) => Ok((Box::new(v), rest)),
            Err(e) => Err(e),
        }
    }

    fn encode(&self, buf: &mut Vec<u8>) {
        (**self).encode(buf)
    }

    fn encoded_size(&self) -> (r: usize) {
        (**self).encoded_size()
    }
}

/// Whether every element of `s` is encodable.
pub open spec fn all_encodable<T: Codec>(s: Seq<T>) -> bool {
    forall|i: int| 0 <= i < s.len() ==> #[trigger] s[i].encodable()
}

/// `start` plus the encoded size of the elements of `items`, as a capped length.
fn items_size<T: Codec>(items: &[T], start: usize) -> (r: usize)
    ensures
        T::obeys_codec_spec() ==> r == capped(start as nat + encode_items(items@).len()),
{
    let mut total: usize = start;
    let mut i: usize = 0;
    assert(items@.take(0) =~= Seq::<T>::empty());
    while i < items.len()
        invariant
            i <= items@.len(),
            T::obeys_codec_spec() ==> total == capped(
                start as nat + encode_items(items@.take(i as int)).len(),
            ),
        decreases items@.len() - i,
    {
        let n = items[i].encoded_size();
        proof {
            assert(items@.take(i + 1).drop_last() =~= items@.take(i as int));
            assert(items@.take(i + 1).last() == items@[i as int]);
        }
        total = add_capped(total, n);
        i = i + 1;
    }
    assert(items@.take(items@.len() as int) =~= items@);
    total
}

/// The number of bytes `encode_seq(items, prefix, ..)` appends, or
/// `usize::MAX` where it does not fit.
pub fn encoded_seq_size<T: Codec>(items: &[T], prefix: LenPrefix) -> (r: usize)
    ensures
        T::obeys_codec_spec() ==> r == capped_len(spec_encode_seq(items@, prefix)),
{
    proof {
        crate::model::lemma_be_bytes_value(items@.len(), prefix.spec_width());
    }
    items_size(items, prefix.width())
}

/// The number of bytes `encode_str(s, prefix, ..)` appends, or `usize::MAX`
/// where it does not fit.
pub fn encoded_text_size(s: &str, prefix: LenPrefix) -> (r: usize)
    ensures
        r == capped_len(spec_encode_text(s@, prefix)),
{
    let n = s.as_bytes().len();
    proof {
        crate::model::lemma_be_bytes_value(encode_utf8(s@).len(), prefix.spec_width());
    }
    add_capped(prefix.width(), n)
}

impl<T: Codec> Codec for Vec<T> {
    open spec fn obeys_codec_spec() -> bool {
        T::obeys_codec_spec()
    }

    open spec fn spec_value(&self) -> Value {
        Value::List(values_of(self@))
    }

    /// A `u32` element count, then each element.
    open spec fn spec_encode(&self) -> Seq<u8> {
        spec_encode_seq(self@, LenPrefix::U32)
    }

    open spec fn spec_decode(input: Seq<u8>) -> Result<(Value, Seq<u8>), CodecError> {
        spec_decode_seq::<T>(input, standard_rule())
    }

    open spec fn encodable(&self) -> bool {
        self@.len() <= MAX_DECODE_LEN && all_encodable(self@)
    }

    /// Also, whatever `T`: a refused prefix gives its error, a zero count the
    /// empty vector, and success as many elements as the count.
    fn decode(input: &[u8]) -> (r: Result<(Self, &[u8]), CodecError>)
        ensures
            seq_frame(input@, standard_rule(), list_view(r)),
    {
        decode_seq(input, &LenRule::standard())
    }

    /// Also, whatever `T`: the empty vector writes a zero count.
    fn encode(&self, buf: &mut Vec<u8>)
        ensures
            self@.len() == 0 ==> final(buf)@ == old(buf)@ + spec_encode_len(0, LenPrefix::U32),
    {
        encode_seq(self.as_slice(), LenPrefix::U32, buf)
    }

    fn encoded_size(&self) -> (r: usize) {
        proof {
            crate::model::lemma_be_bytes_value(self@.len(), 4);
        }
        items_size(self.as_slice(), 4)
    }
}

impl Codec for String {
    open spec fn obeys_codec_spec() -> bool {
        true
    }

    open spec fn spec_value(&self) -> Value {
        Value::Text(self@)
    }

    /// A `u32` byte count, then the UTF-8 bytes.
    open spec fn spec_encode(&self) -> Seq<u8> {
        spec_encode_text(self@, LenPrefix::U32)
    }

    open spec fn spec_decode(input: Seq<u8>) -> Result<(Value, Seq<u8>), CodecError> {
        spec_decode_text(input, standard_rule())
    }

    open spec fn encodable(&self) -> bool {
        encode_utf8(self@).len() <= MAX_DECODE_LEN
    }

    fn decode(input: &[u8]) -> (r: Result<(Self, &[u8]), CodecError>) {
        decode_string(input, &LenRule::standard())
    }

    fn encode(&self, buf: &mut Vec<u8>) {
        encode_str(self.as_str(), LenPrefix::U32, buf)
    }

    fn encoded_size(&self) -> (r: usize) {
        let n = self.as_str().as_bytes().len();
        proof {
            crate::model::lemma_be_bytes_value(encode_utf8(self@).len(), 4);
        }
        add_capped(4, n)
    }
}

/// `TryFrom<Vec<T>> for [T; N]`: the vector's elements as an array when it has
/// exactly `N` of them, and `None` otherwise.
#[verifier::external_body]
fn array_from_vec<T, const N: usize>(v: Vec<T>) -> (r: Option<[T; N]>)
    ensures
        r is Some <==> v@.len() == N,
        r matches Some(a) ==> a@ == v@,
{
    match <[T; N]>::try_from(v) {
        Ok(a) => Some(a),
        Err(_) => None,
    }
}

impl<T: Codec, const N: usize> Codec for [T; N] {
    open spec fn obeys_codec_spec() -> bool {
        T::obeys_codec_spec()
    }

    open spec fn spec_value(&self) -> Value {
        Value::List(values_of(self@))
    }

    /// Exactly `N` elements, with no length prefix.
    open spec fn spec_encode(&self) -> Seq<u8> {
        encode_items(self@)
    }

    open spec fn spec_decode(input: Seq<u8>) -> Result<(Value, Seq<u8>), CodecError> {
        match decode_items::<T>(input, N as nat) {
            Ok((vs, rest)) => Ok((Value::List(vs), rest)),
            Err(e) => Err(e),
        }
    }

    open spec fn encodable(&self) -> bool {
        all_encodable(self@)
    }

    /// Also, whatever `T`: an array of no elements reads nothing.
    fn decode(input: &[u8]) -> (r: Result<(Self, &[u8]), CodecError>)
        ensures
            N == 0 ==> (r matches Ok((_, rest)) && rest@ == input@),
    {
        let (items, rest) = match decode_elements::<T>(input, N) {
            Ok(p) => p,
            Err(e) => return Err(e),
        };
        match array_from_vec::<T, N>(items) {
            Some(a) => Ok((a, rest)),
            None => {
                proof {
                    assert(false);
                }
                Err(CodecError::NotEnoughBytes { needed: N, available: input.len() })
            },
        }
    }

    fn encode(&self, buf: &mut Vec<u8>) {
        encode_elements(self, buf)
    }

    fn encoded_size(&self) -> (r: usize) {
        items_size(self, 0)
    }
}

/// `Vec::into_boxed_slice`: the vector's elements as a boxed slice.
#[verifier::external_body]
fn into_boxed_slice<T>(v: Vec<T>) -> (r: Box<[T]>)
    ensures
        r@ == v@,
{
    v.into_boxed_slice()
}

/// The elements and remaining bytes of a decoded boxed slice, or its error.
pub open spec fn boxed_view<T>(r: Result<(Box<[T]>, &[u8]), CodecError>) -> Result<
    (Seq<T>, Seq<u8>),
    CodecError,
> {
    match r {
        Ok((v, rest)) => Ok((v@, rest@)),
        Err(e) => Err(e),
    }
}

impl<T: Codec> Codec for Box<[T]> {
    open spec fn obeys_codec_spec() -> bool {
        T::obeys_codec_spec()
    }

    open spec fn spec_value(&self) -> Value {
        Value::List(values_of(self@))
    }

    /// As `Vec<T>`: a `u32` element count, then each element.
    open spec fn spec_encode(&self) -> Seq<u8> {
        spec_encode_seq(self@, LenPrefix::U32)
    }

    open spec fn spec_decode(input: Seq<u8>) -> Result<(Value, Seq<u8>), CodecError> {
        spec_decode_seq::<T>(input, standard_rule())
    }

    open spec fn encodable(&self) -> bool {
        self@.len() <= MAX_DECODE_LEN && all_encodable(self@)
    }

    /// Also, whatever `T`: as for `Vec<T>`.
    fn decode(input: &[u8]) -> (r: Result<(Self, &[u8]), CodecError>)
        ensures
            seq_frame(input@, standard_rule(), boxed_view(r)),
    {
        match decode_seq::<T>(input, &LenRule::standard()) {
            Ok((v, rest)) => Ok((into_boxed_slice(v), rest)),
            Err(e) => Err(e),
        }
    }

    /// Also, whatever `T`: the empty slice writes a zero count.
    fn encode(&self, buf: &mut Vec<u8>)
        ensures
            self@.len() == 0 ==> final(buf)@ == old(buf)@ + spec_encode_len(0, LenPrefix::U32),
    {
        encode_seq(&**self, LenPrefix::U32, buf)
    }

    fn encoded_size(&self) -> (r: usize) {
        proof {
            crate::model::lemma_be_bytes_value(self@.len(), 4);
        }
        items_size(&**self, 4)
    }
}

/// `bool` obeys the roundtrip law.
pub proof fn lemma_bool_roundtrip()
    ensures
        codec_roundtrips::<bool>(),
{
    assert forall|x: bool, rest: Seq<u8>|
        #[trigger] bool::spec_decode(x.spec_encode() + rest) == Ok::<(Value, Seq<u8>), CodecError>(
            (x.spec_value(), rest),
        ) by {
        assert((x.spec_encode() + rest).skip(1) =~= rest);
    }
}

/// `Option<T>` obeys the roundtrip law where `T` does.
pub proof fn lemma_option_roundtrip<T: Codec>()
    requires
        codec_roundtrips::<T>(),
    ensures
        codec_roundtrips::<Option<T>>(),
{
    assert forall|x: Option<T>, rest: Seq<u8>| x.encodable() implies #[trigger] Option::<
        T,
    >::spec_decode(x.spec_encode() + rest) == Ok::<(Value, Seq<u8>), CodecError>(
        (x.spec_value(), rest),
    ) by {
        match x {
            None => {
                assert((x.spec_encode() + rest).skip(1) =~= rest);
            },
            Some(v) => {
                assert((x.spec_encode() + rest).skip(1) =~= v.spec_encode() + rest);
                assert(T::spec_decode(v.spec_encode() + rest) == Ok::<
                    (Value, Seq<u8>),
                    CodecError,
                >((v.spec_value(), rest)));
            },
        }
    }
}

/// `Box<T>` obeys the roundtrip law where `T` does.
pub proof fn lemma_box_roundtrip<T: Codec>()
    requires
        codec_roundtrips::<T>(),
    ensures
        codec_roundtrips::<Box<T>>(),
{
    assert forall|x: Box<T>, rest: Seq<u8>| x.encodable() implies #[trigger] Box::<
        T,
    >::spec_decode(x.spec_encode() + rest) == Ok::<(Value, Seq<u8>), CodecError>(
        (x.spec_value(), rest),
    ) by {
        assert(T::spec_decode((*x).spec_encode() + rest) == Ok::<(Value, Seq<u8>), CodecError>(
            ((*x).spec_value(), rest),
        ));
    }
}

/// The standard rule admits every length up to the allocation limit.
proof fn lemma_standard_admits(n: nat)
    requires
        n <= MAX_DECODE_LEN,
    ensures
        standard_rule().admits(n),
{
    crate::model::lemma_pow256_values();
}

/// `Vec<T>` obeys the roundtrip law where `T` does.
pub proof fn lemma_vec_roundtrip<T: Codec>()
    requires
        codec_roundtrips::<T>(),
    ensures
        codec_roundtrips::<Vec<T>>(),
{
    assert forall|x: Vec<T>, rest: Seq<u8>| x.encodable() implies #[trigger] Vec::<
        T,
    >::spec_decode(x.spec_encode() + rest) == Ok::<(Value, Seq<u8>), CodecError>(
        (x.spec_value(), rest),
    ) by {
        lemma_standard_admits(x@.len());
        lemma_seq_roundtrip::<T>(x@, standard_rule(), rest);
    }
}

/// `Box<[T]>` obeys the roundtrip law where `T` does.
pub proof fn lemma_boxed_slice_roundtrip<T: Codec>()
    requires
        codec_roundtrips::<T>(),
    ensures
        codec_roundtrips::<Box<[T]>>(),
{
    assert forall|x: Box<[T]>, rest: Seq<u8>| x.encodable() implies #[trigger] Box::<
        [T],
    >::spec_decode(x.spec_encode() + rest) == Ok::<(Value, Seq<u8>), CodecError>(
        (x.spec_value(), rest),
    ) by {
        lemma_standard_admits(x@.len());
        lemma_seq_roundtrip::<T>(x@, standard_rule(), rest);
    }
}

/// `String` obeys the roundtrip law.
pub proof fn lemma_string_roundtrip()
    ensures
        codec_roundtrips::<String>(),
{
    assert forall|x: String, rest: Seq<u8>| x.encodable() implies #[trigger] String::spec_decode(
        x.spec_encode() + rest,
    ) == Ok::<(Value, Seq<u8>), CodecError>((x.spec_value(), rest)) by {
        lemma_standard_admits(encode_utf8(x@).len());
        lemma_text_roundtrip(x@, standard_rule(), rest);
    }
}

/// `[T; N]` obeys the roundtrip law where `T` does.
pub proof fn lemma_array_roundtrip<T: Codec, const N: usize>()
    requires
        codec_roundtrips::<T>(),
    ensures
        codec_roundtrips::<[T; N]>(),
{
    assert forall|x: [T; N], rest: Seq<u8>| x.encodable() implies #[trigger] <[T; N]>::spec_decode(
        x.spec_encode() + rest,
    ) == Ok::<(Value, Seq<u8>), CodecError>((x.spec_value(), rest)) by {
        lemma_items_roundtrip::<T>(x@, rest);
    }
}

/// `bool`, `String` obey the prefix law; so do `Option<T>`, `Box<T>`,
/// `Vec<T>`, `Box<[T]>` and `[T; N]` where `T` does.
pub proof fn lemma_containers_consume_prefix<T: Codec, const N: usize>()
    requires
        codec_consumes_prefix::<T>(),
    ensures
        codec_consumes_prefix::<bool>(),
        codec_consumes_prefix::<String>(),
        codec_consumes_prefix::<Option<T>>(),
        codec_consumes_prefix::<Box<T>>(),
        codec_consumes_prefix::<Vec<T>>(),
        codec_consumes_prefix::<Box<[T]>>(),
        codec_consumes_prefix::<[T; N]>(),
{
    assert forall|input: Seq<u8>| #[trigger] bool::spec_decode(input) matches Ok((_, rest))
        ==> is_suffix(rest, input) by {
    }
    assert forall|input: Seq<u8>| #[trigger] String::spec_decode(input) matches Ok((_, rest))
        ==> is_suffix(rest, input) by {
        lemma_decode_text_suffix(input, standard_rule());
    }
    assert forall|input: Seq<u8>| #[trigger] Option::<T>::spec_decode(input) matches Ok((_, rest))
        ==> is_suffix(rest, input) by {
        if input.len() >= 1 && input[0] != 0 {
            if let Ok((v, r)) = T::spec_decode(input.skip(1)) {
                lemma_suffix_trans(r, input.skip(1), input);
            }
        }
    }
    assert forall|input: Seq<u8>| #[trigger] Box::<T>::spec_decode(input) matches Ok((_, rest))
        ==> is_suffix(rest, input) by {
        assert(Box::<T>::spec_decode(input) == T::spec_decode(input));
    }
    assert forall|input: Seq<u8>| #[trigger] Vec::<T>::spec_decode(input) matches Ok((_, rest))
        ==> is_suffix(rest, input) by {
        lemma_decode_seq_suffix::<T>(input, standard_rule());
    }
    assert forall|input: Seq<u8>| #[trigger] Box::<[T]>::spec_decode(input) matches Ok((_, rest))
        ==> is_suffix(rest, input) by {
        lemma_decode_seq_suffix::<T>(input, standard_rule());
    }
    assert forall|input: Seq<u8>| #[trigger] <[T; N]>::spec_decode(input) matches Ok((_, rest))
        ==> is_suffix(rest, input) by {
        lemma_decode_items_suffix::<T>(input, N as nat);
    }
}


} // verus!
