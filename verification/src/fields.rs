//! Helpers for the code that encodes and decodes records and enums field by
//! field: error context, padding and constant ("magic") fields.
use crate::codec::{not_enough, Codec};
use crate::error::CodecError;
use vstd::prelude::*;

verus! {

/// The error `e`, marked as raised while decoding the field named `field`.
pub open spec fn field_error(field: &'static str, e: CodecError) -> CodecError {
    CodecError::FieldError { field, source: Box::new(e) }
}

/// Mark the error of a field's decoding, if any, with the field's name.
pub fn in_field<T>(field: &'static str, r: Result<T, CodecError>) -> (out: Result<T, CodecError>)
    ensures
        out == match r {
            Ok(v) => Ok(v),
            Err(e) => Err::<T, CodecError>(field_error(field, e)),
        },
{
    match r {
        Ok(v) => Ok(v),
        Err(e) => Err(CodecError::FieldError { field, source: Box::new(e) }),
    }
}

/// `n` zero bytes.
pub open spec fn zeros(n: nat) -> Seq<u8> {
    Seq::new(n, |i: int| 0u8)
}

/// Append `n` zero bytes of padding.
pub fn encode_padding(buf: &mut Vec<u8>, n: usize)
    ensures
        final(buf)@ == old(buf)@ + zeros(n as nat),
{
    let ghost start = buf@;
    let mut i: usize = 0;
    while i < n
        invariant
            i <= n,
            buf@ == start + zeros(i as nat),
        decreases n - i,
    {
        buf.push(0);
        i = i + 1;
        assert(buf@ =~= start + zeros(i as nat));
    }
}

/// Skip `n` bytes of padding at the front of `input`; their contents are not checked.
pub fn skip_padding(input: &[u8], n: usize) -> (r: Result<&[u8], CodecError>)
    ensures
        match r {
            Ok(rest) => n <= input@.len() && rest@ == input@.skip(n as int),
            Err(e) => input@.len() < n && e == not_enough(n as nat, input@.len()),
        },
{
    if input.len() < n {
        return Err(CodecError::NotEnoughBytes { needed: n, available: input.len() });
    }
    let (_, rest) = input.split_at(n);
    Ok(rest)
}

/// What checking for the constant bytes `m` at the front of `input` yields:
/// the input after them, `NotEnoughBytes` if it is shorter, `BadMagic` if it
/// starts with other bytes.
pub open spec fn spec_check_magic(input: Seq<u8>, m: Seq<u8>) -> Result<Seq<u8>, CodecError> {
    if input.len() < m.len() {
        Err(not_enough(m.len(), input.len()))
    } else if input.take(m.len() as int) != m {
        Err(CodecError::BadMagic)
    } else {
        Ok(input.skip(m.len() as int))
    }
}

/// Check that `input` starts with the encoding of the constant `magic`, and skip it.
pub fn decode_magic<'a, T: Codec>(input: &'a [u8], magic: &T) -> (r: Result<&'a [u8], CodecError>)
    ensures
        T::obeys_codec_spec() ==> match r {
            Ok(rest) => spec_check_magic(input@, magic.spec_encode()) == Ok::<Seq<u8>, CodecError>(
                rest@,
            ),
            Err(e) => spec_check_magic(input@, magic.spec_encode()) == Err::<Seq<u8>, CodecError>(e),
        },
{
    let mut expected: Vec<u8> = Vec::new();
    magic.encode(&mut expected);
    let ghost m = expected@;
    assert(T::obeys_codec_spec() ==> m =~= magic.spec_encode());
    let n = expected.len();
    if input.len() < n {
        return Err(CodecError::NotEnoughBytes { needed: n, available: input.len() });
    }
    let (head, rest) = input.split_at(n);
    let mut i: usize = 0;
    while i < n
        invariant
            i <= n,
            n == expected@.len(),
            m == expected@,
            n <= input@.len(),
            T::obeys_codec_spec() ==> m == magic.spec_encode(),
            head@ == input@.take(n as int),
            head@.len() == n,
            forall|j: int| 0 <= j < i ==> head@[j] == expected@[j],
        decreases n - i,
    {
        if head[i] != expected[i] {
            assert(head@[i as int] != expected@[i as int]);
            assert(input@.take(n as int) != m);
            return Err(CodecError::BadMagic);
        }
        i = i + 1;
    }
    assert(head@ =~= expected@);
    Ok(rest)
}

} // verus!
