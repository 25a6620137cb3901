//! `Bytes`: a length-prefixed run of bytes that decodes without copying.
use crate::codec::{capped, not_enough};
use crate::error::CodecError;
use crate::seq::{
    decode_len, encode_len, lemma_len_roundtrip, spec_decode_len, spec_encode_len, standard_rule,
    LenPrefix, LenRule,
};
use vstd::prelude::*;

verus! {

/// A borrowed run of bytes: on the wire a length prefix and the bytes.
/// Decoding borrows the bytes from the input instead of copying them.
#[derive(Debug, Clone, Copy, PartialEq, Eq)]
pub struct Bytes<'a>(pub &'a [u8]);

/// What decoding a length-prefixed run of bytes under `rule` yields: the
/// bytes and the input after them, or the error.
pub open spec fn spec_decode_bytes(input: Seq<u8>, rule: LenRule) -> Result<
    (Seq<u8>, Seq<u8>),
    CodecError,
> {
    match spec_decode_len(input, rule) {
        Ok((n, rest)) => if rest.len() < n {
            Err(not_enough(n, rest.len()))
        } else {
            Ok((rest.take(n as int), rest.skip(n as int)))
        },
        Err(e) => Err(e),
    }
}

/// The encoding of the bytes `b` with a length prefix.
pub open spec fn spec_encode_bytes(b: Seq<u8>, prefix: LenPrefix) -> Seq<u8> {
    spec_encode_len(b.len(), prefix) + b
}

impl<'a> Bytes<'a> {
    /// Decode a `u32` length and that many bytes, borrowed from `input`.
    pub fn decode(input: &'a [u8]) -> (r: Result<(Bytes<'a>, &'a [u8]), CodecError>)
        ensures
            match r {
                Ok((b, rest)) => spec_decode_bytes(input@, standard_rule()) == Ok::<
                    (Seq<u8>, Seq<u8>),
                    CodecError,
                >((b.0@, rest@)),
                Err(e) => spec_decode_bytes(input@, standard_rule()) == Err::<
                    (Seq<u8>, Seq<u8>),
                    CodecError,
                >(e),
            },
    {
        Self::decode_with(input, &LenRule::standard())
    }

    /// Decode a length under `rule` and that many bytes, borrowed from `input`.
    pub fn decode_with(input: &'a [u8], rule: &LenRule) -> (r: Result<
        (Bytes<'a>, &'a [u8]),
        CodecError,
    >)
        ensures
            match r {
                Ok((b, rest)) => spec_decode_bytes(input@, *rule) == Ok::<
                    (Seq<u8>, Seq<u8>),
                    CodecError,
                >((b.0@, rest@)),
                Err(e) => spec_decode_bytes(input@, *rule) == Err::<(Seq<u8>, Seq<u8>), CodecError>(
                    e,
                ),
            },
    {
        let (n, rest) = match decode_len(input, rule) {
            Ok(p) => p,
            Err(e) => return Err(e),
        };
        if rest.len() < n {
            return Err(CodecError::NotEnoughBytes { needed: n, available: rest.len() });
        }
        let (data, after) = rest.split_at(n);
        Ok((Bytes(data), after))
    }

    /// Encode a `u32` length and the bytes.
    pub fn encode(&self, buf: &mut Vec<u8>)
        ensures
            final(buf)@ == old(buf)@ + spec_encode_bytes(self.0@, LenPrefix::U32),
    {
        self.encode_with(LenPrefix::U32, buf)
    }

    /// Encode a length with the given prefix, then the bytes.
    pub fn encode_with(&self, prefix: LenPrefix, buf: &mut Vec<u8>)
        ensures
            final(buf)@ == old(buf)@ + spec_encode_bytes(self.0@, prefix),
    {
        let ghost start = buf@;
        encode_len(buf, self.0.len(), prefix);
        buf.extend_from_slice(self.0);
        assert(buf@ =~= start + spec_encode_bytes(self.0@, prefix));
    }

    /// The number of bytes that `encode` appends.
    pub fn encoded_size(&self) -> (r: usize)
        ensures
            r == capped(spec_encode_bytes(self.0@, LenPrefix::U32).len()),
    {
        proof {
            crate::model::lemma_be_bytes_value(self.0@.len(), 4);
        }
        self.0.len().saturating_add(4)
    }

    /// The borrowed bytes.
    pub fn as_ref(&self) -> (r: &'a [u8])
        ensures
            r@ == self.0@,
    {
        self.0
    }
}

/// Decoding an encoded run of bytes whose length the rule admits, followed by
/// any bytes, gives back the run and exactly those bytes.
pub proof fn lemma_bytes_roundtrip(b: Seq<u8>, rule: LenRule, rest: Seq<u8>)
    requires
        rule.admits(b.len()),
    ensures
        spec_decode_bytes(spec_encode_bytes(b, rule.prefix) + rest, rule) == Ok::<
            (Seq<u8>, Seq<u8>),
            CodecError,
        >((b, rest)),
{
    let body = b + rest;
    assert(spec_encode_bytes(b, rule.prefix) + rest =~= spec_encode_len(b.len(), rule.prefix)
        + body);
    lemma_len_roundtrip(b.len(), rule, body);
    assert(body.take(b.len() as int) =~= b);
    assert(body.skip(b.len() as int) =~= rest);
}

} // verus!
