//! `Codec` for tuples of two to eight components, with their laws.
use crate::codec::{
    add_capped, codec_consumes_prefix, codec_roundtrips, is_suffix, lemma_capped_concat,
    lemma_suffix_trans, Codec,
};
use crate::error::CodecError;
use crate::model::Value;
use crate::seq::{decode_items, encode_items, lemma_decode_items_error_persists};
use vstd::prelude::*;

verus! {

impl<A: Codec, B: Codec> Codec for (A, B) {
    open spec fn obeys_codec_spec() -> bool {
        A::obeys_codec_spec() && B::obeys_codec_spec()
    }

    open spec fn spec_value(&self) -> Value {
        Value::List(seq![self.0.spec_value(), self.1.spec_value()])
    }

    /// The components one after another.
    open spec fn spec_encode(&self) -> Seq<u8> {
        self.0.spec_encode() + self.1.spec_encode()
    }

    open spec fn spec_decode(input: Seq<u8>) -> Result<(Value, Seq<u8>), CodecError> {
        match A::spec_decode(input) {
            Ok((v0, r1)) => {
            match B::spec_decode(r1) {
                Ok((v1, r2)) => {
                Ok((Value::List(seq![v0, v1]), r2))
                },
                Err(e) => Err(e),
            }
            },
            Err(e) => Err(e),
        }
    }

    open spec fn encodable(&self) -> bool {
        self.0.encodable() && self.1.encodable()
    }

    fn decode(input: &[u8]) -> (r: Result<(Self, &[u8]), CodecError>) {
        let r0 = input;
        let (v0, r1) = match A::decode(r0) {
            Ok(p) => p,
            Err(e) => return Err(e),
        };
        let (v1, r2) = match B::decode(r1) {
            Ok(p) => p,
            Err(e) => return Err(e),
        };
        Ok(((v0, v1), r2))
    }

    fn encode(&self, buf: &mut Vec<u8>) {
        let ghost start = buf@;
        self.0.encode(buf);
        self.1.encode(buf);
        assert(Self::obeys_codec_spec() ==> buf@ =~= start + self.spec_encode());
    }

    fn encoded_size(&self) -> (r: usize) {
        let s0 = self.0.encoded_size();
        let s1 = self.1.encoded_size();
        proof {
            lemma_capped_concat(self.0.spec_encode(), self.1.spec_encode());
        }
        add_capped(s0, s1)
    }
}

/// Pairs obey the roundtrip law where their components do.
pub proof fn lemma_tuple2_roundtrip<A: Codec, B: Codec>()
    requires
        codec_roundtrips::<A>(),
        codec_roundtrips::<B>(),
    ensures
        codec_roundtrips::<(A, B)>(),
{
    assert forall|x: (A, B), rest: Seq<u8>| x.encodable() implies #[trigger] <(A, B)>::spec_decode(
        x.spec_encode() + rest,
    ) == Ok::<(Value, Seq<u8>), CodecError>((x.spec_value(), rest)) by {
        let t2 = rest;
        let t1 = x.1.spec_encode() + t2;
        let t0 = x.0.spec_encode() + t1;
        assert(x.spec_encode() + rest =~= t0);
        assert(A::spec_decode(x.0.spec_encode() + t1) == Ok::<(Value, Seq<u8>), CodecError>(
            (x.0.spec_value(), t1),
        ));
        assert(B::spec_decode(x.1.spec_encode() + t2) == Ok::<(Value, Seq<u8>), CodecError>(
            (x.1.spec_value(), t2),
        ));
    }
}

/// Pairs obey the prefix law where their components do.
pub proof fn lemma_tuple2_consumes_prefix<A: Codec, B: Codec>()
    requires
        codec_consumes_prefix::<A>(),
        codec_consumes_prefix::<B>(),
    ensures
        codec_consumes_prefix::<(A, B)>(),
{
    assert forall|input: Seq<u8>| #[trigger] <(A, B)>::spec_decode(input) matches Ok((_, rest))
        ==> is_suffix(rest, input) by {
        if let Ok((v0, r1)) = A::spec_decode(input) {
            if let Ok((v1, r2)) = B::spec_decode(r1) {
                lemma_suffix_trans(r2, r1, input);
            }
        }
    }
}

impl<A: Codec, B: Codec, C: Codec> Codec for (A, B, C) {
    open spec fn obeys_codec_spec() -> bool {
        A::obeys_codec_spec() && B::obeys_codec_spec() && C::obeys_codec_spec()
    }

    open spec fn spec_value(&self) -> Value {
        Value::List(seq![self.0.spec_value(), self.1.spec_value(), self.2.spec_value()])
    }

    /// The components one after another.
    open spec fn spec_encode(&self) -> Seq<u8> {
        self.0.spec_encode() + self.1.spec_encode() + self.2.spec_encode()
    }

    open spec fn spec_decode(input: Seq<u8>) -> Result<(Value, Seq<u8>), CodecError> {
        match A::spec_decode(input) {
            Ok((v0, r1)) => {
            match B::spec_decode(r1) {
                Ok((v1, r2)) => {
                match C::spec_decode(r2) {
                    Ok((v2, r3)) => {
                    Ok((Value::List(seq![v0, v1, v2]), r3))
                    },
                    Err(e) => Err(e),
                }
                },
                Err(e) => Err(e),
            }
            },
            Err(e) => Err(e),
        }
    }

    open spec fn encodable(&self) -> bool {
        self.0.encodable() && self.1.encodable() && self.2.encodable()
    }

    fn decode(input: &[u8]) -> (r: Result<(Self, &[u8]), CodecError>) {
        let r0 = input;
        let (v0, r1) = match A::decode(r0) {
            Ok(p) => p,
            Err(e) => return Err(e),
        };
        let (v1, r2) = match B::decode(r1) {
            Ok(p) => p,
            Err(e) => return Err(e),
        };
        let (v2, r3) = match C::decode(r2) {
            Ok(p) => p,
            Err(e) => return Err(e),
        };
        Ok(((v0, v1, v2), r3))
    }

    fn encode(&self, buf: &mut Vec<u8>) {
        let ghost start = buf@;
        self.0.encode(buf);
        self.1.encode(buf);
        self.2.encode(buf);
        assert(Self::obeys_codec_spec() ==> buf@ =~= start + self.spec_encode());
    }

    fn encoded_size(&self) -> (r: usize) {
        let s0 = self.0.encoded_size();
        let s1 = self.1.encoded_size();
        let s2 = self.2.encoded_size();
        proof {
            lemma_capped_concat(self.0.spec_encode(), self.1.spec_encode());
            lemma_capped_concat(self.0.spec_encode() + self.1.spec_encode(), self.2.spec_encode());
        }
        add_capped(add_capped(s0, s1), s2)
    }
}

/// Triples obey the roundtrip law where their components do.
pub proof fn lemma_tuple3_roundtrip<A: Codec, B: Codec, C: Codec>()
    requires
        codec_roundtrips::<A>(),
        codec_roundtrips::<B>(),
        codec_roundtrips::<C>(),
    ensures
        codec_roundtrips::<(A, B, C)>(),
{
    assert forall|x: (A, B, C), rest: Seq<u8>| x.encodable() implies #[trigger] <(A, B, C)>::spec_decode(
        x.spec_encode() + rest,
    ) == Ok::<(Value, Seq<u8>), CodecError>((x.spec_value(), rest)) by {
        let t3 = rest;
        let t2 = x.2.spec_encode() + t3;
        let t1 = x.1.spec_encode() + t2;
        let t0 = x.0.spec_encode() + t1;
        assert(x.spec_encode() + rest =~= t0);
        assert(A::spec_decode(x.0.spec_encode() + t1) == Ok::<(Value, Seq<u8>), CodecError>(
            (x.0.spec_value(), t1),
        ));
        assert(B::spec_decode(x.1.spec_encode() + t2) == Ok::<(Value, Seq<u8>), CodecError>(
            (x.1.spec_value(), t2),
        ));
        assert(C::spec_decode(x.2.spec_encode() + t3) == Ok::<(Value, Seq<u8>), CodecError>(
            (x.2.spec_value(), t3),
        ));
    }
}

/// Triples obey the prefix law where their components do.
pub proof fn lemma_tuple3_consumes_prefix<A: Codec, B: Codec, C: Codec>()
    requires
        codec_consumes_prefix::<A>(),
        codec_consumes_prefix::<B>(),
        codec_consumes_prefix::<C>(),
    ensures
        codec_consumes_prefix::<(A, B, C)>(),
{
    assert forall|input: Seq<u8>| #[trigger] <(A, B, C)>::spec_decode(input) matches Ok((_, rest))
        ==> is_suffix(rest, input) by {
        if let Ok((v0, r1)) = A::spec_decode(input) {
            if let Ok((v1, r2)) = B::spec_decode(r1) {
                lemma_suffix_trans(r2, r1, input);
                if let Ok((v2, r3)) = C::spec_decode(r2) {
                    lemma_suffix_trans(r3, r2, input);
                }
            }
        }
    }
}

impl<A: Codec, B: Codec, C: Codec, D: Codec> Codec for (A, B, C, D) {
    open spec fn obeys_codec_spec() -> bool {
        A::obeys_codec_spec() && B::obeys_codec_spec() && C::obeys_codec_spec() && D::obeys_codec_spec()
    }

    open spec fn spec_value(&self) -> Value {
        Value::List(seq![self.0.spec_value(), self.1.spec_value(), self.2.spec_value(), self.3.spec_value()])
    }

    /// The components one after another.
    open spec fn spec_encode(&self) -> Seq<u8> {
        self.0.spec_encode() + self.1.spec_encode() + self.2.spec_encode() + self.3.spec_encode()
    }

    open spec fn spec_decode(input: Seq<u8>) -> Result<(Value, Seq<u8>), CodecError> {
        match A::spec_decode(input) {
            Ok((v0, r1)) => {
            match B::spec_decode(r1) {
                Ok((v1, r2)) => {
                match C::spec_decode(r2) {
                    Ok((v2, r3)) => {
                    match D::spec_decode(r3) {
                        Ok((v3, r4)) => {
                        Ok((Value::List(seq![v0, v1, v2, v3]), r4))
                        },
                        Err(e) => Err(e),
                    }
                    },
                    Err(e) => Err(e),
                }
                },
                Err(e) => Err(e),
            }
            },
            Err(e) => Err(e),
        }
    }

    open spec fn encodable(&self) -> bool {
        self.0.encodable() && self.1.encodable() && self.2.encodable() && self.3.encodable()
    }

    fn decode(input: &[u8]) -> (r: Result<(Self, &[u8]), CodecError>) {
        let r0 = input;
        let (v0, r1) = match A::decode(r0) {
            Ok(p) => p,
            Err(e) => return Err(e),
        };
        let (v1, r2) = match B::decode(r1) {
            Ok(p) => p,
            Err(e) => return Err(e),
        };
        let (v2, r3) = match C::decode(r2) {
            Ok(p) => p,
            Err(e) => return Err(e),
        };
        let (v3, r4) = match D::decode(r3) {
            Ok(p) => p,
            Err(e) => return Err(e),
        };
        Ok(((v0, v1, v2, v3), r4))
    }

    fn encode(&self, buf: &mut Vec<u8>) {
        let ghost start = buf@;
        self.0.encode(buf);
        self.1.encode(buf);
        self.2.encode(buf);
        self.3.encode(buf);
        assert(Self::obeys_codec_spec() ==> buf@ =~= start + self.spec_encode());
    }

    fn encoded_size(&self) -> (r: usize) {
        let s0 = self.0.encoded_size();
        let s1 = self.1.encoded_size();
        let s2 = self.2.encoded_size();
        let s3 = self.3.encoded_size();
        proof {
            lemma_capped_concat(self.0.spec_encode(), self.1.spec_encode());
            lemma_capped_concat(self.0.spec_encode() + self.1.spec_encode(), self.2.spec_encode());
            lemma_capped_concat(self.0.spec_encode() + self.1.spec_encode() + self.2.spec_encode(), self.3.spec_encode());
        }
        add_capped(add_capped(add_capped(s0, s1), s2), s3)
    }
}

/// 4-tuples obey the roundtrip law where their components do.
pub proof fn lemma_tuple4_roundtrip<A: Codec, B: Codec, C: Codec, D: Codec>()
    requires
        codec_roundtrips::<A>(),
        codec_roundtrips::<B>(),
        codec_roundtrips::<C>(),
        codec_roundtrips::<D>(),
    ensures
        codec_roundtrips::<(A, B, C, D)>(),
{
    assert forall|x: (A, B, C, D), rest: Seq<u8>| x.encodable() implies #[trigger] <(A, B, C, D)>::spec_decode(
        x.spec_encode() + rest,
    ) == Ok::<(Value, Seq<u8>), CodecError>((x.spec_value(), rest)) by {
        let t4 = rest;
        let t3 = x.3.spec_encode() + t4;
        let t2 = x.2.spec_encode() + t3;
        let t1 = x.1.spec_encode() + t2;
        let t0 = x.0.spec_encode() + t1;
        assert(x.spec_encode() + rest =~= t0);
        assert(A::spec_decode(x.0.spec_encode() + t1) == Ok::<(Value, Seq<u8>), CodecError>(
            (x.0.spec_value(), t1),
        ));
        assert(B::spec_decode(x.1.spec_encode() + t2) == Ok::<(Value, Seq<u8>), CodecError>(
            (x.1.spec_value(), t2),
        ));
        assert(C::spec_decode(x.2.spec_encode() + t3) == Ok::<(Value, Seq<u8>), CodecError>(
            (x.2.spec_value(), t3),
        ));
        assert(D::spec_decode(x.3.spec_encode() + t4) == Ok::<(Value, Seq<u8>), CodecError>(
            (x.3.spec_value(), t4),
        ));
    }
}

/// 4-tuples obey the prefix law where their components do.
pub proof fn lemma_tuple4_consumes_prefix<A: Codec, B: Codec, C: Codec, D: Codec>()
    requires
        codec_consumes_prefix::<A>(),
        codec_consumes_prefix::<B>(),
        codec_consumes_prefix::<C>(),
        codec_consumes_prefix::<D>(),
    ensures
        codec_consumes_prefix::<(A, B, C, D)>(),
{
    assert forall|input: Seq<u8>| #[trigger] <(A, B, C, D)>::spec_decode(input) matches Ok((_, rest))
        ==> is_suffix(rest, input) by {
        if let Ok((v0, r1)) = A::spec_decode(input) {
            if let Ok((v1, r2)) = B::spec_decode(r1) {
                lemma_suffix_trans(r2, r1, input);
                if let Ok((v2, r3)) = C::spec_decode(r2) {
                    lemma_suffix_trans(r3, r2, input);
                    if let Ok((v3, r4)) = D::spec_decode(r3) {
                        lemma_suffix_trans(r4, r3, input);
                    }
                }
            }
        }
    }
}

impl<A: Codec, B: Codec, C: Codec, D: Codec, E: Codec> Codec for (A, B, C, D, E) {
    open spec fn obeys_codec_spec() -> bool {
        A::obeys_codec_spec() && B::obeys_codec_spec() && C::obeys_codec_spec() && D::obeys_codec_spec() && E::obeys_codec_spec()
    }

    open spec fn spec_value(&self) -> Value {
        Value::List(seq![self.0.spec_value(), self.1.spec_value(), self.2.spec_value(), self.3.spec_value(), self.4.spec_value()])
    }

    /// The components one after another.
    open spec fn spec_encode(&self) -> Seq<u8> {
        self.0.spec_encode() + self.1.spec_encode() + self.2.spec_encode() + self.3.spec_encode() + self.4.spec_encode()
    }

    open spec fn spec_decode(input: Seq<u8>) -> Result<(Value, Seq<u8>), CodecError> {
        match A::spec_decode(input) {
            Ok((v0, r1)) => {
            match B::spec_decode(r1) {
                Ok((v1, r2)) => {
                match C::spec_decode(r2) {
                    Ok((v2, r3)) => {
                    match D::spec_decode(r3) {
                        Ok((v3, r4)) => {
                        match E::spec_decode(r4) {
                            Ok((v4, r5)) => {
                            Ok((Value::List(seq![v0, v1, v2, v3, v4]), r5))
                            },
                            Err(e) => Err(e),
                        }
                        },
                        Err(e) => Err(e),
                    }
                    },
                    Err(e) => Err(e),
                }
                },
                Err(e) => Err(e),
            }
            },
            Err(e) => Err(e),
        }
    }

    open spec fn encodable(&self) -> bool {
        self.0.encodable() && self.1.encodable() && self.2.encodable() && self.3.encodable() && self.4.encodable()
    }

    fn decode(input: &[u8]) -> (r: Result<(Self, &[u8]), CodecError>) {
        let r0 = input;
        let (v0, r1) = match A::decode(r0) {
            Ok(p) => p,
            Err(e) => return Err(e),
        };
        let (v1, r2) = match B::decode(r1) {
            Ok(p) => p,
            Err(e) => return Err(e),
        };
        let (v2, r3) = match C::decode(r2) {
            Ok(p) => p,
            Err(e) => return Err(e),
        };
        let (v3, r4) = match D::decode(r3) {
            Ok(p) => p,
            Err(e) => return Err(e),
        };
        let (v4, r5) = match E::decode(r4) {
            Ok(p) => p,
            Err(e) => return Err(e),
        };
        Ok(((v0, v1, v2, v3, v4), r5))
    }

    fn encode(&self, buf: &mut Vec<u8>) {
        let ghost start = buf@;
        self.0.encode(buf);
        self.1.encode(buf);
        self.2.encode(buf);
        self.3.encode(buf);
        self.4.encode(buf);
        assert(Self::obeys_codec_spec() ==> buf@ =~= start + self.spec_encode());
    }

    fn encoded_size(&self) -> (r: usize) {
        let s0 = self.0.encoded_size();
        let s1 = self.1.encoded_size();
        let s2 = self.2.encoded_size();
        let s3 = self.3.encoded_size();
        let s4 = self.4.encoded_size();
        proof {
            lemma_capped_concat(self.0.spec_encode(), self.1.spec_encode());
            lemma_capped_concat(self.0.spec_encode() + self.1.spec_encode(), self.2.spec_encode());
            lemma_capped_concat(self.0.spec_encode() + self.1.spec_encode() + self.2.spec_encode(), self.3.spec_encode());
            lemma_capped_concat(self.0.spec_encode() + self.1.spec_encode() + self.2.spec_encode() + self.3.spec_encode(), self.4.spec_encode());
        }
        add_capped(add_capped(add_capped(add_capped(s0, s1), s2), s3), s4)
    }
}

/// 5-tuples obey the roundtrip law where their components do.
pub proof fn lemma_tuple5_roundtrip<A: Codec, B: Codec, C: Codec, D: Codec, E: Codec>()
    requires
        codec_roundtrips::<A>(),
        codec_roundtrips::<B>(),
        codec_roundtrips::<C>(),
        codec_roundtrips::<D>(),
        codec_roundtrips::<E>(),
    ensures
        codec_roundtrips::<(A, B, C, D, E)>(),
{
    assert forall|x: (A, B, C, D, E), rest: Seq<u8>| x.encodable() implies #[trigger] <(A, B, C, D, E)>::spec_decode(
        x.spec_encode() + rest,
    ) == Ok::<(Value, Seq<u8>), CodecError>((x.spec_value(), rest)) by {
        let t5 = rest;
        let t4 = x.4.spec_encode() + t5;
        let t3 = x.3.spec_encode() + t4;
        let t2 = x.2.spec_encode() + t3;
        let t1 = x.1.spec_encode() + t2;
        let t0 = x.0.spec_encode() + t1;
        assert(x.spec_encode() + rest =~= t0);
        assert(A::spec_decode(x.0.spec_encode() + t1) == Ok::<(Value, Seq<u8>), CodecError>(
            (x.0.spec_value(), t1),
        ));
        assert(B::spec_decode(x.1.spec_encode() + t2) == Ok::<(Value, Seq<u8>), CodecError>(
            (x.1.spec_value(), t2),
        ));
        assert(C::spec_decode(x.2.spec_encode() + t3) == Ok::<(Value, Seq<u8>), CodecError>(
            (x.2.spec_value(), t3),
        ));
        assert(D::spec_decode(x.3.spec_encode() + t4) == Ok::<(Value, Seq<u8>), CodecError>(
            (x.3.spec_value(), t4),
        ));
        assert(E::spec_decode(x.4.spec_encode() + t5) == Ok::<(Value, Seq<u8>), CodecError>(
            (x.4.spec_value(), t5),
        ));
    }
}

/// 5-tuples obey the prefix law where their components do.
pub proof fn lemma_tuple5_consumes_prefix<A: Codec, B: Codec, C: Codec, D: Codec, E: Codec>()
    requires
        codec_consumes_prefix::<A>(),
        codec_consumes_prefix::<B>(),
        codec_consumes_prefix::<C>(),
        codec_consumes_prefix::<D>(),
        codec_consumes_prefix::<E>(),
    ensures
        codec_consumes_prefix::<(A, B, C, D, E)>(),
{
    assert forall|input: Seq<u8>| #[trigger] <(A, B, C, D, E)>::spec_decode(input) matches Ok((_, rest))
        ==> is_suffix(rest, input) by {
        if let Ok((v0, r1)) = A::spec_decode(input) {
            if let Ok((v1, r2)) = B::spec_decode(r1) {
                lemma_suffix_trans(r2, r1, input);
                if let Ok((v2, r3)) = C::spec_decode(r2) {
                    lemma_suffix_trans(r3, r2, input);
                    if let Ok((v3, r4)) = D::spec_decode(r3) {
                        lemma_suffix_trans(r4, r3, input);
                        if let Ok((v4, r5)) = E::spec_decode(r4) {
                            lemma_suffix_trans(r5, r4, input);
                        }
                    }
                }
            }
        }
    }
}

impl<A: Codec, B: Codec, C: Codec, D: Codec, E: Codec, F: Codec> Codec for (A, B, C, D, E, F) {
    open spec fn obeys_codec_spec() -> bool {
        A::obeys_codec_spec() && B::obeys_codec_spec() && C::obeys_codec_spec() && D::obeys_codec_spec() && E::obeys_codec_spec() && F::obeys_codec_spec()
    }

    open spec fn spec_value(&self) -> Value {
        Value::List(seq![self.0.spec_value(), self.1.spec_value(), self.2.spec_value(), self.3.spec_value(), self.4.spec_value(), self.5.spec_value()])
    }

    /// The components one after another.
    open spec fn spec_encode(&self) -> Seq<u8> {
        self.0.spec_encode() + self.1.spec_encode() + self.2.spec_encode() + self.3.spec_encode() + self.4.spec_encode() + self.5.spec_encode()
    }

    open spec fn spec_decode(input: Seq<u8>) -> Result<(Value, Seq<u8>), CodecError> {
        match A::spec_decode(input) {
            Ok((v0, r1)) => {
            match B::spec_decode(r1) {
                Ok((v1, r2)) => {
                match C::spec_decode(r2) {
                    Ok((v2, r3)) => {
                    match D::spec_decode(r3) {
                        Ok((v3, r4)) => {
                        match E::spec_decode(r4) {
                            Ok((v4, r5)) => {
                            match F::spec_decode(r5) {
                                Ok((v5, r6)) => {
                                Ok((Value::List(seq![v0, v1, v2, v3, v4, v5]), r6))
                                },
                                Err(e) => Err(e),
                            }
                            },
                            Err(e) => Err(e),
                        }
                        },
                        Err(e) => Err(e),
                    }
                    },
                    Err(e) => Err(e),
                }
                },
                Err(e) => Err(e),
            }
            },
            Err(e) => Err(e),
        }
    }

    open spec fn encodable(&self) -> bool {
        self.0.encodable() && self.1.encodable() && self.2.encodable() && self.3.encodable() && self.4.encodable() && self.5.encodable()
    }

    fn decode(input: &[u8]) -> (r: Result<(Self, &[u8]), CodecError>) {
        let r0 = input;
        let (v0, r1) = match A::decode(r0) {
            Ok(p) => p,
            Err(e) => return Err(e),
        };
        let (v1, r2) = match B::decode(r1) {
            Ok(p) => p,
            Err(e) => return Err(e),
        };
        let (v2, r3) = match C::decode(r2) {
            Ok(p) => p,
            Err(e) => return Err(e),
        };
        let (v3, r4) = match D::decode(r3) {
            Ok(p) => p,
            Err(e) => return Err(e),
        };
        let (v4, r5) = match E::decode(r4) {
            Ok(p) => p,
            Err(e) => return Err(e),
        };
        let (v5, r6) = match F::decode(r5) {
            Ok(p) => p,
            Err(e) => return Err(e),
        };
        Ok(((v0, v1, v2, v3, v4, v5), r6))
    }

    fn encode(&self, buf: &mut Vec<u8>) {
        let ghost start = buf@;
        self.0.encode(buf);
        self.1.encode(buf);
        self.2.encode(buf);
        self.3.encode(buf);
        self.4.encode(buf);
        self.5.encode(buf);
        assert(Self::obeys_codec_spec() ==> buf@ =~= start + self.spec_encode());
    }

    fn encoded_size(&self) -> (r: usize) {
        let s0 = self.0.encoded_size();
        let s1 = self.1.encoded_size();
        let s2 = self.2.encoded_size();
        let s3 = self.3.encoded_size();
        let s4 = self.4.encoded_size();
        let s5 = self.5.encoded_size();
        proof {
            lemma_capped_concat(self.0.spec_encode(), self.1.spec_encode());
            lemma_capped_concat(self.0.spec_encode() + self.1.spec_encode(), self.2.spec_encode());
            lemma_capped_concat(self.0.spec_encode() + self.1.spec_encode() + self.2.spec_encode(), self.3.spec_encode());
            lemma_capped_concat(self.0.spec_encode() + self.1.spec_encode() + self.2.spec_encode() + self.3.spec_encode(), self.4.spec_encode());
            lemma_capped_concat(self.0.spec_encode() + self.1.spec_encode() + self.2.spec_encode() + self.3.spec_encode() + self.4.spec_encode(), self.5.spec_encode());
        }
        add_capped(add_capped(add_capped(add_capped(add_capped(s0, s1), s2), s3), s4), s5)
    }
}

/// 6-tuples obey the roundtrip law where their components do.
pub proof fn lemma_tuple6_roundtrip<A: Codec, B: Codec, C: Codec, D: Codec, E: Codec, F: Codec>()
    requires
        codec_roundtrips::<A>(),
        codec_roundtrips::<B>(),
        codec_roundtrips::<C>(),
        codec_roundtrips::<D>(),
        codec_roundtrips::<E>(),
        codec_roundtrips::<F>(),
    ensures
        codec_roundtrips::<(A, B, C, D, E, F)>(),
{
    assert forall|x: (A, B, C, D, E, F), rest: Seq<u8>| x.encodable() implies #[trigger] <(A, B, C, D, E, F)>::spec_decode(
        x.spec_encode() + rest,
    ) == Ok::<(Value, Seq<u8>), CodecError>((x.spec_value(), rest)) by {
        let t6 = rest;
        let t5 = x.5.spec_encode() + t6;
        let t4 = x.4.spec_encode() + t5;
        let t3 = x.3.spec_encode() + t4;
        let t2 = x.2.spec_encode() + t3;
        let t1 = x.1.spec_encode() + t2;
        let t0 = x.0.spec_encode() + t1;
        assert(x.spec_encode() + rest =~= t0);
        assert(A::spec_decode(x.0.spec_encode() + t1) == Ok::<(Value, Seq<u8>), CodecError>(
            (x.0.spec_value(), t1),
        ));
        assert(B::spec_decode(x.1.spec_encode() + t2) == Ok::<(Value, Seq<u8>), CodecError>(
            (x.1.spec_value(), t2),
        ));
        assert(C::spec_decode(x.2.spec_encode() + t3) == Ok::<(Value, Seq<u8>), CodecError>(
            (x.2.spec_value(), t3),
        ));
        assert(D::spec_decode(x.3.spec_encode() + t4) == Ok::<(Value, Seq<u8>), CodecError>(
            (x.3.spec_value(), t4),
        ));
        assert(E::spec_decode(x.4.spec_encode() + t5) == Ok::<(Value, Seq<u8>), CodecError>(
            (x.4.spec_value(), t5),
        ));
        assert(F::spec_decode(x.5.spec_encode() + t6) == Ok::<(Value, Seq<u8>), CodecError>(
            (x.5.spec_value(), t6),
        ));
    }
}

/// 6-tuples obey the prefix law where their components do.
pub proof fn lemma_tuple6_consumes_prefix<A: Codec, B: Codec, C: Codec, D: Codec, E: Codec, F: Codec>()
    requires
        codec_consumes_prefix::<A>(),
        codec_consumes_prefix::<B>(),
        codec_consumes_prefix::<C>(),
        codec_consumes_prefix::<D>(),
        codec_consumes_prefix::<E>(),
        codec_consumes_prefix::<F>(),
    ensures
        codec_consumes_prefix::<(A, B, C, D, E, F)>(),
{
    assert forall|input: Seq<u8>| #[trigger] <(A, B, C, D, E, F)>::spec_decode(input) matches Ok((_, rest))
        ==> is_suffix(rest, input) by {
        if let Ok((v0, r1)) = A::spec_decode(input) {
            if let Ok((v1, r2)) = B::spec_decode(r1) {
                lemma_suffix_trans(r2, r1, input);
                if let Ok((v2, r3)) = C::spec_decode(r2) {
                    lemma_suffix_trans(r3, r2, input);
                    if let Ok((v3, r4)) = D::spec_decode(r3) {
                        lemma_suffix_trans(r4, r3, input);
                        if let Ok((v4, r5)) = E::spec_decode(r4) {
                            lemma_suffix_trans(r5, r4, input);
                            if let Ok((v5, r6)) = F::spec_decode(r5) {
                                lemma_suffix_trans(r6, r5, input);
                            }
                        }
                    }
                }
            }
        }
    }
}

impl<A: Codec, B: Codec, C: Codec, D: Codec, E: Codec, F: Codec, G: Codec> Codec for (A, B, C, D, E, F, G) {
    open spec fn obeys_codec_spec() -> bool {
        A::obeys_codec_spec() && B::obeys_codec_spec() && C::obeys_codec_spec() && D::obeys_codec_spec() && E::obeys_codec_spec() && F::obeys_codec_spec() && G::obeys_codec_spec()
    }

    open spec fn spec_value(&self) -> Value {
        Value::List(seq![self.0.spec_value(), self.1.spec_value(), self.2.spec_value(), self.3.spec_value(), self.4.spec_value(), self.5.spec_value(), self.6.spec_value()])
    }

    /// The components one after another.
    open spec fn spec_encode(&self) -> Seq<u8> {
        self.0.spec_encode() + self.1.spec_encode() + self.2.spec_encode() + self.3.spec_encode() + self.4.spec_encode() + self.5.spec_encode() + self.6.spec_encode()
    }

    open spec fn spec_decode(input: Seq<u8>) -> Result<(Value, Seq<u8>), CodecError> {
        match A::spec_decode(input) {
            Ok((v0, r1)) => {
            match B::spec_decode(r1) {
                Ok((v1, r2)) => {
                match C::spec_decode(r2) {
                    Ok((v2, r3)) => {
                    match D::spec_decode(r3) {
                        Ok((v3, r4)) => {
                        match E::spec_decode(r4) {
                            Ok((v4, r5)) => {
                            match F::spec_decode(r5) {
                                Ok((v5, r6)) => {
                                match G::spec_decode(r6) {
                                    Ok((v6, r7)) => {
                                    Ok((Value::List(seq![v0, v1, v2, v3, v4, v5, v6]), r7))
                                    },
                                    Err(e) => Err(e),
                                }
                                },
                                Err(e) => Err(e),
                            }
                            },
                            Err(e) => Err(e),
                        }
                        },
                        Err(e) => Err(e),
                    }
                    },
                    Err(e) => Err(e),
                }
                },
                Err(e) => Err(e),
            }
            },
            Err(e) => Err(e),
        }
    }

    open spec fn encodable(&self) -> bool {
        self.0.encodable() && self.1.encodable() && self.2.encodable() && self.3.encodable() && self.4.encodable() && self.5.encodable() && self.6.encodable()
    }

    fn decode(input: &[u8]) -> (r: Result<(Self, &[u8]), CodecError>) {
        let r0 = input;
        let (v0, r1) = match A::decode(r0) {
            Ok(p) => p,
            Err(e) => return Err(e),
        };
        let (v1, r2) = match B::decode(r1) {
            Ok(p) => p,
            Err(e) => return Err(e),
        };
        let (v2, r3) = match C::decode(r2) {
            Ok(p) => p,
            Err(e) => return Err(e),
        };
        let (v3, r4) = match D::decode(r3) {
            Ok(p) => p,
            Err(e) => return Err(e),
        };
        let (v4, r5) = match E::decode(r4) {
            Ok(p) => p,
            Err(e) => return Err(e),
        };
        let (v5, r6) = match F::decode(r5) {
            Ok(p) => p,
            Err(e) => return Err(e),
        };
        let (v6, r7) = match G::decode(r6) {
            Ok(p) => p,
            Err(e) => return Err(e),
        };
        Ok(((v0, v1, v2, v3, v4, v5, v6), r7))
    }

    fn encode(&self, buf: &mut Vec<u8>) {
        let ghost start = buf@;
        self.0.encode(buf);
        self.1.encode(buf);
        self.2.encode(buf);
        self.3.encode(buf);
        self.4.encode(buf);
        self.5.encode(buf);
        self.6.encode(buf);
        assert(Self::obeys_codec_spec() ==> buf@ =~= start + self.spec_encode());
    }

    fn encoded_size(&self) -> (r: usize) {
        let s0 = self.0.encoded_size();
        let s1 = self.1.encoded_size();
        let s2 = self.2.encoded_size();
        let s3 = self.3.encoded_size();
        let s4 = self.4.encoded_size();
        let s5 = self.5.encoded_size();
        let s6 = self.6.encoded_size();
        proof {
            lemma_capped_concat(self.0.spec_encode(), self.1.spec_encode());
            lemma_capped_concat(self.0.spec_encode() + self.1.spec_encode(), self.2.spec_encode());
            lemma_capped_concat(self.0.spec_encode() + self.1.spec_encode() + self.2.spec_encode(), self.3.spec_encode());
            lemma_capped_concat(self.0.spec_encode() + self.1.spec_encode() + self.2.spec_encode() + self.3.spec_encode(), self.4.spec_encode());
            lemma_capped_concat(self.0.spec_encode() + self.1.spec_encode() + self.2.spec_encode() + self.3.spec_encode() + self.4.spec_encode(), self.5.spec_encode());
            lemma_capped_concat(self.0.spec_encode() + self.1.spec_encode() + self.2.spec_encode() + self.3.spec_encode() + self.4.spec_encode() + self.5.spec_encode(), self.6.spec_encode());
        }
        add_capped(add_capped(add_capped(add_capped(add_capped(add_capped(s0, s1), s2), s3), s4), s5), s6)
    }
}

/// 7-tuples obey the roundtrip law where their components do.
pub proof fn lemma_tuple7_roundtrip<A: Codec, B: Codec, C: Codec, D: Codec, E: Codec, F: Codec, G: Codec>()
    requires
        codec_roundtrips::<A>(),
        codec_roundtrips::<B>(),
        codec_roundtrips::<C>(),
        codec_roundtrips::<D>(),
        codec_roundtrips::<E>(),
        codec_roundtrips::<F>(),
        codec_roundtrips::<G>(),
    ensures
        codec_roundtrips::<(A, B, C, D, E, F, G)>(),
{
    assert forall|x: (A, B, C, D, E, F, G), rest: Seq<u8>| x.encodable() implies #[trigger] <(A, B, C, D, E, F, G)>::spec_decode(
        x.spec_encode() + rest,
    ) == Ok::<(Value, Seq<u8>), CodecError>((x.spec_value(), rest)) by {
        let t7 = rest;
        let t6 = x.6.spec_encode() + t7;
        let t5 = x.5.spec_encode() + t6;
        let t4 = x.4.spec_encode() + t5;
        let t3 = x.3.spec_encode() + t4;
        let t2 = x.2.spec_encode() + t3;
        let t1 = x.1.spec_encode() + t2;
        let t0 = x.0.spec_encode() + t1;
        assert(x.spec_encode() + rest =~= t0);
        assert(A::spec_decode(x.0.spec_encode() + t1) == Ok::<(Value, Seq<u8>), CodecError>(
            (x.0.spec_value(), t1),
        ));
        assert(B::spec_decode(x.1.spec_encode() + t2) == Ok::<(Value, Seq<u8>), CodecError>(
            (x.1.spec_value(), t2),
        ));
        assert(C::spec_decode(x.2.spec_encode() + t3) == Ok::<(Value, Seq<u8>), CodecError>(
            (x.2.spec_value(), t3),
        ));
        assert(D::spec_decode(x.3.spec_encode() + t4) == Ok::<(Value, Seq<u8>), CodecError>(
            (x.3.spec_value(), t4),
        ));
        assert(E::spec_decode(x.4.spec_encode() + t5) == Ok::<(Value, Seq<u8>), CodecError>(
            (x.4.spec_value(), t5),
        ));
        assert(F::spec_decode(x.5.spec_encode() + t6) == Ok::<(Value, Seq<u8>), CodecError>(
            (x.5.spec_value(), t6),
        ));
        assert(G::spec_decode(x.6.spec_encode() + t7) == Ok::<(Value, Seq<u8>), CodecError>(
            (x.6.spec_value(), t7),
        ));
    }
}

/// 7-tuples obey the prefix law where their components do.
pub proof fn lemma_tuple7_consumes_prefix<A: Codec, B: Codec, C: Codec, D: Codec, E: Codec, F: Codec, G: Codec>()
    requires
        codec_consumes_prefix::<A>(),
        codec_consumes_prefix::<B>(),
        codec_consumes_prefix::<C>(),
        codec_consumes_prefix::<D>(),
        codec_consumes_prefix::<E>(),
        codec_consumes_prefix::<F>(),
        codec_consumes_prefix::<G>(),
    ensures
        codec_consumes_prefix::<(A, B, C, D, E, F, G)>(),
{
    assert forall|input: Seq<u8>| #[trigger] <(A, B, C, D, E, F, G)>::spec_decode(input) matches Ok((_, rest))
        ==> is_suffix(rest, input) by {
        if let Ok((v0, r1)) = A::spec_decode(input) {
            if let Ok((v1, r2)) = B::spec_decode(r1) {
                lemma_suffix_trans(r2, r1, input);
                if let Ok((v2, r3)) = C::spec_decode(r2) {
                    lemma_suffix_trans(r3, r2, input);
                    if let Ok((v3, r4)) = D::spec_decode(r3) {
                        lemma_suffix_trans(r4, r3, input);
                        if let Ok((v4, r5)) = E::spec_decode(r4) {
                            lemma_suffix_trans(r5, r4, input);
                            if let Ok((v5, r6)) = F::spec_decode(r5) {
                                lemma_suffix_trans(r6, r5, input);
                                if let Ok((v6, r7)) = G::spec_decode(r6) {
                                    lemma_suffix_trans(r7, r6, input);
                                }
                            }
                        }
                    }
                }
            }
        }
    }
}

impl<A: Codec, B: Codec, C: Codec, D: Codec, E: Codec, F: Codec, G: Codec, H: Codec> Codec for (A, B, C, D, E, F, G, H) {
    open spec fn obeys_codec_spec() -> bool {
        A::obeys_codec_spec() && B::obeys_codec_spec() && C::obeys_codec_spec() && D::obeys_codec_spec() && E::obeys_codec_spec() && F::obeys_codec_spec() && G::obeys_codec_spec() && H::obeys_codec_spec()
    }

    open spec fn spec_value(&self) -> Value {
        Value::List(seq![self.0.spec_value(), self.1.spec_value(), self.2.spec_value(), self.3.spec_value(), self.4.spec_value(), self.5.spec_value(), self.6.spec_value(), self.7.spec_value()])
    }

    /// The components one after another.
    open spec fn spec_encode(&self) -> Seq<u8> {
        self.0.spec_encode() + self.1.spec_encode() + self.2.spec_encode() + self.3.spec_encode() + self.4.spec_encode() + self.5.spec_encode() + self.6.spec_encode() + self.7.spec_encode()
    }

    open spec fn spec_decode(input: Seq<u8>) -> Result<(Value, Seq<u8>), CodecError> {
        match A::spec_decode(input) {
            Ok((v0, r1)) => {
            match B::spec_decode(r1) {
                Ok((v1, r2)) => {
                match C::spec_decode(r2) {
                    Ok((v2, r3)) => {
                    match D::spec_decode(r3) {
                        Ok((v3, r4)) => {
                        match E::spec_decode(r4) {
                            Ok((v4, r5)) => {
                            match F::spec_decode(r5) {
                                Ok((v5, r6)) => {
                                match G::spec_decode(r6) {
                                    Ok((v6, r7)) => {
                                    match H::spec_decode(r7) {
                                        Ok((v7, r8)) => {
                                        Ok((Value::List(seq![v0, v1, v2, v3, v4, v5, v6, v7]), r8))
                                        },
                                        Err(e) => Err(e),
                                    }
                                    },
                                    Err(e) => Err(e),
                                }
                                },
                                Err(e) => Err(e),
                            }
                            },
                            Err(e) => Err(e),
                        }
                        },
                        Err(e) => Err(e),
                    }
                    },
                    Err(e) => Err(e),
                }
                },
                Err(e) => Err(e),
            }
            },
            Err(e) => Err(e),
        }
    }

    open spec fn encodable(&self) -> bool {
        self.0.encodable() && self.1.encodable() && self.2.encodable() && self.3.encodable() && self.4.encodable() && self.5.encodable() && self.6.encodable() && self.7.encodable()
    }

    fn decode(input: &[u8]) -> (r: Result<(Self, &[u8]), CodecError>) {
        let r0 = input;
        let (v0, r1) = match A::decode(r0) {
            Ok(p) => p,
            Err(e) => return Err(e),
        };
        let (v1, r2) = match B::decode(r1) {
            Ok(p) => p,
            Err(e) => return Err(e),
        };
        let (v2, r3) = match C::decode(r2) {
            Ok(p) => p,
            Err(e) => return Err(e),
        };
        let (v3, r4) = match D::decode(r3) {
            Ok(p) => p,
            Err(e) => return Err(e),
        };
        let (v4, r5) = match E::decode(r4) {
            Ok(p) => p,
            Err(e) => return Err(e),
        };
        let (v5, r6) = match F::decode(r5) {
            Ok(p) => p,
            Err(e) => return Err(e),
        };
        let (v6, r7) = match G::decode(r6) {
            Ok(p) => p,
            Err(e) => return Err(e),
        };
        let (v7, r8) = match H::decode(r7) {
            Ok(p) => p,
            Err(e) => return Err(e),
        };
        Ok(((v0, v1, v2, v3, v4, v5, v6, v7), r8))
    }

    fn encode(&self, buf: &mut Vec<u8>) {
        let ghost start = buf@;
        self.0.encode(buf);
        self.1.encode(buf);
        self.2.encode(buf);
        self.3.encode(buf);
        self.4.encode(buf);
        self.5.encode(buf);
        self.6.encode(buf);
        self.7.encode(buf);
        assert(Self::obeys_codec_spec() ==> buf@ =~= start + self.spec_encode());
    }

    fn encoded_size(&self) -> (r: usize) {
        let s0 = self.0.encoded_size();
        let s1 = self.1.encoded_size();
        let s2 = self.2.encoded_size();
        let s3 = self.3.encoded_size();
        let s4 = self.4.encoded_size();
        let s5 = self.5.encoded_size();
        let s6 = self.6.encoded_size();
        let s7 = self.7.encoded_size();
        proof {
            lemma_capped_concat(self.0.spec_encode(), self.1.spec_encode());
            lemma_capped_concat(self.0.spec_encode() + self.1.spec_encode(), self.2.spec_encode());
            lemma_capped_concat(self.0.spec_encode() + self.1.spec_encode() + self.2.spec_encode(), self.3.spec_encode());
            lemma_capped_concat(self.0.spec_encode() + self.1.spec_encode() + self.2.spec_encode() + self.3.spec_encode(), self.4.spec_encode());
            lemma_capped_concat(self.0.spec_encode() + self.1.spec_encode() + self.2.spec_encode() + self.3.spec_encode() + self.4.spec_encode(), self.5.spec_encode());
            lemma_capped_concat(self.0.spec_encode() + self.1.spec_encode() + self.2.spec_encode() + self.3.spec_encode() + self.4.spec_encode() + self.5.spec_encode(), self.6.spec_encode());
            lemma_capped_concat(self.0.spec_encode() + self.1.spec_encode() + self.2.spec_encode() + self.3.spec_encode() + self.4.spec_encode() + self.5.spec_encode() + self.6.spec_encode(), self.7.spec_encode());
        }
        add_capped(add_capped(add_capped(add_capped(add_capped(add_capped(add_capped(s0, s1), s2), s3), s4), s5), s6), s7)
    }
}

/// 8-tuples obey the roundtrip law where their components do.
pub proof fn lemma_tuple8_roundtrip<A: Codec, B: Codec, C: Codec, D: Codec, E: Codec, F: Codec, G: Codec, H: Codec>()
    requires
        codec_roundtrips::<A>(),
        codec_roundtrips::<B>(),
        codec_roundtrips::<C>(),
        codec_roundtrips::<D>(),
        codec_roundtrips::<E>(),
        codec_roundtrips::<F>(),
        codec_roundtrips::<G>(),
        codec_roundtrips::<H>(),
    ensures
        codec_roundtrips::<(A, B, C, D, E, F, G, H)>(),
{
    assert forall|x: (A, B, C, D, E, F, G, H), rest: Seq<u8>| x.encodable() implies #[trigger] <(A, B, C, D, E, F, G, H)>::spec_decode(
        x.spec_encode() + rest,
    ) == Ok::<(Value, Seq<u8>), CodecError>((x.spec_value(), rest)) by {
        let t8 = rest;
        let t7 = x.7.spec_encode() + t8;
        let t6 = x.6.spec_encode() + t7;
        let t5 = x.5.spec_encode() + t6;
        let t4 = x.4.spec_encode() + t5;
        let t3 = x.3.spec_encode() + t4;
        let t2 = x.2.spec_encode() + t3;
        let t1 = x.1.spec_encode() + t2;
        let t0 = x.0.spec_encode() + t1;
        assert(x.spec_encode() + rest =~= t0);
        assert(A::spec_decode(x.0.spec_encode() + t1) == Ok::<(Value, Seq<u8>), CodecError>(
            (x.0.spec_value(), t1),
        ));
        assert(B::spec_decode(x.1.spec_encode() + t2) == Ok::<(Value, Seq<u8>), CodecError>(
            (x.1.spec_value(), t2),
        ));
        assert(C::spec_decode(x.2.spec_encode() + t3) == Ok::<(Value, Seq<u8>), CodecError>(
            (x.2.spec_value(), t3),
        ));
        assert(D::spec_decode(x.3.spec_encode() + t4) == Ok::<(Value, Seq<u8>), CodecError>(
            (x.3.spec_value(), t4),
        ));
        assert(E::spec_decode(x.4.spec_encode() + t5) == Ok::<(Value, Seq<u8>), CodecError>(
            (x.4.spec_value(), t5),
        ));
        assert(F::spec_decode(x.5.spec_encode() + t6) == Ok::<(Value, Seq<u8>), CodecError>(
            (x.5.spec_value(), t6),
        ));
        assert(G::spec_decode(x.6.spec_encode() + t7) == Ok::<(Value, Seq<u8>), CodecError>(
            (x.6.spec_value(), t7),
        ));
        assert(H::spec_decode(x.7.spec_encode() + t8) == Ok::<(Value, Seq<u8>), CodecError>(
            (x.7.spec_value(), t8),
        ));
    }
}

/// 8-tuples obey the prefix law where their components do.
pub proof fn lemma_tuple8_consumes_prefix<A: Codec, B: Codec, C: Codec, D: Codec, E: Codec, F: Codec, G: Codec, H: Codec>()
    requires
        codec_consumes_prefix::<A>(),
        codec_consumes_prefix::<B>(),
        codec_consumes_prefix::<C>(),
        codec_consumes_prefix::<D>(),
        codec_consumes_prefix::<E>(),
        codec_consumes_prefix::<F>(),
        codec_consumes_prefix::<G>(),
        codec_consumes_prefix::<H>(),
    ensures
        codec_consumes_prefix::<(A, B, C, D, E, F, G, H)>(),
{
    assert forall|input: Seq<u8>| #[trigger] <(A, B, C, D, E, F, G, H)>::spec_decode(input) matches Ok((_, rest))
        ==> is_suffix(rest, input) by {
        if let Ok((v0, r1)) = A::spec_decode(input) {
            if let Ok((v1, r2)) = B::spec_decode(r1) {
                lemma_suffix_trans(r2, r1, input);
                if let Ok((v2, r3)) = C::spec_decode(r2) {
                    lemma_suffix_trans(r3, r2, input);
                    if let Ok((v3, r4)) = D::spec_decode(r3) {
                        lemma_suffix_trans(r4, r3, input);
                        if let Ok((v4, r5)) = E::spec_decode(r4) {
                            lemma_suffix_trans(r5, r4, input);
                            if let Ok((v5, r6)) = F::spec_decode(r5) {
                                lemma_suffix_trans(r6, r5, input);
                                if let Ok((v6, r7)) = G::spec_decode(r6) {
                                    lemma_suffix_trans(r7, r6, input);
                                    if let Ok((v7, r8)) = H::spec_decode(r7) {
                                        lemma_suffix_trans(r8, r7, input);
                                    }
                                }
                            }
                        }
                    }
                }
            }
        }
    }
}

/// What decoding `count` elements gives, as one list value.
pub open spec fn items_as_list(r: Result<(Seq<Value>, Seq<u8>), CodecError>) -> Result<
    (Value, Seq<u8>),
    CodecError,
> {
    match r {
        Ok((vs, rest)) => Ok((Value::List(vs), rest)),
        Err(e) => Err(e),
    }
}

/// A 2-tuple of one type is laid out as that many elements of the type:
/// it writes its components' encodings in order, one after another, and
/// reads them back in the same order, as a list of 2 values.
pub proof fn lemma_tuple2_in_order<T: Codec>(x: (T, T), input: Seq<u8>)
    ensures
        x.spec_encode() == encode_items(seq![x.0, x.1]),
        <(T, T)>::spec_decode(input) == items_as_list(decode_items::<T>(input, 2)),
{
    assert(seq![x.0].drop_last() =~= Seq::<T>::empty());
    assert(seq![x.0].last() == x.0);
    assert(encode_items(seq![x.0]) == encode_items(seq![x.0].drop_last()) + x.0.spec_encode());
    assert(seq![x.0, x.1].drop_last() =~= seq![x.0]);
    assert(seq![x.0, x.1].last() == x.1);
    assert(encode_items(seq![x.0, x.1]) == encode_items(seq![x.0, x.1].drop_last()) + x.1.spec_encode());
    assert(encode_items(seq![x.0, x.1]) =~= x.0.spec_encode() + x.1.spec_encode());
    reveal_with_fuel(decode_items, 3);
    match T::spec_decode(input) {
        Ok((v0, r1)) => {
            assert(Seq::<Value>::empty().push(v0) =~= seq![v0]);
            assert(decode_items::<T>(input, 1) == Ok::<(Seq<Value>, Seq<u8>), CodecError>((seq![v0], r1)));
            match T::spec_decode(r1) {
                Ok((v1, r2)) => {
                    assert(seq![v0].push(v1) =~= seq![v0, v1]);
                    assert(decode_items::<T>(input, 2) == Ok::<(Seq<Value>, Seq<u8>), CodecError>((seq![v0, v1], r2)));
                },
                Err(e) => {
                    assert(decode_items::<T>(input, 2) is Err);
                    lemma_decode_items_error_persists::<T>(input, 2, 2);
                },
            }
        },
        Err(e) => {
            assert(decode_items::<T>(input, 1) is Err);
            lemma_decode_items_error_persists::<T>(input, 1, 2);
        },
    }
}

/// A 3-tuple of one type is laid out as that many elements of the type:
/// it writes its components' encodings in order, one after another, and
/// reads them back in the same order, as a list of 3 values.
pub proof fn lemma_tuple3_in_order<T: Codec>(x: (T, T, T), input: Seq<u8>)
    ensures
        x.spec_encode() == encode_items(seq![x.0, x.1, x.2]),
        <(T, T, T)>::spec_decode(input) == items_as_list(decode_items::<T>(input, 3)),
{
    assert(seq![x.0].drop_last() =~= Seq::<T>::empty());
    assert(seq![x.0].last() == x.0);
    assert(encode_items(seq![x.0]) == encode_items(seq![x.0].drop_last()) + x.0.spec_encode());
    assert(seq![x.0, x.1].drop_last() =~= seq![x.0]);
    assert(seq![x.0, x.1].last() == x.1);
    assert(encode_items(seq![x.0, x.1]) == encode_items(seq![x.0, x.1].drop_last()) + x.1.spec_encode());
    assert(seq![x.0, x.1, x.2].drop_last() =~= seq![x.0, x.1]);
    assert(seq![x.0, x.1, x.2].last() == x.2);
    assert(encode_items(seq![x.0, x.1, x.2]) == encode_items(seq![x.0, x.1, x.2].drop_last()) + x.2.spec_encode());
    assert(encode_items(seq![x.0, x.1, x.2]) =~= x.0.spec_encode() + x.1.spec_encode() + x.2.spec_encode());
    reveal_with_fuel(decode_items, 4);
    match T::spec_decode(input) {
        Ok((v0, r1)) => {
            assert(Seq::<Value>::empty().push(v0) =~= seq![v0]);
            assert(decode_items::<T>(input, 1) == Ok::<(Seq<Value>, Seq<u8>), CodecError>((seq![v0], r1)));
            match T::spec_decode(r1) {
                Ok((v1, r2)) => {
                    assert(seq![v0].push(v1) =~= seq![v0, v1]);
                    assert(decode_items::<T>(input, 2) == Ok::<(Seq<Value>, Seq<u8>), CodecError>((seq![v0, v1], r2)));
                    match T::spec_decode(r2) {
                        Ok((v2, r3)) => {
                            assert(seq![v0, v1].push(v2) =~= seq![v0, v1, v2]);
                            assert(decode_items::<T>(input, 3) == Ok::<(Seq<Value>, Seq<u8>), CodecError>((seq![v0, v1, v2], r3)));
                        },
                        Err(e) => {
                            assert(decode_items::<T>(input, 3) is Err);
                            lemma_decode_items_error_persists::<T>(input, 3, 3);
                        },
                    }
                },
                Err(e) => {
                    assert(decode_items::<T>(input, 2) is Err);
                    lemma_decode_items_error_persists::<T>(input, 2, 3);
                },
            }
        },
        Err(e) => {
            assert(decode_items::<T>(input, 1) is Err);
            lemma_decode_items_error_persists::<T>(input, 1, 3);
        },
    }
}

/// A 4-tuple of one type is laid out as that many elements of the type:
/// it writes its components' encodings in order, one after another, and
/// reads them back in the same order, as a list of 4 values.
pub proof fn lemma_tuple4_in_order<T: Codec>(x: (T, T, T, T), input: Seq<u8>)
    ensures
        x.spec_encode() == encode_items(seq![x.0, x.1, x.2, x.3]),
        <(T, T, T, T)>::spec_decode(input) == items_as_list(decode_items::<T>(input, 4)),
{
    assert(seq![x.0].drop_last() =~= Seq::<T>::empty());
    assert(seq![x.0].last() == x.0);
    assert(encode_items(seq![x.0]) == encode_items(seq![x.0].drop_last()) + x.0.spec_encode());
    assert(seq![x.0, x.1].drop_last() =~= seq![x.0]);
    assert(seq![x.0, x.1].last() == x.1);
    assert(encode_items(seq![x.0, x.1]) == encode_items(seq![x.0, x.1].drop_last()) + x.1.spec_encode());
    assert(seq![x.0, x.1, x.2].drop_last() =~= seq![x.0, x.1]);
    assert(seq![x.0, x.1, x.2].last() == x.2);
    assert(encode_items(seq![x.0, x.1, x.2]) == encode_items(seq![x.0, x.1, x.2].drop_last()) + x.2.spec_encode());
    assert(seq![x.0, x.1, x.2, x.3].drop_last() =~= seq![x.0, x.1, x.2]);
    assert(seq![x.0, x.1, x.2, x.3].last() == x.3);
    assert(encode_items(seq![x.0, x.1, x.2, x.3]) == encode_items(seq![x.0, x.1, x.2, x.3].drop_last()) + x.3.spec_encode());
    assert(encode_items(seq![x.0, x.1, x.2, x.3]) =~= x.0.spec_encode() + x.1.spec_encode() + x.2.spec_encode() + x.3.spec_encode());
    reveal_with_fuel(decode_items, 5);
    match T::spec_decode(input) {
        Ok((v0, r1)) => {
            assert(Seq::<Value>::empty().push(v0) =~= seq![v0]);
            assert(decode_items::<T>(input, 1) == Ok::<(Seq<Value>, Seq<u8>), CodecError>((seq![v0], r1)));
            match T::spec_decode(r1) {
                Ok((v1, r2)) => {
                    assert(seq![v0].push(v1) =~= seq![v0, v1]);
                    assert(decode_items::<T>(input, 2) == Ok::<(Seq<Value>, Seq<u8>), CodecError>((seq![v0, v1], r2)));
                    match T::spec_decode(r2) {
                        Ok((v2, r3)) => {
                            assert(seq![v0, v1].push(v2) =~= seq![v0, v1, v2]);
                            assert(decode_items::<T>(input, 3) == Ok::<(Seq<Value>, Seq<u8>), CodecError>((seq![v0, v1, v2], r3)));
                            match T::spec_decode(r3) {
                                Ok((v3, r4)) => {
                                    assert(seq![v0, v1, v2].push(v3) =~= seq![v0, v1, v2, v3]);
                                    assert(decode_items::<T>(input, 4) == Ok::<(Seq<Value>, Seq<u8>), CodecError>((seq![v0, v1, v2, v3], r4)));
                                },
                                Err(e) => {
                                    assert(decode_items::<T>(input, 4) is Err);
                                    lemma_decode_items_error_persists::<T>(input, 4, 4);
                                },
                            }
                        },
                        Err(e) => {
                            assert(decode_items::<T>(input, 3) is Err);
                            lemma_decode_items_error_persists::<T>(input, 3, 4);
                        },
                    }
                },
                Err(e) => {
                    assert(decode_items::<T>(input, 2) is Err);
                    lemma_decode_items_error_persists::<T>(input, 2, 4);
                },
            }
        },
        Err(e) => {
            assert(decode_items::<T>(input, 1) is Err);
            lemma_decode_items_error_persists::<T>(input, 1, 4);
        },
    }
}

/// A 5-tuple of one type is laid out as that many elements of the type:
/// it writes its components' encodings in order, one after another, and
/// reads them back in the same order, as a list of 5 values.
pub proof fn lemma_tuple5_in_order<T: Codec>(x: (T, T, T, T, T), input: Seq<u8>)
    ensures
        x.spec_encode() == encode_items(seq![x.0, x.1, x.2, x.3, x.4]),
        <(T, T, T, T, T)>::spec_decode(input) == items_as_list(decode_items::<T>(input, 5)),
{
    assert(seq![x.0].drop_last() =~= Seq::<T>::empty());
    assert(seq![x.0].last() == x.0);
    assert(encode_items(seq![x.0]) == encode_items(seq![x.0].drop_last()) + x.0.spec_encode());
    assert(seq![x.0, x.1].drop_last() =~= seq![x.0]);
    assert(seq![x.0, x.1].last() == x.1);
    assert(encode_items(seq![x.0, x.1]) == encode_items(seq![x.0, x.1].drop_last()) + x.1.spec_encode());
    assert(seq![x.0, x.1, x.2].drop_last() =~= seq![x.0, x.1]);
    assert(seq![x.0, x.1, x.2].last() == x.2);
    assert(encode_items(seq![x.0, x.1, x.2]) == encode_items(seq![x.0, x.1, x.2].drop_last()) + x.2.spec_encode());
    assert(seq![x.0, x.1, x.2, x.3].drop_last() =~= seq![x.0, x.1, x.2]);
    assert(seq![x.0, x.1, x.2, x.3].last() == x.3);
    assert(encode_items(seq![x.0, x.1, x.2, x.3]) == encode_items(seq![x.0, x.1, x.2, x.3].drop_last()) + x.3.spec_encode());
    assert(seq![x.0, x.1, x.2, x.3, x.4].drop_last() =~= seq![x.0, x.1, x.2, x.3]);
    assert(seq![x.0, x.1, x.2, x.3, x.4].last() == x.4);
    assert(encode_items(seq![x.0, x.1, x.2, x.3, x.4]) == encode_items(seq![x.0, x.1, x.2, x.3, x.4].drop_last()) + x.4.spec_encode());
    assert(encode_items(seq![x.0, x.1, x.2, x.3, x.4]) =~= x.0.spec_encode() + x.1.spec_encode() + x.2.spec_encode() + x.3.spec_encode() + x.4.spec_encode());
    reveal_with_fuel(decode_items, 6);
    match T::spec_decode(input) {
        Ok((v0, r1)) => {
            assert(Seq::<Value>::empty().push(v0) =~= seq![v0]);
            assert(decode_items::<T>(input, 1) == Ok::<(Seq<Value>, Seq<u8>), CodecError>((seq![v0], r1)));
            match T::spec_decode(r1) {
                Ok((v1, r2)) => {
                    assert(seq![v0].push(v1) =~= seq![v0, v1]);
                    assert(decode_items::<T>(input, 2) == Ok::<(Seq<Value>, Seq<u8>), CodecError>((seq![v0, v1], r2)));
                    match T::spec_decode(r2) {
                        Ok((v2, r3)) => {
                            assert(seq![v0, v1].push(v2) =~= seq![v0, v1, v2]);
                            assert(decode_items::<T>(input, 3) == Ok::<(Seq<Value>, Seq<u8>), CodecError>((seq![v0, v1, v2], r3)));
                            match T::spec_decode(r3) {
                                Ok((v3, r4)) => {
                                    assert(seq![v0, v1, v2].push(v3) =~= seq![v0, v1, v2, v3]);
                                    assert(decode_items::<T>(input, 4) == Ok::<(Seq<Value>, Seq<u8>), CodecError>((seq![v0, v1, v2, v3], r4)));
                                    match T::spec_decode(r4) {
                                        Ok((v4, r5)) => {
                                            assert(seq![v0, v1, v2, v3].push(v4) =~= seq![v0, v1, v2, v3, v4]);
                                            assert(decode_items::<T>(input, 5) == Ok::<(Seq<Value>, Seq<u8>), CodecError>((seq![v0, v1, v2, v3, v4], r5)));
                                        },
                                        Err(e) => {
                                            assert(decode_items::<T>(input, 5) is Err);
                                            lemma_decode_items_error_persists::<T>(input, 5, 5);
                                        },
                                    }
                                },
                                Err(e) => {
                                    assert(decode_items::<T>(input, 4) is Err);
                                    lemma_decode_items_error_persists::<T>(input, 4, 5);
                                },
                            }
                        },
                        Err(e) => {
                            assert(decode_items::<T>(input, 3) is Err);
                            lemma_decode_items_error_persists::<T>(input, 3, 5);
                        },
                    }
                },
                Err(e) => {
                    assert(decode_items::<T>(input, 2) is Err);
                    lemma_decode_items_error_persists::<T>(input, 2, 5);
                },
            }
        },
        Err(e) => {
            assert(decode_items::<T>(input, 1) is Err);
            lemma_decode_items_error_persists::<T>(input, 1, 5);
        },
    }
}

/// A 6-tuple of one type is laid out as that many elements of the type:
/// it writes its components' encodings in order, one after another, and
/// reads them back in the same order, as a list of 6 values.
pub proof fn lemma_tuple6_in_order<T: Codec>(x: (T, T, T, T, T, T), input: Seq<u8>)
    ensures
        x.spec_encode() == encode_items(seq![x.0, x.1, x.2, x.3, x.4, x.5]),
        <(T, T, T, T, T, T)>::spec_decode(input) == items_as_list(decode_items::<T>(input, 6)),
{
    assert(seq![x.0].drop_last() =~= Seq::<T>::empty());
    assert(seq![x.0].last() == x.0);
    assert(encode_items(seq![x.0]) == encode_items(seq![x.0].drop_last()) + x.0.spec_encode());
    assert(seq![x.0, x.1].drop_last() =~= seq![x.0]);
    assert(seq![x.0, x.1].last() == x.1);
    assert(encode_items(seq![x.0, x.1]) == encode_items(seq![x.0, x.1].drop_last()) + x.1.spec_encode());
    assert(seq![x.0, x.1, x.2].drop_last() =~= seq![x.0, x.1]);
    assert(seq![x.0, x.1, x.2].last() == x.2);
    assert(encode_items(seq![x.0, x.1, x.2]) == encode_items(seq![x.0, x.1, x.2].drop_last()) + x.2.spec_encode());
    assert(seq![x.0, x.1, x.2, x.3].drop_last() =~= seq![x.0, x.1, x.2]);
    assert(seq![x.0, x.1, x.2, x.3].last() == x.3);
    assert(encode_items(seq![x.0, x.1, x.2, x.3]) == encode_items(seq![x.0, x.1, x.2, x.3].drop_last()) + x.3.spec_encode());
    assert(seq![x.0, x.1, x.2, x.3, x.4].drop_last() =~= seq![x.0, x.1, x.2, x.3]);
    assert(seq![x.0, x.1, x.2, x.3, x.4].last() == x.4);
    assert(encode_items(seq![x.0, x.1, x.2, x.3, x.4]) == encode_items(seq![x.0, x.1, x.2, x.3, x.4].drop_last()) + x.4.spec_encode());
    assert(seq![x.0, x.1, x.2, x.3, x.4, x.5].drop_last() =~= seq![x.0, x.1, x.2, x.3, x.4]);
    assert(seq![x.0, x.1, x.2, x.3, x.4, x.5].last() == x.5);
    assert(encode_items(seq![x.0, x.1, x.2, x.3, x.4, x.5]) == encode_items(seq![x.0, x.1, x.2, x.3, x.4, x.5].drop_last()) + x.5.spec_encode());
    assert(encode_items(seq![x.0, x.1, x.2, x.3, x.4, x.5]) =~= x.0.spec_encode() + x.1.spec_encode() + x.2.spec_encode() + x.3.spec_encode() + x.4.spec_encode() + x.5.spec_encode());
    reveal_with_fuel(decode_items, 7);
    match T::spec_decode(input) {
        Ok((v0, r1)) => {
            assert(Seq::<Value>::empty().push(v0) =~= seq![v0]);
            assert(decode_items::<T>(input, 1) == Ok::<(Seq<Value>, Seq<u8>), CodecError>((seq![v0], r1)));
            match T::spec_decode(r1) {
                Ok((v1, r2)) => {
                    assert(seq![v0].push(v1) =~= seq![v0, v1]);
                    assert(decode_items::<T>(input, 2) == Ok::<(Seq<Value>, Seq<u8>), CodecError>((seq![v0, v1], r2)));
                    match T::spec_decode(r2) {
                        Ok((v2, r3)) => {
                            assert(seq![v0, v1].push(v2) =~= seq![v0, v1, v2]);
                            assert(decode_items::<T>(input, 3) == Ok::<(Seq<Value>, Seq<u8>), CodecError>((seq![v0, v1, v2], r3)));
                            match T::spec_decode(r3) {
                                Ok((v3, r4)) => {
                                    assert(seq![v0, v1, v2].push(v3) =~= seq![v0, v1, v2, v3]);
                                    assert(decode_items::<T>(input, 4) == Ok::<(Seq<Value>, Seq<u8>), CodecError>((seq![v0, v1, v2, v3], r4)));
                                    match T::spec_decode(r4) {
                                        Ok((v4, r5)) => {
                                            assert(seq![v0, v1, v2, v3].push(v4) =~= seq![v0, v1, v2, v3, v4]);
                                            assert(decode_items::<T>(input, 5) == Ok::<(Seq<Value>, Seq<u8>), CodecError>((seq![v0, v1, v2, v3, v4], r5)));
                                            match T::spec_decode(r5) {
                                                Ok((v5, r6)) => {
                                                    assert(seq![v0, v1, v2, v3, v4].push(v5) =~= seq![v0, v1, v2, v3, v4, v5]);
                                                    assert(decode_items::<T>(input, 6) == Ok::<(Seq<Value>, Seq<u8>), CodecError>((seq![v0, v1, v2, v3, v4, v5], r6)));
                                                },
                                                Err(e) => {
                                                    assert(decode_items::<T>(input, 6) is Err);
                                                    lemma_decode_items_error_persists::<T>(input, 6, 6);
                                                },
                                            }
                                        },
                                        Err(e) => {
                                            assert(decode_items::<T>(input, 5) is Err);
                                            lemma_decode_items_error_persists::<T>(input, 5, 6);
                                        },
                                    }
                                },
                                Err(e) => {
                                    assert(decode_items::<T>(input, 4) is Err);
                                    lemma_decode_items_error_persists::<T>(input, 4, 6);
                                },
                            }
                        },
                        Err(e) => {
                            assert(decode_items::<T>(input, 3) is Err);
                            lemma_decode_items_error_persists::<T>(input, 3, 6);
                        },
                    }
                },
                Err(e) => {
                    assert(decode_items::<T>(input, 2) is Err);
                    lemma_decode_items_error_persists::<T>(input, 2, 6);
                },
            }
        },
        Err(e) => {
            assert(decode_items::<T>(input, 1) is Err);
            lemma_decode_items_error_persists::<T>(input, 1, 6);
        },
    }
}

/// A 7-tuple of one type is laid out as that many elements of the type:
/// it writes its components' encodings in order, one after another, and
/// reads them back in the same order, as a list of 7 values.
pub proof fn lemma_tuple7_in_order<T: Codec>(x: (T, T, T, T, T, T, T), input: Seq<u8>)
    ensures
        x.spec_encode() == encode_items(seq![x.0, x.1, x.2, x.3, x.4, x.5, x.6]),
        <(T, T, T, T, T, T, T)>::spec_decode(input) == items_as_list(decode_items::<T>(input, 7)),
{
    assert(seq![x.0].drop_last() =~= Seq::<T>::empty());
    assert(seq![x.0].last() == x.0);
    assert(encode_items(seq![x.0]) == encode_items(seq![x.0].drop_last()) + x.0.spec_encode());
    assert(seq![x.0, x.1].drop_last() =~= seq![x.0]);
    assert(seq![x.0, x.1].last() == x.1);
    assert(encode_items(seq![x.0, x.1]) == encode_items(seq![x.0, x.1].drop_last()) + x.1.spec_encode());
    assert(seq![x.0, x.1, x.2].drop_last() =~= seq![x.0, x.1]);
    assert(seq![x.0, x.1, x.2].last() == x.2);
    assert(encode_items(seq![x.0, x.1, x.2]) == encode_items(seq![x.0, x.1, x.2].drop_last()) + x.2.spec_encode());
    assert(seq![x.0, x.1, x.2, x.3].drop_last() =~= seq![x.0, x.1, x.2]);
    assert(seq![x.0, x.1, x.2, x.3].last() == x.3);
    assert(encode_items(seq![x.0, x.1, x.2, x.3]) == encode_items(seq![x.0, x.1, x.2, x.3].drop_last()) + x.3.spec_encode());
    assert(seq![x.0, x.1, x.2, x.3, x.4].drop_last() =~= seq![x.0, x.1, x.2, x.3]);
    assert(seq![x.0, x.1, x.2, x.3, x.4].last() == x.4);
    assert(encode_items(seq![x.0, x.1, x.2, x.3, x.4]) == encode_items(seq![x.0, x.1, x.2, x.3, x.4].drop_last()) + x.4.spec_encode());
    assert(seq![x.0, x.1, x.2, x.3, x.4, x.5].drop_last() =~= seq![x.0, x.1, x.2, x.3, x.4]);
    assert(seq![x.0, x.1, x.2, x.3, x.4, x.5].last() == x.5);
    assert(encode_items(seq![x.0, x.1, x.2, x.3, x.4, x.5]) == encode_items(seq![x.0, x.1, x.2, x.3, x.4, x.5].drop_last()) + x.5.spec_encode());
    assert(seq![x.0, x.1, x.2, x.3, x.4, x.5, x.6].drop_last() =~= seq![x.0, x.1, x.2, x.3, x.4, x.5]);
    assert(seq![x.0, x.1, x.2, x.3, x.4, x.5, x.6].last() == x.6);
    assert(encode_items(seq![x.0, x.1, x.2, x.3, x.4, x.5, x.6]) == encode_items(seq![x.0, x.1, x.2, x.3, x.4, x.5, x.6].drop_last()) + x.6.spec_encode());
    assert(encode_items(seq![x.0, x.1, x.2, x.3, x.4, x.5, x.6]) =~= x.0.spec_encode() + x.1.spec_encode() + x.2.spec_encode() + x.3.spec_encode() + x.4.spec_encode() + x.5.spec_encode() + x.6.spec_encode());
    reveal_with_fuel(decode_items, 8);
    match T::spec_decode(input) {
        Ok((v0, r1)) => {
            assert(Seq::<Value>::empty().push(v0) =~= seq![v0]);
            assert(decode_items::<T>(input, 1) == Ok::<(Seq<Value>, Seq<u8>), CodecError>((seq![v0], r1)));
            match T::spec_decode(r1) {
                Ok((v1, r2)) => {
                    assert(seq![v0].push(v1) =~= seq![v0, v1]);
                    assert(decode_items::<T>(input, 2) == Ok::<(Seq<Value>, Seq<u8>), CodecError>((seq![v0, v1], r2)));
                    match T::spec_decode(r2) {
                        Ok((v2, r3)) => {
                            assert(seq![v0, v1].push(v2) =~= seq![v0, v1, v2]);
                            assert(decode_items::<T>(input, 3) == Ok::<(Seq<Value>, Seq<u8>), CodecError>((seq![v0, v1, v2], r3)));
                            match T::spec_decode(r3) {
                                Ok((v3, r4)) => {
                                    assert(seq![v0, v1, v2].push(v3) =~= seq![v0, v1, v2, v3]);
                                    assert(decode_items::<T>(input, 4) == Ok::<(Seq<Value>, Seq<u8>), CodecError>((seq![v0, v1, v2, v3], r4)));
                                    match T::spec_decode(r4) {
                                        Ok((v4, r5)) => {
                                            assert(seq![v0, v1, v2, v3].push(v4) =~= seq![v0, v1, v2, v3, v4]);
                                            assert(decode_items::<T>(input, 5) == Ok::<(Seq<Value>, Seq<u8>), CodecError>((seq![v0, v1, v2, v3, v4], r5)));
                                            match T::spec_decode(r5) {
                                                Ok((v5, r6)) => {
                                                    assert(seq![v0, v1, v2, v3, v4].push(v5) =~= seq![v0, v1, v2, v3, v4, v5]);
                                                    assert(decode_items::<T>(input, 6) == Ok::<(Seq<Value>, Seq<u8>), CodecError>((seq![v0, v1, v2, v3, v4, v5], r6)));
                                                    match T::spec_decode(r6) {
                                                        Ok((v6, r7)) => {
                                                            assert(seq![v0, v1, v2, v3, v4, v5].push(v6) =~= seq![v0, v1, v2, v3, v4, v5, v6]);
                                                            assert(decode_items::<T>(input, 7) == Ok::<(Seq<Value>, Seq<u8>), CodecError>((seq![v0, v1, v2, v3, v4, v5, v6], r7)));
                                                        },
                                                        Err(e) => {
                                                            assert(decode_items::<T>(input, 7) is Err);
                                                            lemma_decode_items_error_persists::<T>(input, 7, 7);
                                                        },
                                                    }
                                                },
                                                Err(e) => {
                                                    assert(decode_items::<T>(input, 6) is Err);
                                                    lemma_decode_items_error_persists::<T>(input, 6, 7);
                                                },
                                            }
                                        },
                                        Err(e) => {
                                            assert(decode_items::<T>(input, 5) is Err);
                                            lemma_decode_items_error_persists::<T>(input, 5, 7);
                                        },
                                    }
                                },
                                Err(e) => {
                                    assert(decode_items::<T>(input, 4) is Err);
                                    lemma_decode_items_error_persists::<T>(input, 4, 7);
                                },
                            }
                        },
                        Err(e) => {
                            assert(decode_items::<T>(input, 3) is Err);
                            lemma_decode_items_error_persists::<T>(input, 3, 7);
                        },
                    }
                },
                Err(e) => {
                    assert(decode_items::<T>(input, 2) is Err);
                    lemma_decode_items_error_persists::<T>(input, 2, 7);
                },
            }
        },
        Err(e) => {
            assert(decode_items::<T>(input, 1) is Err);
            lemma_decode_items_error_persists::<T>(input, 1, 7);
        },
    }
}

/// A 8-tuple of one type is laid out as that many elements of the type:
/// it writes its components' encodings in order, one after another, and
/// reads them back in the same order, as a list of 8 values.
pub proof fn lemma_tuple8_in_order<T: Codec>(x: (T, T, T, T, T, T, T, T), input: Seq<u8>)
    ensures
        x.spec_encode() == encode_items(seq![x.0, x.1, x.2, x.3, x.4, x.5, x.6, x.7]),
        <(T, T, T, T, T, T, T, T)>::spec_decode(input) == items_as_list(decode_items::<T>(input, 8)),
{
    assert(seq![x.0].drop_last() =~= Seq::<T>::empty());
    assert(seq![x.0].last() == x.0);
    assert(encode_items(seq![x.0]) == encode_items(seq![x.0].drop_last()) + x.0.spec_encode());
    assert(seq![x.0, x.1].drop_last() =~= seq![x.0]);
    assert(seq![x.0, x.1].last() == x.1);
    assert(encode_items(seq![x.0, x.1]) == encode_items(seq![x.0, x.1].drop_last()) + x.1.spec_encode());
    assert(seq![x.0, x.1, x.2].drop_last() =~= seq![x.0, x.1]);
    assert(seq![x.0, x.1, x.2].last() == x.2);
    assert(encode_items(seq![x.0, x.1, x.2]) == encode_items(seq![x.0, x.1, x.2].drop_last()) + x.2.spec_encode());
    assert(seq![x.0, x.1, x.2, x.3].drop_last() =~= seq![x.0, x.1, x.2]);
    assert(seq![x.0, x.1, x.2, x.3].last() == x.3);
    assert(encode_items(seq![x.0, x.1, x.2, x.3]) == encode_items(seq![x.0, x.1, x.2, x.3].drop_last()) + x.3.spec_encode());
    assert(seq![x.0, x.1, x.2, x.3, x.4].drop_last() =~= seq![x.0, x.1, x.2, x.3]);
    assert(seq![x.0, x.1, x.2, x.3, x.4].last() == x.4);
    assert(encode_items(seq![x.0, x.1, x.2, x.3, x.4]) == encode_items(seq![x.0, x.1, x.2, x.3, x.4].drop_last()) + x.4.spec_encode());
    assert(seq![x.0, x.1, x.2, x.3, x.4, x.5].drop_last() =~= seq![x.0, x.1, x.2, x.3, x.4]);
    assert(seq![x.0, x.1, x.2, x.3, x.4, x.5].last() == x.5);
    assert(encode_items(seq![x.0, x.1, x.2, x.3, x.4, x.5]) == encode_items(seq![x.0, x.1, x.2, x.3, x.4, x.5].drop_last()) + x.5.spec_encode());
    assert(seq![x.0, x.1, x.2, x.3, x.4, x.5, x.6].drop_last() =~= seq![x.0, x.1, x.2, x.3, x.4, x.5]);
    assert(seq![x.0, x.1, x.2, x.3, x.4, x.5, x.6].last() == x.6);
    assert(encode_items(seq![x.0, x.1, x.2, x.3, x.4, x.5, x.6]) == encode_items(seq![x.0, x.1, x.2, x.3, x.4, x.5, x.6].drop_last()) + x.6.spec_encode());
    assert(seq![x.0, x.1, x.2, x.3, x.4, x.5, x.6, x.7].drop_last() =~= seq![x.0, x.1, x.2, x.3, x.4, x.5, x.6]);
    assert(seq![x.0, x.1, x.2, x.3, x.4, x.5, x.6, x.7].last() == x.7);
    assert(encode_items(seq![x.0, x.1, x.2, x.3, x.4, x.5, x.6, x.7]) == encode_items(seq![x.0, x.1, x.2, x.3, x.4, x.5, x.6, x.7].drop_last()) + x.7.spec_encode());
    assert(encode_items(seq![x.0, x.1, x.2, x.3, x.4, x.5, x.6, x.7]) =~= x.0.spec_encode() + x.1.spec_encode() + x.2.spec_encode() + x.3.spec_encode() + x.4.spec_encode() + x.5.spec_encode() + x.6.spec_encode() + x.7.spec_encode());
    reveal_with_fuel(decode_items, 9);
    match T::spec_decode(input) {
        Ok((v0, r1)) => {
            assert(Seq::<Value>::empty().push(v0) =~= seq![v0]);
            assert(decode_items::<T>(input, 1) == Ok::<(Seq<Value>, Seq<u8>), CodecError>((seq![v0], r1)));
            match T::spec_decode(r1) {
                Ok((v1, r2)) => {
                    assert(seq![v0].push(v1) =~= seq![v0, v1]);
                    assert(decode_items::<T>(input, 2) == Ok::<(Seq<Value>, Seq<u8>), CodecError>((seq![v0, v1], r2)));
                    match T::spec_decode(r2) {
                        Ok((v2, r3)) => {
                            assert(seq![v0, v1].push(v2) =~= seq![v0, v1, v2]);
                            assert(decode_items::<T>(input, 3) == Ok::<(Seq<Value>, Seq<u8>), CodecError>((seq![v0, v1, v2], r3)));
                            match T::spec_decode(r3) {
                                Ok((v3, r4)) => {
                                    assert(seq![v0, v1, v2].push(v3) =~= seq![v0, v1, v2, v3]);
                                    assert(decode_items::<T>(input, 4) == Ok::<(Seq<Value>, Seq<u8>), CodecError>((seq![v0, v1, v2, v3], r4)));
                                    match T::spec_decode(r4) {
                                        Ok((v4, r5)) => {
                                            assert(seq![v0, v1, v2, v3].push(v4) =~= seq![v0, v1, v2, v3, v4]);
                                            assert(decode_items::<T>(input, 5) == Ok::<(Seq<Value>, Seq<u8>), CodecError>((seq![v0, v1, v2, v3, v4], r5)));
                                            match T::spec_decode(r5) {
                                                Ok((v5, r6)) => {
                                                    assert(seq![v0, v1, v2, v3, v4].push(v5) =~= seq![v0, v1, v2, v3, v4, v5]);
                                                    assert(decode_items::<T>(input, 6) == Ok::<(Seq<Value>, Seq<u8>), CodecError>((seq![v0, v1, v2, v3, v4, v5], r6)));
                                                    match T::spec_decode(r6) {
                                                        Ok((v6, r7)) => {
                                                            assert(seq![v0, v1, v2, v3, v4, v5].push(v6) =~= seq![v0, v1, v2, v3, v4, v5, v6]);
                                                            assert(decode_items::<T>(input, 7) == Ok::<(Seq<Value>, Seq<u8>), CodecError>((seq![v0, v1, v2, v3, v4, v5, v6], r7)));
                                                            match T::spec_decode(r7) {
                                                                Ok((v7, r8)) => {
                                                                    assert(seq![v0, v1, v2, v3, v4, v5, v6].push(v7) =~= seq![v0, v1, v2, v3, v4, v5, v6, v7]);
                                                                    assert(decode_items::<T>(input, 8) == Ok::<(Seq<Value>, Seq<u8>), CodecError>((seq![v0, v1, v2, v3, v4, v5, v6, v7], r8)));
                                                                },
                                                                Err(e) => {
                                                                    assert(decode_items::<T>(input, 8) is Err);
                                                                    lemma_decode_items_error_persists::<T>(input, 8, 8);
                                                                },
                                                            }
                                                        },
                                                        Err(e) => {
                                                            assert(decode_items::<T>(input, 7) is Err);
                                                            lemma_decode_items_error_persists::<T>(input, 7, 8);
                                                        },
                                                    }
                                                },
                                                Err(e) => {
                                                    assert(decode_items::<T>(input, 6) is Err);
                                                    lemma_decode_items_error_persists::<T>(input, 6, 8);
                                                },
                                            }
                                        },
                                        Err(e) => {
                                            assert(decode_items::<T>(input, 5) is Err);
                                            lemma_decode_items_error_persists::<T>(input, 5, 8);
                                        },
                                    }
                                },
                                Err(e) => {
                                    assert(decode_items::<T>(input, 4) is Err);
                                    lemma_decode_items_error_persists::<T>(input, 4, 8);
                                },
                            }
                        },
                        Err(e) => {
                            assert(decode_items::<T>(input, 3) is Err);
                            lemma_decode_items_error_persists::<T>(input, 3, 8);
                        },
                    }
                },
                Err(e) => {
                    assert(decode_items::<T>(input, 2) is Err);
                    lemma_decode_items_error_persists::<T>(input, 2, 8);
                },
            }
        },
        Err(e) => {
            assert(decode_items::<T>(input, 1) is Err);
            lemma_decode_items_error_persists::<T>(input, 1, 8);
        },
    }
}

} // verus!
