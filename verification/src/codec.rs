//! The `Codec` and `CodecLe` traits, and the byte-level readers and writers
//! that the integer implementations share.
use crate::error::CodecError;
use crate::model::{
    be_bytes, be_value, le_bytes, le_value, lemma_pow256_positive, lemma_pow256_values, pow256,
    signed_of, uint_bytes, uint_value, unsigned_of, Value,
};
use vstd::prelude::*;

verus! {

/// The largest element or byte count that a length prefix may announce (16 MiB).
///
/// A decoder refuses a larger prefix before it allocates anything.
pub const MAX_DECODE_LEN: usize = 16777216;

/// The error for an input of `available` bytes where `needed` were required.
pub open spec fn not_enough(needed: nat, available: nat) -> CodecError {
    CodecError::NotEnoughBytes { needed: needed as usize, available: available as usize }
}

/// What `decode_exact` yields for a decoding outcome: the value if no byte
/// is left over, `TrailingBytes` if some are, and the decoding error otherwise.
pub open spec fn exact_outcome(d: Result<(Value, Seq<u8>), CodecError>) -> Result<
    Value,
    CodecError,
> {
    match d {
        Ok((v, rest)) => if rest.len() == 0 {
            Ok(v)
        } else {
            Err(CodecError::TrailingBytes { count: rest.len() as usize })
        },
        Err(e) => Err(e),
    }
}

/// `n`, or `usize::MAX` where it does not fit.
pub open spec fn capped(n: nat) -> usize {
    if n > usize::MAX {
        usize::MAX
    } else {
        n as usize
    }
}

/// The length of `s`, or `usize::MAX` where it does not fit.
pub open spec fn capped_len(s: Seq<u8>) -> usize {
    capped(s.len())
}

/// The sum of `a` and `b`, or `usize::MAX` where it does not fit.
pub(crate) fn add_capped(a: usize, b: usize) -> (r: usize)
    ensures
        r == (if a + b > usize::MAX {
            usize::MAX
        } else {
            (a + b) as usize
        }),
{
    a.saturating_add(b)
}

/// Capping a length and then adding to it, with capping, caps the sum.
pub(crate) proof fn lemma_capped_concat(s: Seq<u8>, t: Seq<u8>)
    ensures
        (if capped_len(s) + capped_len(t) > usize::MAX {
            usize::MAX
        } else {
            (capped_len(s) + capped_len(t)) as usize
        }) == capped_len(s + t),
{
}

/// Types that can be encoded to and decoded from a binary format.
///
/// Implementations are provided for the integers, `bool`, `String`, `Vec<T>`,
/// `Box<[T]>`, `Box<T>`, `Option<T>`, arrays, tuples of two to eight
/// components and `HashMap<K, V>`. Records and enums implement it by encoding
/// their fields in the order that `plan` lays out (enums after a
/// discriminant), with the helpers of `fields`, `bits` and `seq`.
///
/// An implementation states its behaviour through the specification functions
/// and sets `obeys_codec_spec` to `true`; every implementation of this crate
/// does so (containers as far as their elements do). For an implementation
/// that leaves `obeys_codec_spec` at `false`, the contracts below state nothing.
pub trait Codec: Sized {
    /// Whether `decode` and `encode` behave as `spec_decode` and `spec_encode` say.
    open spec fn obeys_codec_spec() -> bool {
        false
    }

    /// The abstract value that this datum stands for.
    open spec fn spec_value(&self) -> Value {
        arbitrary()
    }

    /// The bytes that `encode` appends for this datum.
    open spec fn spec_encode(&self) -> Seq<u8> {
        arbitrary()
    }

    /// What decoding `input` yields: the decoded value and the bytes after it, or the error.
    open spec fn spec_decode(input: Seq<u8>) -> Result<(Value, Seq<u8>), CodecError> {
        arbitrary()
    }

    /// Whether the encoding of this datum can be decoded again: every length
    /// prefix in it fits its width and the allocation limit.
    open spec fn encodable(&self) -> bool {
        true
    }

    /// Decode a value from the front of `input`, returning it and the remaining bytes.
    fn decode(input: &[u8]) -> (r: Result<(Self, &[u8]), CodecError>)
        ensures
            Self::obeys_codec_spec() ==> match r {
                Ok((v, rest)) => Self::spec_decode(input@) == Ok::<(Value, Seq<u8>), CodecError>(
                    (v.spec_value(), rest@),
                ),
                Err(e) => Self::spec_decode(input@) == Err::<(Value, Seq<u8>), CodecError>(e),
            },
    ;

    /// Encode this value by appending bytes to `buf`.
    fn encode(&self, buf: &mut Vec<u8>)
        ensures
            Self::obeys_codec_spec() ==> final(buf)@ == old(buf)@ + self.spec_encode(),
    ;

    /// The number of bytes that `encode` appends.
    fn encoded_size(&self) -> (r: usize)
        ensures
            Self::obeys_codec_spec() ==> r == capped_len(self.spec_encode()),
    {
        let mut buf: Vec<u8> = Vec::new();
        self.encode(&mut buf);
        buf.len()
    }

    /// Decode a value that must take up all of `input`.
    fn decode_exact(input: &[u8]) -> (r: Result<Self, CodecError>)
        ensures
            Self::obeys_codec_spec() ==> match r {
                Ok(v) => exact_outcome(Self::spec_decode(input@)) == Ok::<Value, CodecError>(
                    v.spec_value(),
                ),
                Err(e) => exact_outcome(Self::spec_decode(input@)) == Err::<Value, CodecError>(e),
            },
    {
        finish_exact(Self::decode(input))
    }
}

/// The value of a decoding that must have used up all its input: the value
/// where no byte is left, `TrailingBytes` with their count where some are,
/// or the decoding's error.
pub fn finish_exact<T>(r: Result<(T, &[u8]), CodecError>) -> (out: Result<T, CodecError>)
    ensures
        out == match r {
            Ok((v, rest)) => if rest@.len() == 0 {
                Ok(v)
            } else {
                Err(CodecError::TrailingBytes { count: rest@.len() as usize })
            },
            Err(e) => Err::<T, CodecError>(e),
        },
{
    match r {
        Ok((v, rest)) => {
            if rest.len() == 0 {
                Ok(v)
            } else {
                Err(CodecError::TrailingBytes { count: rest.len() })
            }
        },
        Err(e) => Err(e),
    }
}

/// Types that support little-endian encoding (the integers).
///
/// Used for fields that are declared little-endian. The specification
/// functions play the roles of those of `Codec`.
pub trait CodecLe: Sized {
    /// Whether `decode_le` and `encode_le` behave as the specification functions say.
    open spec fn obeys_codec_le_spec() -> bool {
        false
    }

    /// The abstract value that this datum stands for.
    open spec fn spec_value_le(&self) -> Value {
        arbitrary()
    }

    /// The bytes that `encode_le` appends for this datum.
    open spec fn spec_encode_le(&self) -> Seq<u8> {
        arbitrary()
    }

    /// What decoding `input` little-endian yields.
    open spec fn spec_decode_le(input: Seq<u8>) -> Result<(Value, Seq<u8>), CodecError> {
        arbitrary()
    }

    /// Decode from little-endian bytes.
    fn decode_le(input: &[u8]) -> (r: Result<(Self, &[u8]), CodecError>)
        ensures
            Self::obeys_codec_le_spec() ==> match r {
                Ok((v, rest)) => Self::spec_decode_le(input@) == Ok::<(Value, Seq<u8>), CodecError>(
                    (v.spec_value_le(), rest@),
                ),
                Err(e) => Self::spec_decode_le(input@) == Err::<(Value, Seq<u8>), CodecError>(e),
            },
    ;

    /// Encode as little-endian bytes.
    fn encode_le(&self, buf: &mut Vec<u8>)
        ensures
            Self::obeys_codec_le_spec() ==> final(buf)@ == old(buf)@ + self.spec_encode_le(),
    ;
}

/// The roundtrip law of a codec: decoding the encoding of an encodable
/// datum, followed by any bytes, gives back its value and exactly those bytes.
pub open spec fn codec_roundtrips<T: Codec>() -> bool {
    forall|x: T, rest: Seq<u8>|
        #![trigger T::spec_decode(x.spec_encode() + rest)]
        x.encodable() ==> T::spec_decode(x.spec_encode() + rest) == Ok::<
            (Value, Seq<u8>),
            CodecError,
        >((x.spec_value(), rest))
}

/// `rest` is what is left of `input` after some bytes at its front.
pub open spec fn is_suffix(rest: Seq<u8>, input: Seq<u8>) -> bool {
    rest.len() <= input.len() && rest == input.skip(input.len() - rest.len())
}

/// The prefix law of a codec: a successful decode consumes bytes at the
/// front of its input and leaves the rest as they were.
pub open spec fn codec_consumes_prefix<T: Codec>() -> bool {
    forall|input: Seq<u8>|
        #![trigger T::spec_decode(input)]
        T::spec_decode(input) matches Ok((_, rest)) ==> is_suffix(rest, input)
}

/// The prefix law of a little-endian codec.
pub open spec fn codec_le_consumes_prefix<T: CodecLe>() -> bool {
    forall|input: Seq<u8>|
        #![trigger T::spec_decode_le(input)]
        T::spec_decode_le(input) matches Ok((_, rest)) ==> is_suffix(rest, input)
}

/// What is left after what is left is what is left.
pub proof fn lemma_suffix_trans(a: Seq<u8>, b: Seq<u8>, c: Seq<u8>)
    requires
        is_suffix(a, b),
        is_suffix(b, c),
    ensures
        is_suffix(a, c),
{
    assert(a =~= c.skip(c.len() - a.len()));
}

/// What `skip` leaves is a suffix.
pub proof fn lemma_skip_suffix(input: Seq<u8>, n: int)
    requires
        0 <= n <= input.len(),
    ensures
        is_suffix(input.skip(n), input),
{
}

/// `decode_exact` on exactly the encoding of an encodable datum gives back
/// its value; with bytes after it, it reports them as trailing.
pub proof fn lemma_exact_roundtrip<T: Codec>(x: T, rest: Seq<u8>)
    requires
        codec_roundtrips::<T>(),
        x.encodable(),
    ensures
        exact_outcome(T::spec_decode(x.spec_encode() + rest)) == (if rest.len() == 0 {
            Ok::<Value, CodecError>(x.spec_value())
        } else {
            Err(CodecError::TrailingBytes { count: rest.len() as usize })
        }),
{
    assert(T::spec_decode(x.spec_encode() + rest) == Ok::<(Value, Seq<u8>), CodecError>(
        (x.spec_value(), rest),
    ));
}

/// The roundtrip law of a little-endian codec.
pub open spec fn codec_le_roundtrips<T: CodecLe>() -> bool {
    forall|x: T, rest: Seq<u8>|
        #![trigger T::spec_decode_le(x.spec_encode_le() + rest)]
        T::spec_decode_le(x.spec_encode_le() + rest) == Ok::<(Value, Seq<u8>), CodecError>(
            (x.spec_value_le(), rest),
        )
}

/// Decode a value using little-endian byte order.
pub fn decode_le<T: CodecLe>(input: &[u8]) -> (r: Result<(T, &[u8]), CodecError>)
    ensures
        T::obeys_codec_le_spec() ==> match r {
            Ok((v, rest)) => T::spec_decode_le(input@) == Ok::<(Value, Seq<u8>), CodecError>(
                (v.spec_value_le(), rest@),
            ),
            Err(e) => T::spec_decode_le(input@) == Err::<(Value, Seq<u8>), CodecError>(e),
        },
{
    T::decode_le(input)
}

/// Encode a value using little-endian byte order.
pub fn encode_le<T: CodecLe>(val: &T, buf: &mut Vec<u8>)
    ensures
        T::obeys_codec_le_spec() ==> final(buf)@ == old(buf)@ + val.spec_encode_le(),
{
    val.encode_le(buf)
}

/// `Ok` when `input` holds at least `n` bytes, `NotEnoughBytes` otherwise.
pub fn check(input: &[u8], n: usize) -> (r: Result<(), CodecError>)
    ensures
        r == (if input@.len() < n {
            Err(not_enough(n as nat, input@.len()))
        } else {
            Ok::<(), CodecError>(())
        }),
{
    if input.len() < n {
        Err(CodecError::NotEnoughBytes { needed: n, available: input.len() })
    } else {
        Ok(())
    }
}

/// The widths in bytes that the integer types have.
pub open spec fn int_width(n: nat) -> bool {
    n == 1 || n == 2 || n == 4 || n == 8 || n == 16
}

/// The encoding of the integer `x` in `n` bytes (two's complement where negative).
pub open spec fn int_bytes(x: int, n: nat, little: bool) -> Seq<u8> {
    uint_bytes(unsigned_of(x, n), n, little)
}

/// What decoding an `n`-byte integer from `input` yields.
pub open spec fn int_decode(input: Seq<u8>, n: nat, signed: bool, little: bool) -> Result<
    (Value, Seq<u8>),
    CodecError,
> {
    if input.len() < n {
        Err(not_enough(n, input.len()))
    } else {
        let u = uint_value(input.take(n as int), little);
        Ok(
            (
                Value::Int(
                    if signed {
                        signed_of(u, n)
                    } else {
                        u as int
                    },
                ),
                input.skip(n as int),
            ),
        )
    }
}

/// Read an unsigned number of `width` bytes from the front of `input`.
pub fn read_uint(input: &[u8], width: usize, little: bool) -> (r: Result<(u128, &[u8]), CodecError>)
    requires
        1 <= width <= 16,
    ensures
        match r {
            Ok((u, rest)) => {
                &&& width <= input@.len()
                &&& u == uint_value(input@.take(width as int), little)
                &&& u < pow256(width as nat)
                &&& rest@ == input@.skip(width as int)
            },
            Err(e) => input@.len() < width && e == not_enough(width as nat, input@.len()),
        },
{
    if let Err(e) = check(input, width) {
        return Err(e);
    }
    let (head, rest) = input.split_at(width);
    let mut acc: u128 = 0;
    if little {
        let mut i: usize = width;
        while i > 0
            invariant
                0 <= i <= width <= 16,
                head@ == input@.take(width as int),
                head@.len() == width,
                acc == le_value(head@.subrange(i as int, width as int)),
                acc < pow256((width - i) as nat),
            decreases i,
        {
            let ghost prev = acc;
            proof {
                lemma_pow256_values();
                let s = head@.subrange(i - 1, width as int);
                assert(s.drop_first() =~= head@.subrange(i as int, width as int));
                assert(pow256((width - (i - 1)) as nat) == 256 * pow256((width - i) as nat));
                assert(pow256((width - i) as nat) <= pow256(15)) by {
                    lemma_pow256_monotone((width - i) as nat, 15);
                }
                reveal_with_fuel(pow256, 16);
            }
            acc = head[i - 1] as u128 + 256 * acc;
            i = i - 1;
        }
        assert(head@.subrange(0, width as int) =~= head@);
    } else {
        let mut i: usize = 0;
        while i < width
            invariant
                0 <= i <= width <= 16,
                head@ == input@.take(width as int),
                head@.len() == width,
                acc == be_value(head@.take(i as int)),
                acc < pow256(i as nat),
            decreases width - i,
        {
            proof {
                assert(head@.take(i + 1).drop_last() =~= head@.take(i as int));
                assert(pow256((i + 1) as nat) == 256 * pow256(i as nat));
                assert(pow256(i as nat) <= pow256(15)) by {
                    lemma_pow256_monotone(i as nat, 15);
                }
                reveal_with_fuel(pow256, 16);
            }
            acc = acc * 256 + head[i] as u128;
            i = i + 1;
        }
        assert(head@.take(width as int) =~= head@);
    }
    Ok((acc, rest))
}

/// `pow256` grows with its argument.
pub proof fn lemma_pow256_monotone(a: nat, b: nat)
    requires
        a <= b,
    ensures
        pow256(a) <= pow256(b),
    decreases b,
{
    lemma_pow256_positive(b);
    if a < b {
        lemma_pow256_monotone(a, (b - 1) as nat);
    }
}

/// Append the `n` low-order bytes of `v`, most significant first.
fn write_be(buf: &mut Vec<u8>, v: u128, n: usize)
    ensures
        final(buf)@ == old(buf)@ + be_bytes(v as nat, n as nat),
    decreases n,
{
    if n > 0 {
        write_be(buf, v / 256, n - 1);
        buf.push((v % 256) as u8);
    }
}

/// Append the `n` low-order bytes of `v`, least significant first.
fn write_le(buf: &mut Vec<u8>, v: u128, n: usize)
    ensures
        final(buf)@ == old(buf)@ + le_bytes(v as nat, n as nat),
    decreases n,
{
    if n > 0 {
        let ghost before = buf@;
        buf.push((v % 256) as u8);
        write_le(buf, v / 256, n - 1);
        assert(buf@ =~= before + le_bytes(v as nat, n as nat));
    }
}

/// Append the `width` low-order bytes of `v` in the given byte order.
pub fn write_uint(buf: &mut Vec<u8>, v: u128, width: usize, little: bool)
    ensures
        final(buf)@ == old(buf)@ + uint_bytes(v as nat, width as nat, little),
{
    if little {
        write_le(buf, v, width)
    } else {
        write_be(buf, v, width)
    }
}

/// The largest unsigned number of `width` bytes.
fn max_uint(width: usize) -> (m: u128)
    requires
        int_width(width as nat),
    ensures
        m == pow256(width as nat) - 1,
{
    proof {
        lemma_pow256_values();
    }
    if width == 1 {
        0xff
    } else if width == 2 {
        0xffff
    } else if width == 4 {
        0xffff_ffff
    } else if width == 8 {
        0xffff_ffff_ffff_ffff
    } else {
        0xffff_ffff_ffff_ffff_ffff_ffff_ffff_ffff
    }
}

/// The `width`-byte two's-complement pattern of `x`.
pub fn twos_complement(x: i128, width: usize) -> (u: u128)
    requires
        int_width(width as nat),
        -(pow256(width as nat) as int) <= 2 * x < pow256(width as nat),
    ensures
        u == unsigned_of(x as int, width as nat),
        u < pow256(width as nat),
{
    let m = max_uint(width);
    if x >= 0 {
        x as u128
    } else {
        m - ((-(x + 1)) as u128)
    }
}

/// The signed number whose `width`-byte two's-complement pattern is `u`.
pub fn from_twos_complement(u: u128, width: usize) -> (x: i128)
    requires
        int_width(width as nat),
        u < pow256(width as nat),
    ensures
        x == signed_of(u as nat, width as nat),
        -(pow256(width as nat) as int) <= 2 * x < pow256(width as nat),
{
    let m = max_uint(width);
    proof {
        lemma_pow256_values();
    }
    if u > m / 2 {
        -((m - u) as i128) - 1
    } else {
        u as i128
    }
}

} // verus!
