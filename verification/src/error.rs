use crate::text::{decimal, decimal_usize, spec_decimal};
use vstd::prelude::*;

verus! {

/// Errors that can occur during decoding.
#[derive(Debug, PartialEq, Eq)]
pub enum CodecError {
    /// The input did not contain enough bytes for the datum being decoded.
    NotEnoughBytes { needed: usize, available: usize },
    /// A text field held bytes that are not valid UTF-8.
    InvalidUtf8,
    /// An enum's discriminant matched no known variant.
    UnknownDiscriminant { value: u64 },
    /// A length prefix was below the declared minimum.
    TooShort { min: usize, actual: usize },
    /// A length prefix was above the declared maximum.
    TooLong { max: usize, actual: usize },
    /// A constant field did not hold the expected bytes.
    BadMagic,
    /// A field's validation function rejected the decoded value.
    ValidationFailed,
    /// `decode_exact` found bytes after the value.
    TrailingBytes { count: usize },
    /// A length prefix exceeded the allocation limit `MAX_DECODE_LEN`.
    AllocationTooLarge { len: u64, max: usize },
    /// An error raised while decoding the named field.
    FieldError { field: &'static str, source: Box<CodecError> },
}

/// The message that describes `e`; a field's error names the field and
/// then describes the error raised in it.
pub open spec fn spec_message(e: CodecError) -> Seq<char>
    decreases e,
{
    match e {
        CodecError::NotEnoughBytes { needed, available } => "not enough bytes: needed "@
            + spec_decimal(needed as nat) + ", have "@ + spec_decimal(available as nat),
        CodecError::InvalidUtf8 => "invalid UTF-8"@,
        CodecError::UnknownDiscriminant { value } => "unknown discriminant: "@ + spec_decimal(
            value as nat,
        ),
        CodecError::TooShort { min, actual } => "too short: at least "@ + spec_decimal(min as nat)
            + " expected, got "@ + spec_decimal(actual as nat),
        CodecError::TooLong { max, actual } => "too long: at most "@ + spec_decimal(max as nat)
            + " expected, got "@ + spec_decimal(actual as nat),
        CodecError::BadMagic => "bad magic value"@,
        CodecError::ValidationFailed => "validation failed"@,
        CodecError::TrailingBytes { count } => spec_decimal(count as nat)
            + " trailing bytes after value"@,
        CodecError::AllocationTooLarge { len, max } => "length "@ + spec_decimal(len as nat)
            + " exceeds the limit of "@ + spec_decimal(max as nat),
        CodecError::FieldError { field, source } => "in field `"@ + field@ + "`: "@ + spec_message(
            *source,
        ),
    }
}

impl CodecError {
    /// The message that describes this error.
    pub fn message(&self) -> (s: String)
        ensures
            s@ == spec_message(*self),
        decreases self,
    {
        let mut s = String::new();
        match self {
            CodecError::NotEnoughBytes { needed, available } => {
                s.append("not enough bytes: needed ");
                s.append(decimal_usize(*needed).as_str());
                s.append(", have ");
                s.append(decimal_usize(*available).as_str());
            },
            CodecError::InvalidUtf8 => s.append("invalid UTF-8"),
            CodecError::UnknownDiscriminant { value } => {
                s.append("unknown discriminant: ");
                s.append(decimal(*value).as_str());
            },
            CodecError::TooShort { min, actual } => {
                s.append("too short: at least ");
                s.append(decimal_usize(*min).as_str());
                s.append(" expected, got ");
                s.append(decimal_usize(*actual).as_str());
            },
            CodecError::TooLong { max, actual } => {
                s.append("too long: at most ");
                s.append(decimal_usize(*max).as_str());
                s.append(" expected, got ");
                s.append(decimal_usize(*actual).as_str());
            },
            CodecError::BadMagic => s.append("bad magic value"),
            CodecError::ValidationFailed => s.append("validation failed"),
            CodecError::TrailingBytes { count } => {
                s.append(decimal_usize(*count).as_str());
                s.append(" trailing bytes after value");
            },
            CodecError::AllocationTooLarge { len, max } => {
                s.append("length ");
                s.append(decimal(*len).as_str());
                s.append(" exceeds the limit of ");
                s.append(decimal_usize(*max).as_str());
            },
            CodecError::FieldError { field, source } => {
                s.append("in field `");
                s.append(field);
                s.append("`: ");
                let inner = source.message();
                s.append(inner.as_str());
            },
        }
        assert(s@ =~= spec_message(*self));
        s
    }
}

/// A copy of `e`, field for field.
pub fn clone_error(e: &CodecError) -> (r: CodecError)
    ensures
        r == *e,
    decreases e,
{
    match e {
        CodecError::NotEnoughBytes { needed, available } => CodecError::NotEnoughBytes {
            needed: *needed,
            available: *available,
        },
        CodecError::InvalidUtf8 => CodecError::InvalidUtf8,
        CodecError::UnknownDiscriminant { value } => CodecError::UnknownDiscriminant {
            value: *value,
        },
        CodecError::TooShort { min, actual } => CodecError::TooShort { min: *min, actual: *actual },
        CodecError::TooLong { max, actual } => CodecError::TooLong { max: *max, actual: *actual },
        CodecError::BadMagic => CodecError::BadMagic,
        CodecError::ValidationFailed => CodecError::ValidationFailed,
        CodecError::TrailingBytes { count } => CodecError::TrailingBytes { count: *count },
        CodecError::AllocationTooLarge { len, max } => CodecError::AllocationTooLarge {
            len: *len,
            max: *max,
        },
        CodecError::FieldError { field, source } => CodecError::FieldError {
            field: *field,
            source: Box::new(clone_error(source)),
        },
    }
}

impl Clone for CodecError {
    fn clone(&self) -> (r: Self)
        ensures
            r == *self,
    {
        clone_error(self)
    }
}

} // verus!
