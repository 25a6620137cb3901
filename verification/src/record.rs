//! What a planned layout means on the wire: the bytes that encoding a record
//! step by step writes and what decoding them step by step reads, given
//! what each field's own codec writes and reads, with the roundtrip laws of
//! a planned record and of a planned enum.
use crate::bits::{spec_pack_bits, spec_unpack_bits, two_pow, total_bits, lemma_bits_roundtrip, widths_ok};
use crate::codec::not_enough;
use crate::error::CodecError;
use crate::fields::{field_error, spec_check_magic, zeros};
use crate::model::{be_bytes, be_value, lemma_be_bytes_value, pow256, Value};
use crate::plan::{
    bit_width, lemma_enum_plan, lemma_plan_in_order, op_fits, run_width, spec_plan_enum,
    spec_plan_fields, Endian, FieldOp, FieldSpec, PlanError, VariantSpec,
};
use vstd::prelude::*;

verus! {

/// The widths of the `count` bit fields from `first` on.
pub open spec fn group_widths(fields: Seq<FieldSpec>, first: int, count: int) -> Seq<u32> {
    Seq::new(
        count as nat,
        |j: int|
            match fields[first + j].bits {
                Some(w) => w,
                None => 0u32,
            },
    )
}

/// The values of the `count` bit fields from `first` on.
pub open spec fn group_values(bits: spec_fn(int) -> u64, first: int, count: int) -> Seq<u64> {
    Seq::new(count as nat, |j: int| bits(first + j))
}

/// The bytes one step writes, where field `i`'s value encodes to `enc(i)`
/// (for a constant field, the constant's encoding) and bit field `i` holds
/// the number `bits(i)`: the value, then the padding; a skipped field only
/// its padding; a bit group its packed bits.
pub open spec fn step_bytes(
    fields: Seq<FieldSpec>,
    op: FieldOp,
    enc: spec_fn(int) -> Seq<u8>,
    bits: spec_fn(int) -> u64,
) -> Seq<u8> {
    match op {
        FieldOp::Value { field, padding, .. } => enc(field as int) + zeros(padding as nat),
        FieldOp::Magic { field, padding } => enc(field as int) + zeros(padding as nat),
        FieldOp::Default { padding, .. } => zeros(padding as nat),
        FieldOp::Bits { first, count, .. } => spec_pack_bits(
            group_values(bits, first as int, count as int),
            group_widths(fields, first as int, count as int),
        ),
    }
}

/// The bytes a record writes: the bytes of its steps, one after another.
pub open spec fn encode_steps(
    fields: Seq<FieldSpec>,
    ops: Seq<FieldOp>,
    enc: spec_fn(int) -> Seq<u8>,
    bits: spec_fn(int) -> u64,
) -> Seq<u8>
    decreases ops.len(),
{
    if ops.len() == 0 {
        Seq::empty()
    } else {
        step_bytes(fields, ops[0], enc, bits) + encode_steps(fields, ops.drop_first(), enc, bits)
    }
}

/// `input` after `n` bytes of padding, or the error marked with the field's label.
pub open spec fn skip_padding_of(label: &'static str, input: Seq<u8>, n: nat) -> Result<
    Seq<u8>,
    CodecError,
> {
    if input.len() < n {
        Err(field_error(label, not_enough(n, input.len())))
    } else {
        Ok(input.skip(n as int))
    }
}

/// What one step reads from `input`: the values it decodes, by field, and
/// the bytes after it, or the error marked with the field's label. Field
/// `i` decodes by `dec(i, ..)`, is checked by `valid(i, ..)` where it asks
/// for validation, and carries the label `label(i)`; a constant field
/// checks for the bytes `enc(i)`.
pub open spec fn decode_step(
    fields: Seq<FieldSpec>,
    op: FieldOp,
    enc: spec_fn(int) -> Seq<u8>,
    dec: spec_fn(int, Seq<u8>) -> Result<(Value, Seq<u8>), CodecError>,
    valid: spec_fn(int, Value) -> bool,
    label: spec_fn(int) -> &'static str,
    input: Seq<u8>,
) -> Result<(Map<int, Value>, Seq<u8>), CodecError> {
    match op {
        FieldOp::Value { field, validate, padding, .. } => {
            let i = field as int;
            match dec(i, input) {
                Err(e) => Err(field_error(label(i), e)),
                Ok((v, rest)) => if validate && !valid(i, v) {
                    Err(field_error(label(i), CodecError::ValidationFailed))
                } else {
                    match skip_padding_of(label(i), rest, padding as nat) {
                        Err(e) => Err(e),
                        Ok(after) => Ok((map![i => v], after)),
                    }
                },
            }
        },
        FieldOp::Magic { field, padding } => {
            let i = field as int;
            match spec_check_magic(input, enc(i)) {
                Err(e) => Err(field_error(label(i), e)),
                Ok(rest) => match skip_padding_of(label(i), rest, padding as nat) {
                    Err(e) => Err(e),
                    Ok(after) => Ok((Map::empty(), after)),
                },
            }
        },
        FieldOp::Default { field, padding } => match skip_padding_of(
            label(field as int),
            input,
            padding as nat,
        ) {
            Err(e) => Err(e),
            Ok(after) => Ok((Map::empty(), after)),
        },
        FieldOp::Bits { first, count, .. } => {
            let f = first as int;
            match spec_unpack_bits(input, group_widths(fields, f, count as int)) {
                Err(e) => Err(field_error(label(f), e)),
                Ok((vals, rest)) => Ok(
                    (
                        Map::new(
                            |i: int| f <= i < f + count,
                            |i: int| Value::Int(vals[i - f] as int),
                        ),
                        rest,
                    ),
                ),
            }
        },
    }
}

/// What a record reads: its steps one after another, the values of all
/// of them, or the first error.
pub open spec fn decode_steps(
    fields: Seq<FieldSpec>,
    ops: Seq<FieldOp>,
    enc: spec_fn(int) -> Seq<u8>,
    dec: spec_fn(int, Seq<u8>) -> Result<(Value, Seq<u8>), CodecError>,
    valid: spec_fn(int, Value) -> bool,
    label: spec_fn(int) -> &'static str,
    input: Seq<u8>,
) -> Result<(Map<int, Value>, Seq<u8>), CodecError>
    decreases ops.len(),
{
    if ops.len() == 0 {
        Ok((Map::empty(), input))
    } else {
        match decode_step(fields, ops[0], enc, dec, valid, label, input) {
            Err(e) => Err(e),
            Ok((m, rest)) => match decode_steps(
                fields,
                ops.drop_first(),
                enc,
                dec,
                valid,
                label,
                rest,
            ) {
                Err(e) => Err(e),
                Ok((m2, after)) => Ok((m.union_prefer_right(m2), after)),
            },
        }
    }
}

/// The values a record's steps carry: each value field's value, each bit
/// field's number.
pub open spec fn step_values(op: FieldOp, val: spec_fn(int) -> Value, bits: spec_fn(int) -> u64) -> Map<
    int,
    Value,
> {
    match op {
        FieldOp::Value { field, .. } => map![field as int => val(field as int)],
        FieldOp::Bits { first, count, .. } => Map::new(
            |i: int| first <= i < first + count,
            |i: int| Value::Int(bits(i) as int),
        ),
        _ => Map::empty(),
    }
}

/// The values of all the steps.
pub open spec fn record_values(
    ops: Seq<FieldOp>,
    val: spec_fn(int) -> Value,
    bits: spec_fn(int) -> u64,
) -> Map<int, Value>
    decreases ops.len(),
{
    if ops.len() == 0 {
        Map::empty()
    } else {
        step_values(ops[0], val, bits).union_prefer_right(record_values(ops.drop_first(), val, bits))
    }
}

/// Whether the fields' codecs and numbers can carry the record: each value
/// field's encoding decodes back to its value `val(i)`, followed by any
/// bytes, and passes its validation; each bit field's number fits its width.
pub open spec fn fields_roundtrip(
    fields: Seq<FieldSpec>,
    enc: spec_fn(int) -> Seq<u8>,
    dec: spec_fn(int, Seq<u8>) -> Result<(Value, Seq<u8>), CodecError>,
    valid: spec_fn(int, Value) -> bool,
    val: spec_fn(int) -> Value,
    bits: spec_fn(int) -> u64,
) -> bool {
    &&& forall|i: int, rest: Seq<u8>|
        0 <= i < fields.len() ==> #[trigger] dec(i, enc(i) + rest) == Ok::<
            (Value, Seq<u8>),
            CodecError,
        >((val(i), rest))
    &&& forall|i: int| 0 <= i < fields.len() && fields[i].validate ==> #[trigger] valid(i, val(i))
    &&& forall|i: int|
        0 <= i < fields.len() && fields[i].bits is Some ==> (#[trigger] bits(i)) < two_pow(
            bit_width(fields[i]) as nat,
        )
}

proof fn lemma_run_width_back(fields: Seq<FieldSpec>, a: int, b: int)
    requires
        a < b,
    ensures
        run_width(fields, a, b) == run_width(fields, a, b - 1) + bit_width(fields[b - 1]),
    decreases b - a,
{
    if a < b - 1 {
        lemma_run_width_back(fields, a + 1, b);
    } else {
        assert(run_width(fields, b, b) == 0);
        assert(run_width(fields, a, a) == 0);
    }
}

proof fn lemma_group_total(fields: Seq<FieldSpec>, first: int, count: int, k: int)
    requires
        0 <= k <= count,
    ensures
        total_bits(group_widths(fields, first, count), k as nat) == run_width(fields, first, first + k),
    decreases k,
{
    if k > 0 {
        lemma_group_total(fields, first, count, k - 1);
        lemma_run_width_back(fields, first, first + k);
    }
}

proof fn lemma_skip_zeros(n: nat, tail: Seq<u8>)
    ensures
        (zeros(n) + tail).len() >= n,
        (zeros(n) + tail).skip(n as int) == tail,
{
    assert((zeros(n) + tail).skip(n as int) =~= tail);
}

proof fn lemma_step_roundtrip(
    fields: Seq<FieldSpec>,
    op: FieldOp,
    enc: spec_fn(int) -> Seq<u8>,
    dec: spec_fn(int, Seq<u8>) -> Result<(Value, Seq<u8>), CodecError>,
    valid: spec_fn(int, Value) -> bool,
    label: spec_fn(int) -> &'static str,
    val: spec_fn(int) -> Value,
    bits: spec_fn(int) -> u64,
    tail: Seq<u8>,
)
    requires
        op_fits(fields, op),
        fields_roundtrip(fields, enc, dec, valid, val, bits),
    ensures
        decode_step(fields, op, enc, dec, valid, label, step_bytes(fields, op, enc, bits) + tail)
            == Ok::<(Map<int, Value>, Seq<u8>), CodecError>((step_values(op, val, bits), tail)),
{
    match op {
        FieldOp::Value { field, validate, padding, .. } => {
            let i = field as int;
            let after = zeros(padding as nat) + tail;
            assert(step_bytes(fields, op, enc, bits) + tail =~= enc(i) + after);
            assert(dec(i, enc(i) + after) == Ok::<(Value, Seq<u8>), CodecError>((val(i), after)));
            lemma_skip_zeros(padding as nat, tail);
        },
        FieldOp::Magic { field, padding } => {
            let i = field as int;
            let after = zeros(padding as nat) + tail;
            let input = enc(i) + after;
            assert(step_bytes(fields, op, enc, bits) + tail =~= input);
            assert(input.take(enc(i).len() as int) =~= enc(i));
            assert(input.skip(enc(i).len() as int) =~= after);
            lemma_skip_zeros(padding as nat, tail);
        },
        FieldOp::Default { field, padding } => {
            lemma_skip_zeros(padding as nat, tail);
        },
        FieldOp::Bits { first, count, .. } => {
            let f = first as int;
            let c = count as int;
            let ws = group_widths(fields, f, c);
            let vs = group_values(bits, f, c);
            lemma_group_total(fields, f, c, c);
            assert forall|k: int| 0 <= k < ws.len() implies #[trigger] ws[k] <= 64 by {
                assert(fields[f + k].bits is Some && bit_width(fields[f + k]) <= 64);
            }
            assert(widths_ok(ws));
            lemma_bits_roundtrip(vs, ws, tail);
            let got = Seq::new(vs.len(), |k: int| (vs[k] as nat % two_pow(ws[k] as nat)) as u64);
            assert forall|k: int| 0 <= k < c implies got[k] == vs[k] by {
                assert(fields[f + k].bits is Some);
                assert(bits(f + k) < two_pow(bit_width(fields[f + k]) as nat));
                vstd::arithmetic::div_mod::lemma_small_mod(
                    bits(f + k) as nat,
                    two_pow(ws[k] as nat),
                );
            }
            let m = Map::new(|i: int| f <= i < f + c, |i: int| Value::Int(got[i - f] as int));
            assert(m =~= step_values(op, val, bits));
        },
    }
}

proof fn lemma_steps_roundtrip(
    fields: Seq<FieldSpec>,
    ops: Seq<FieldOp>,
    enc: spec_fn(int) -> Seq<u8>,
    dec: spec_fn(int, Seq<u8>) -> Result<(Value, Seq<u8>), CodecError>,
    valid: spec_fn(int, Value) -> bool,
    label: spec_fn(int) -> &'static str,
    val: spec_fn(int) -> Value,
    bits: spec_fn(int) -> u64,
    rest: Seq<u8>,
)
    requires
        forall|k: int| 0 <= k < ops.len() ==> op_fits(fields, #[trigger] ops[k]),
        fields_roundtrip(fields, enc, dec, valid, val, bits),
    ensures
        decode_steps(fields, ops, enc, dec, valid, label, encode_steps(fields, ops, enc, bits) + rest)
            == Ok::<(Map<int, Value>, Seq<u8>), CodecError>((record_values(ops, val, bits), rest)),
    decreases ops.len(),
{
    if ops.len() > 0 {
        let tail = ops.drop_first();
        assert forall|k: int| 0 <= k < tail.len() implies op_fits(fields, #[trigger] tail[k]) by {
            assert(tail[k] == ops[k + 1]);
        }
        assert(op_fits(fields, ops[0]));
        lemma_steps_roundtrip(fields, tail, enc, dec, valid, label, val, bits, rest);
        let later = encode_steps(fields, tail, enc, bits) + rest;
        lemma_step_roundtrip(fields, ops[0], enc, dec, valid, label, val, bits, later);
        assert(encode_steps(fields, ops, enc, bits) + rest =~= step_bytes(fields, ops[0], enc, bits)
            + later);
    }
}

/// A planned record's roundtrip law: where every field's codec decodes its
/// own encoding back, followed by any bytes, each validated field passes its
/// validation and each bit field's number fits its width, decoding the
/// record's bytes step by step, followed by any bytes, gives back every
/// field's value (each bit field's number) and exactly those bytes.
pub proof fn lemma_record_roundtrip(
    fields: Seq<FieldSpec>,
    container: Option<Endian>,
    enc: spec_fn(int) -> Seq<u8>,
    dec: spec_fn(int, Seq<u8>) -> Result<(Value, Seq<u8>), CodecError>,
    valid: spec_fn(int, Value) -> bool,
    label: spec_fn(int) -> &'static str,
    val: spec_fn(int) -> Value,
    bits: spec_fn(int) -> u64,
    rest: Seq<u8>,
)
    requires
        fields.len() <= usize::MAX,
        spec_plan_fields(fields, container) is Ok,
        fields_roundtrip(fields, enc, dec, valid, val, bits),
    ensures
        ({
            let ops = spec_plan_fields(fields, container)->Ok_0;
            decode_steps(
                fields,
                ops,
                enc,
                dec,
                valid,
                label,
                encode_steps(fields, ops, enc, bits) + rest,
            ) == Ok::<(Map<int, Value>, Seq<u8>), CodecError>((record_values(ops, val, bits), rest))
        }),
{
    lemma_plan_in_order(fields, container);
    let ops = spec_plan_fields(fields, container)->Ok_0;
    lemma_steps_roundtrip(fields, ops, enc, dec, valid, label, val, bits, rest);
}

/// The index of the first variant of `out`, from `i` on, numbered `d`.
pub open spec fn find_variant(out: Seq<(u64, Seq<FieldOp>)>, i: int, d: int) -> Option<int>
    decreases out.len() - i,
{
    if i < 0 || i >= out.len() {
        None
    } else if out[i].0 as int == d {
        Some(i)
    } else {
        find_variant(out, i + 1, d)
    }
}

/// The encodings of the fields of variant `k`.
pub open spec fn enc_at(enc: spec_fn(int, int) -> Seq<u8>, k: int) -> spec_fn(int) -> Seq<u8> {
    |i: int| enc(k, i)
}

/// The decoding of the fields of variant `k`.
pub open spec fn dec_at(
    dec: spec_fn(int, int, Seq<u8>) -> Result<(Value, Seq<u8>), CodecError>,
    k: int,
) -> spec_fn(int, Seq<u8>) -> Result<(Value, Seq<u8>), CodecError> {
    |i: int, input: Seq<u8>| dec(k, i, input)
}

/// The validation of the fields of variant `k`.
pub open spec fn valid_at(valid: spec_fn(int, int, Value) -> bool, k: int) -> spec_fn(
    int,
    Value,
) -> bool {
    |i: int, v: Value| valid(k, i, v)
}

/// The labels of the fields of variant `k`.
pub open spec fn label_at(label: spec_fn(int, int) -> &'static str, k: int) -> spec_fn(int) -> &'static str {
    |i: int| label(k, i)
}

/// The values of the fields of variant `k`.
pub open spec fn val_at(val: spec_fn(int, int) -> Value, k: int) -> spec_fn(int) -> Value {
    |i: int| val(k, i)
}

/// The numbers of the bit fields of variant `k`.
pub open spec fn bits_at(bits: spec_fn(int, int) -> u64, k: int) -> spec_fn(int) -> u64 {
    |i: int| bits(k, i)
}

/// The bytes a value of variant `k` of a planned enum `out` writes: its
/// discriminant, big-endian in `width` bytes, then its fields' steps.
pub open spec fn encode_variant(
    vs: Seq<VariantSpec>,
    out: Seq<(u64, Seq<FieldOp>)>,
    width: nat,
    k: int,
    enc: spec_fn(int, int) -> Seq<u8>,
    bits: spec_fn(int, int) -> u64,
) -> Seq<u8> {
    be_bytes(out[k].0 as nat, width) + encode_steps(vs[k].fields@, out[k].1, enc_at(enc, k), bits_at(bits, k))
}

/// What decoding a value of a planned enum `out` reads: the discriminant, big-endian in `width`
/// bytes, then the steps of the variant it names, giving the variant's index
/// and its fields' values; `UnknownDiscriminant` where no variant has it.
pub open spec fn decode_variant(
    vs: Seq<VariantSpec>,
    out: Seq<(u64, Seq<FieldOp>)>,
    width: nat,
    enc: spec_fn(int, int) -> Seq<u8>,
    dec: spec_fn(int, int, Seq<u8>) -> Result<(Value, Seq<u8>), CodecError>,
    valid: spec_fn(int, int, Value) -> bool,
    label: spec_fn(int, int) -> &'static str,
    input: Seq<u8>,
) -> Result<((int, Map<int, Value>), Seq<u8>), CodecError> {
    if input.len() < width {
        Err(not_enough(width, input.len()))
    } else {
        let d = be_value(input.take(width as int));
        match find_variant(out, 0, d as int) {
            None => Err(CodecError::UnknownDiscriminant { value: d as u64 }),
            Some(k) => match decode_steps(
                vs[k].fields@,
                out[k].1,
                enc_at(enc, k),
                dec_at(dec, k),
                valid_at(valid, k),
                label_at(label, k),
                input.skip(width as int),
            ) {
                Err(e) => Err(e),
                Ok((m, rest)) => Ok(((k, m), rest)),
            },
        }
    }
}

proof fn lemma_find_variant(out: Seq<(u64, Seq<FieldOp>)>, i: int, k: int)
    requires
        0 <= i <= k < out.len(),
        forall|a: int, b: int| 0 <= a < b < out.len() ==> out[a].0 != out[b].0,
    ensures
        find_variant(out, i, out[k].0 as int) == Some(k),
    decreases k - i,
{
    if i < k {
        assert(out[i].0 != out[k].0);
        lemma_find_variant(out, i + 1, k);
    }
}

/// A planned enum's roundtrip law: where the fields of variant `k` decode
/// their own encodings back, pass their validation and fit their widths,
/// and the discriminant type's `width` bytes hold every number up to `max`,
/// decoding the bytes of a value of variant `k`, followed by any bytes,
/// gives back variant `k`, its fields' values and exactly those bytes.
pub proof fn lemma_enum_roundtrip(
    vs: Seq<VariantSpec>,
    max: u64,
    container: Option<Endian>,
    width: nat,
    k: int,
    enc: spec_fn(int, int) -> Seq<u8>,
    dec: spec_fn(int, int, Seq<u8>) -> Result<(Value, Seq<u8>), CodecError>,
    valid: spec_fn(int, int, Value) -> bool,
    label: spec_fn(int, int) -> &'static str,
    val: spec_fn(int, int) -> Value,
    bits: spec_fn(int, int) -> u64,
    rest: Seq<u8>,
)
    requires
        spec_plan_enum(vs, max, container) is Ok,
        max < pow256(width),
        0 <= k < vs.len(),
        vs[k].fields@.len() <= usize::MAX,
        fields_roundtrip(
            vs[k].fields@,
            enc_at(enc, k),
            dec_at(dec, k),
            valid_at(valid, k),
            val_at(val, k),
            bits_at(bits, k),
        ),
    ensures
        ({
            let out = spec_plan_enum(vs, max, container)->Ok_0;
            decode_variant(
                vs,
                out,
                width,
                enc,
                dec,
                valid,
                label,
                encode_variant(vs, out, width, k, enc, bits) + rest,
            ) == Ok::<((int, Map<int, Value>), Seq<u8>), CodecError>(
                ((k, record_values(out[k].1, val_at(val, k), bits_at(bits, k))), rest),
            )
        }),
{
    let out = spec_plan_enum(vs, max, container)->Ok_0;
    let fields = vs[k].fields@;
    assert(spec_plan_fields(fields, container) == Ok::<Seq<FieldOp>, PlanError>(out[k].1)
        && out[k].0 <= max && find_variant(out, 0, out[k].0 as int) == Some(k)) by {
        lemma_enum_plan(vs, max, container);
        lemma_find_variant(out, 0, k);
    }
    let d = out[k].0 as nat;
    let body = encode_steps(fields, out[k].1, enc_at(enc, k), bits_at(bits, k)) + rest;
    let input = encode_variant(vs, out, width, k, enc, bits) + rest;
    assert(input.len() >= width && be_value(input.take(width as int)) == d && input.skip(
        width as int,
    ) == body) by {
        lemma_be_bytes_value(d, width);
        vstd::arithmetic::div_mod::lemma_small_mod(d, pow256(width));
        assert(input =~= be_bytes(d, width) + body);
        assert(input.take(width as int) =~= be_bytes(d, width));
        assert(input.skip(width as int) =~= body);
    }
    lemma_record_roundtrip(
        fields,
        container,
        enc_at(enc, k),
        dec_at(dec, k),
        valid_at(valid, k),
        label_at(label, k),
        val_at(val, k),
        bits_at(bits, k),
        rest,
    );
}

} // verus!
