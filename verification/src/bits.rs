//! Bitfields: consecutive fields of given bit widths packed most significant
//! bit first into the fewest whole bytes, the unused low bits of the last
//! byte set to zero.
use crate::codec::not_enough;
use crate::error::CodecError;
use vstd::prelude::*;

verus! {

/// `2` raised to the power `n`.
pub open spec fn two_pow(n: nat) -> nat
    decreases n,
{
    if n == 0 {
        1
    } else {
        2 * two_pow((n - 1) as nat)
    }
}

/// The `w` low-order bits of `v`, most significant first.
pub open spec fn bits_of(v: nat, w: nat) -> Seq<bool>
    decreases w,
{
    if w == 0 {
        Seq::empty()
    } else {
        bits_of(v / 2, (w - 1) as nat).push(v % 2 == 1)
    }
}

/// The number that the bits `s` denote, most significant first.
pub open spec fn bits_value(s: Seq<bool>) -> nat
    decreases s.len(),
{
    if s.len() == 0 {
        0
    } else {
        bits_value(s.drop_last()) * 2 + (if s.last() {
            1nat
        } else {
            0nat
        })
    }
}

/// The sum of the first `k` widths.
pub open spec fn total_bits(widths: Seq<u32>, k: nat) -> nat
    decreases k,
{
    if k == 0 {
        0
    } else {
        total_bits(widths, (k - 1) as nat) + widths[k - 1] as nat
    }
}

/// Widths that a bitfield group may have: none wider than 64 bits, and a
/// total that leaves room to round up to whole bytes.
pub open spec fn widths_ok(widths: Seq<u32>) -> bool {
    &&& forall|k: int| 0 <= k < widths.len() ==> #[trigger] widths[k] <= 64
    &&& total_bits(widths, widths.len()) + 7 <= usize::MAX
}

/// The bits of the first `k` fields, one field after another.
pub open spec fn packed_bits(values: Seq<u64>, widths: Seq<u32>, k: nat) -> Seq<bool>
    decreases k,
{
    if k == 0 {
        Seq::empty()
    } else {
        packed_bits(values, widths, (k - 1) as nat) + bits_of(
            values[k - 1] as nat,
            widths[k - 1] as nat,
        )
    }
}

/// The number of whole bytes that `n` bits take.
pub open spec fn byte_count(n: nat) -> nat {
    (n + 7) / 8
}

/// `s` followed by zero bits up to a whole number of bytes.
pub open spec fn pad_bits(s: Seq<bool>) -> Seq<bool> {
    s + Seq::new((byte_count(s.len()) * 8 - s.len()) as nat, |i: int| false)
}

/// The bytes whose bits, most significant first, are `s` (a multiple of 8 long).
pub open spec fn bytes_from_bits(s: Seq<bool>) -> Seq<u8> {
    Seq::new(s.len() / 8, |k: int| bits_value(s.subrange(8 * k, 8 * k + 8)) as u8)
}

/// The bits of the bytes `b`, most significant first.
pub open spec fn bits_of_bytes(b: Seq<u8>) -> Seq<bool>
    decreases b.len(),
{
    if b.len() == 0 {
        Seq::empty()
    } else {
        bits_of_bytes(b.drop_last()) + bits_of(b.last() as nat, 8)
    }
}

/// The bytes of a packed bitfield group.
pub open spec fn spec_pack_bits(values: Seq<u64>, widths: Seq<u32>) -> Seq<u8> {
    bytes_from_bits(pad_bits(packed_bits(values, widths, values.len())))
}

/// The value of field `k` of a group read from the bits `bits`.
pub open spec fn field_value(bits: Seq<bool>, widths: Seq<u32>, k: nat) -> u64 {
    bits_value(bits.subrange(total_bits(widths, k) as int, total_bits(widths, k + 1) as int)) as u64
}

/// What unpacking a bitfield group of the given widths from `input` yields:
/// the field values and the bytes after the group, or the error.
pub open spec fn spec_unpack_bits(input: Seq<u8>, widths: Seq<u32>) -> Result<
    (Seq<u64>, Seq<u8>),
    CodecError,
> {
    let n = byte_count(total_bits(widths, widths.len()));
    if input.len() < n {
        Err(not_enough(n, input.len()))
    } else {
        let bits = bits_of_bytes(input.take(n as int));
        Ok(
            (
                Seq::new(widths.len(), |k: int| field_value(bits, widths, k as nat)),
                input.skip(n as int),
            ),
        )
    }
}

pub proof fn lemma_bits_of_len(v: nat, w: nat)
    ensures
        bits_of(v, w).len() == w,
    decreases w,
{
    if w > 0 {
        lemma_bits_of_len(v / 2, (w - 1) as nat);
    }
}

pub proof fn lemma_two_pow_monotone(a: nat, b: nat)
    requires
        a <= b,
    ensures
        1 <= two_pow(a) <= two_pow(b),
    decreases b,
{
    if a < b {
        lemma_two_pow_monotone(a, (b - 1) as nat);
    } else if b > 0 {
        lemma_two_pow_monotone(0, (b - 1) as nat);
    }
}

/// A number read from bits fits in them, and writes back to the same bits.
pub proof fn lemma_bits_value_of(s: Seq<bool>)
    ensures
        bits_value(s) < two_pow(s.len()),
        bits_of(bits_value(s), s.len()) == s,
    decreases s.len(),
{
    if s.len() > 0 {
        let t = s.drop_last();
        lemma_bits_value_of(t);
        let v = bits_value(s);
        assert(v / 2 == bits_value(t) && v % 2 == (if s.last() {
            1nat
        } else {
            0nat
        })) by {
            vstd::arithmetic::div_mod::lemma_fundamental_div_mod_converse(
                v as int,
                2,
                bits_value(t) as int,
                (if s.last() {
                    1int
                } else {
                    0int
                }),
            );
        }
        assert(bits_of(v, s.len()) =~= s);
    }
}

/// Bits of `v` read back give `v` modulo `2^w`.
pub proof fn lemma_bits_of_value(v: nat, w: nat)
    ensures
        bits_value(bits_of(v, w)) == v % two_pow(w),
    decreases w,
{
    if w > 0 {
        let m = (w - 1) as nat;
        lemma_bits_of_value(v / 2, m);
        lemma_two_pow_monotone(0, m);
        let s = bits_of(v, w);
        assert(s.drop_last() == bits_of(v / 2, m));
        let p = two_pow(m);
        let q = v / 2;
        let r = v % 2;
        assert(v == 2 * q + r) by (nonlinear_arith)
            requires
                q == v / 2,
                r == v % 2,
        ;
        let a = q / p;
        let b = q % p;
        assert(q == p * a + b && 0 <= b < p) by (nonlinear_arith)
            requires
                p >= 1,
                a == q / p,
                b == q % p,
        ;
        assert(v == (2 * p) * a + (2 * b + r)) by (nonlinear_arith)
            requires
                v == 2 * q + r,
                q == p * a + b,
        ;
        vstd::arithmetic::div_mod::lemma_fundamental_div_mod_converse(
            v as int,
            (2 * p) as int,
            a as int,
            (2 * b + r) as int,
        );
    }
}

pub proof fn lemma_total_bits_monotone(widths: Seq<u32>, a: nat, b: nat)
    requires
        a <= b,
    ensures
        total_bits(widths, a) <= total_bits(widths, b),
    decreases b,
{
    if a < b {
        lemma_total_bits_monotone(widths, a, (b - 1) as nat);
    }
}

/// The packed bits of `k` fields are as long as their widths together, and
/// field `j` occupies the bits from the sum of the widths before it.
pub proof fn lemma_packed_bits(values: Seq<u64>, widths: Seq<u32>, k: nat, j: nat)
    requires
        j < k,
    ensures
        packed_bits(values, widths, k).len() == total_bits(widths, k),
        packed_bits(values, widths, k).subrange(
            total_bits(widths, j) as int,
            total_bits(widths, j + 1) as int,
        ) == bits_of(values[j as int] as nat, widths[j as int] as nat),
    decreases k,
{
    lemma_packed_len(values, widths, k);
    let prev = packed_bits(values, widths, (k - 1) as nat);
    lemma_packed_len(values, widths, (k - 1) as nat);
    lemma_bits_of_len(values[k - 1] as nat, widths[k - 1] as nat);
    if j + 1 < k {
        lemma_packed_bits(values, widths, (k - 1) as nat, j);
        lemma_total_bits_monotone(widths, j + 1, (k - 1) as nat);
        assert(packed_bits(values, widths, k).subrange(
            total_bits(widths, j) as int,
            total_bits(widths, j + 1) as int,
        ) =~= prev.subrange(total_bits(widths, j) as int, total_bits(widths, j + 1) as int));
    } else {
        assert(packed_bits(values, widths, k).subrange(
            total_bits(widths, j) as int,
            total_bits(widths, j + 1) as int,
        ) =~= bits_of(values[j as int] as nat, widths[j as int] as nat));
    }
}

pub proof fn lemma_packed_len(values: Seq<u64>, widths: Seq<u32>, k: nat)
    ensures
        packed_bits(values, widths, k).len() == total_bits(widths, k),
    decreases k,
{
    if k > 0 {
        lemma_packed_len(values, widths, (k - 1) as nat);
        lemma_bits_of_len(values[k - 1] as nat, widths[k - 1] as nat);
    }
}

/// The bits of the bytes made from bits are those bits.
pub proof fn lemma_bits_of_bytes_from_bits(s: Seq<bool>)
    requires
        s.len() % 8 == 0,
    ensures
        bits_of_bytes(bytes_from_bits(s)) == s,
        bytes_from_bits(s).len() == s.len() / 8,
    decreases s.len(),
{
    let b = bytes_from_bits(s);
    if s.len() > 0 {
        let n = s.len() as int;
        let t = s.subrange(0, n - 8);
        lemma_bits_of_bytes_from_bits(t);
        assert(b.drop_last() =~= bytes_from_bits(t)) by {
            assert forall|k: int| 0 <= k < t.len() / 8 implies #[trigger] t.subrange(8 * k, 8 * k + 8)
                == s.subrange(8 * k, 8 * k + 8) by {
                assert(t.subrange(8 * k, 8 * k + 8) =~= s.subrange(8 * k, 8 * k + 8));
            }
        }
        let last = s.subrange(n - 8, n);
        assert(b.last() == bits_value(last) as u8);
        lemma_bits_value_of(last);
        lemma_two_pow_monotone(8, 8);
        assert(two_pow(8) == 256) by {
            reveal_with_fuel(two_pow, 9);
        }
        assert(s =~= t + last);
    } else {
        assert(b =~= Seq::<u8>::empty());
    }
}

pub proof fn lemma_bits_of_bytes_len(b: Seq<u8>)
    ensures
        bits_of_bytes(b).len() == 8 * b.len(),
    decreases b.len(),
{
    if b.len() > 0 {
        lemma_bits_of_bytes_len(b.drop_last());
        lemma_bits_of_len(b.last() as nat, 8);
    }
}

/// The law of bitfields: unpacking a packed group, followed by any bytes,
/// gives back each value reduced to its width, and exactly those bytes.
pub proof fn lemma_bits_roundtrip(values: Seq<u64>, widths: Seq<u32>, rest: Seq<u8>)
    requires
        values.len() == widths.len(),
        widths_ok(widths),
    ensures
        spec_unpack_bits(spec_pack_bits(values, widths) + rest, widths) == Ok::<
            (Seq<u64>, Seq<u8>),
            CodecError,
        >(
            (
                Seq::new(
                    values.len(),
                    |k: int| (values[k] as nat % two_pow(widths[k] as nat)) as u64,
                ),
                rest,
            ),
        ),
{
    let k = values.len();
    let p = packed_bits(values, widths, k);
    lemma_packed_len(values, widths, k);
    let total = total_bits(widths, k);
    let n = byte_count(total);
    let q = pad_bits(p);
    assert(q.len() == n * 8);
    assert(q.len() % 8 == 0);
    let bytes = bytes_from_bits(q);
    lemma_bits_of_bytes_from_bits(q);
    assert(bytes.len() == n);
    let input = bytes + rest;
    assert(input.take(n as int) =~= bytes);
    assert(input.skip(n as int) =~= rest);
    let got = Seq::new(widths.len(), |j: int| field_value(q, widths, j as nat));
    let want = Seq::new(values.len(), |j: int| (values[j] as nat % two_pow(widths[j] as nat)) as u64);
    assert forall|j: int| 0 <= j < k implies #[trigger] got[j] == want[j] by {
        lemma_packed_bits(values, widths, k, j as nat);
        lemma_total_bits_monotone(widths, (j + 1) as nat, k);
        assert(q.subrange(total_bits(widths, j as nat) as int, total_bits(widths, (j + 1) as nat) as int)
            =~= p.subrange(total_bits(widths, j as nat) as int, total_bits(widths, (j + 1) as nat) as int));
        lemma_bits_of_value(values[j] as nat, widths[j] as nat);
        lemma_two_pow_monotone(0, widths[j] as nat);
        vstd::arithmetic::div_mod::lemma_mod_bound(values[j] as int, two_pow(widths[j] as nat) as int);
    }
    assert(got =~= want);
}

/// Append the `w` low-order bits of `v`, most significant first.
fn push_bits(out: &mut Vec<bool>, v: u64, w: u32)
    ensures
        final(out)@ == old(out)@ + bits_of(v as nat, w as nat),
    decreases w,
{
    if w > 0 {
        push_bits(out, v / 2, w - 1);
        out.push(v % 2 == 1);
    }
}

/// `2^64`, the bound of a 64-bit field.
proof fn lemma_two_pow_64()
    ensures
        two_pow(64) == 0x1_0000_0000_0000_0000,
{
    reveal_with_fuel(two_pow, 65);
}

/// The number that the `w` bits from `off` denote.
fn read_field(bits: &Vec<bool>, off: usize, w: u32) -> (r: u64)
    requires
        w <= 64,
        off + w <= bits@.len(),
        off + w <= usize::MAX,
    ensures
        r as nat == bits_value(bits@.subrange(off as int, off + w)),
{
    proof {
        lemma_two_pow_64();
    }
    let mut acc: u64 = 0;
    let mut j: u32 = 0;
    while j < w
        invariant
            j <= w <= 64,
            off + w <= bits@.len(),
            off + w <= usize::MAX,
            acc as nat == bits_value(bits@.subrange(off as int, off + j)),
            acc as nat <= two_pow(j as nat) - 1,
            two_pow(64) == 0x1_0000_0000_0000_0000,
        decreases w - j,
    {
        proof {
            let s = bits@.subrange(off as int, off + j + 1);
            assert(s.drop_last() =~= bits@.subrange(off as int, off + j));
            lemma_two_pow_monotone((j + 1) as nat, 64);
        }
        let bit: u64 = if bits[off + j as usize] {
            1
        } else {
            0
        };
        acc = acc * 2 + bit;
        j = j + 1;
    }
    acc
}

/// The byte whose bits, most significant first, are the 8 bits from `start`.
fn byte_at(bits: &Vec<bool>, start: usize) -> (r: u8)
    requires
        start + 8 <= bits@.len(),
        start + 8 <= usize::MAX,
    ensures
        r as nat == bits_value(bits@.subrange(start as int, start + 8)),
{
    proof {
        reveal_with_fuel(two_pow, 9);
    }
    let mut acc: u8 = 0;
    let mut b: usize = 0;
    while b < 8
        invariant
            b <= 8,
            start + 8 <= bits@.len(),
            start + 8 <= usize::MAX,
            acc as nat == bits_value(bits@.subrange(start as int, start + b)),
            acc as nat <= two_pow(b as nat) - 1,
            two_pow(8) == 256,
        decreases 8 - b,
    {
        proof {
            let s = bits@.subrange(start as int, start + b + 1);
            assert(s.drop_last() =~= bits@.subrange(start as int, start + b));
            lemma_two_pow_monotone((b + 1) as nat, 8);
        }
        let bit: u8 = if bits[start + b] {
            1
        } else {
            0
        };
        acc = acc * 2 + bit;
        b = b + 1;
    }
    acc
}

/// Append a bitfield group: the fields' values, each reduced to its width,
/// packed most significant bit first into the fewest whole bytes.
pub fn pack_bits(buf: &mut Vec<u8>, values: &[u64], widths: &[u32])
    requires
        values@.len() == widths@.len(),
        widths_ok(widths@),
    ensures
        final(buf)@ == old(buf)@ + spec_pack_bits(values@, widths@),
{
    let mut bits: Vec<bool> = Vec::new();
    let mut k: usize = 0;
    while k < values.len()
        invariant
            k <= values@.len() == widths@.len(),
            bits@ == packed_bits(values@, widths@, k as nat),
        decreases values@.len() - k,
    {
        push_bits(&mut bits, values[k], widths[k]);
        k = k + 1;
    }
    let ghost p = bits@;
    proof {
        lemma_packed_len(values@, widths@, values@.len());
    }
    let len = bits.len();
    let padded_len = (len + 7) / 8 * 8;
    let mut j: usize = len;
    while j < padded_len
        invariant
            len <= j <= padded_len,
            bits@ == p + Seq::new((j - len) as nat, |i: int| false),
        decreases padded_len - j,
    {
        bits.push(false);
        j = j + 1;
        assert(bits@ =~= p + Seq::new((j - len) as nat, |i: int| false));
    }
    assert(bits@ =~= pad_bits(p));
    let ghost start = buf@;
    let count = padded_len / 8;
    let mut i: usize = 0;
    proof {
        reveal_with_fuel(two_pow, 9);
    }
    while i < count
        invariant
            i <= count,
            count == bits@.len() / 8,
            bits@.len() == padded_len,
            padded_len % 8 == 0,
            two_pow(8) == 256,
            buf@ == start + bytes_from_bits(bits@).take(i as int),
        decreases count - i,
    {
        let acc = byte_at(&bits, 8 * i);
        buf.push(acc);
        proof {
            assert(bytes_from_bits(bits@)[i as int] == acc);
            assert(buf@ =~= start + bytes_from_bits(bits@).take(i + 1));
        }
        i = i + 1;
    }
    assert(bytes_from_bits(bits@).take(count as int) =~= bytes_from_bits(bits@));
}

/// Read a bitfield group of the given widths from the front of `input`.
pub fn unpack_bits<'a>(input: &'a [u8], widths: &[u32]) -> (r: Result<
    (Vec<u64>, &'a [u8]),
    CodecError,
>)
    requires
        widths_ok(widths@),
    ensures
        match r {
            Ok((vals, rest)) => spec_unpack_bits(input@, widths@) == Ok::<
                (Seq<u64>, Seq<u8>),
                CodecError,
            >((vals@, rest@)),
            Err(e) => spec_unpack_bits(input@, widths@) == Err::<(Seq<u64>, Seq<u8>), CodecError>(
                e,
            ),
        },
{
    let mut total: usize = 0;
    let mut k: usize = 0;
    while k < widths.len()
        invariant
            k <= widths@.len(),
            widths_ok(widths@),
            total == total_bits(widths@, k as nat),
        decreases widths@.len() - k,
    {
        proof {
            lemma_total_bits_monotone(widths@, (k + 1) as nat, widths@.len());
        }
        total = total + widths[k] as usize;
        k = k + 1;
    }
    let n = (total + 7) / 8;
    if input.len() < n {
        return Err(CodecError::NotEnoughBytes { needed: n, available: input.len() });
    }
    let (head, rest) = input.split_at(n);
    let mut bits: Vec<bool> = Vec::new();
    let mut i: usize = 0;
    while i < n
        invariant
            i <= n,
            head@.len() == n,
            bits@ == bits_of_bytes(head@.take(i as int)),
        decreases n - i,
    {
        push_bits(&mut bits, head[i] as u64, 8);
        proof {
            assert(head@.take(i + 1).drop_last() =~= head@.take(i as int));
        }
        i = i + 1;
    }
    assert(head@.take(n as int) =~= head@);
    proof {
        lemma_bits_of_bytes_len(head@);
    }
    let ghost all_bits = bits@;
    let mut vals: Vec<u64> = Vec::new();
    let mut off: usize = 0;
    let mut k: usize = 0;
    while k < widths.len()
        invariant
            k <= widths@.len(),
            widths_ok(widths@),
            total == total_bits(widths@, widths@.len()),
            bits@ == all_bits,
            bits@.len() == 8 * n,
            total <= 8 * n,
            off == total_bits(widths@, k as nat),
            vals@ == Seq::new(k as nat, |j: int| field_value(all_bits, widths@, j as nat)),
        decreases widths@.len() - k,
    {
        let w = widths[k];
        proof {
            lemma_total_bits_monotone(widths@, (k + 1) as nat, widths@.len());
            assert(widths@[k as int] <= 64);
        }
        let acc = read_field(&bits, off, w);
        vals.push(acc);
        proof {
            assert(vals@ =~= Seq::new((k + 1) as nat, |jj: int| field_value(all_bits, widths@, jj as nat)));
        }
        off = off + w as usize;
        k = k + 1;
    }
    Ok((vals, rest))
}

} // verus!
