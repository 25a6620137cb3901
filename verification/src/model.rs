//! The mathematical model of encoded data: abstract values and the
//! byte-level arithmetic of fixed-width integers.
use vstd::prelude::*;

verus! {

/// The abstract value that an encodable datum stands for.
///
/// Decoding is specified in terms of these values: a decoder returns a datum
/// whose `Value` is the one that the specification assigns to the input.
pub ghost enum Value {
    /// An integer of any width and signedness.
    Int(int),
    /// A boolean.
    Bool(bool),
    /// A Unicode string, as its characters.
    Text(Seq<char>),
    /// A sequence of values: vectors, arrays, tuples.
    List(Seq<Value>),
    /// An absent optional value.
    Absent,
    /// A present optional value.
    Present(Box<Value>),
    /// A map, from the codes of its keys' values to its entries' values.
    Dict(Map<Seq<int>, Value>),
}

/// A sequence of integers that stands for a value, distinct for distinct
/// values other than maps: it lets values serve as the keys of `Value::Dict`.
pub open spec fn value_code(v: Value) -> Seq<int>
    decreases v,
{
    match v {
        Value::Int(i) => seq![0, i],
        Value::Bool(b) => seq![1, if b { 1int } else { 0int }],
        Value::Text(cs) => seq![2, cs.len() as int] + Seq::new(cs.len(), |i: int| cs[i] as int),
        Value::List(vs) => seq![3, vs.len() as int] + codes_of(vs),
        Value::Absent => seq![4],
        Value::Present(b) => seq![5] + value_code(*b),
        Value::Dict(_) => seq![6],
    }
}

/// The codes of the values `vs`, one after another.
pub open spec fn codes_of(vs: Seq<Value>) -> Seq<int>
    decreases vs,
{
    if vs.len() == 0 {
        Seq::empty()
    } else {
        codes_of(vs.drop_last()) + value_code(vs.last())
    }
}

/// `256` raised to the power `n`: the number of values that `n` bytes hold.
pub open spec fn pow256(n: nat) -> nat
    decreases n,
{
    if n == 0 {
        1
    } else {
        256 * pow256((n - 1) as nat)
    }
}

/// The `n` low-order bytes of `v`, most significant first.
pub open spec fn be_bytes(v: nat, n: nat) -> Seq<u8>
    decreases n,
{
    if n == 0 {
        Seq::empty()
    } else {
        be_bytes(v / 256, (n - 1) as nat).push((v % 256) as u8)
    }
}

/// The `n` low-order bytes of `v`, least significant first.
pub open spec fn le_bytes(v: nat, n: nat) -> Seq<u8>
    decreases n,
{
    if n == 0 {
        Seq::empty()
    } else {
        seq![(v % 256) as u8] + le_bytes(v / 256, (n - 1) as nat)
    }
}

/// The unsigned number that the bytes `s` denote, most significant first.
pub open spec fn be_value(s: Seq<u8>) -> nat
    decreases s.len(),
{
    if s.len() == 0 {
        0
    } else {
        be_value(s.drop_last()) * 256 + s.last() as nat
    }
}

/// The unsigned number that the bytes `s` denote, least significant first.
pub open spec fn le_value(s: Seq<u8>) -> nat
    decreases s.len(),
{
    if s.len() == 0 {
        0
    } else {
        s[0] as nat + 256 * le_value(s.drop_first())
    }
}

/// The bytes of `v` in the given byte order.
pub open spec fn uint_bytes(v: nat, n: nat, little: bool) -> Seq<u8> {
    if little {
        le_bytes(v, n)
    } else {
        be_bytes(v, n)
    }
}

/// The unsigned number that `s` denotes in the given byte order.
pub open spec fn uint_value(s: Seq<u8>, little: bool) -> nat {
    if little {
        le_value(s)
    } else {
        be_value(s)
    }
}

/// The two's-complement bit pattern of `x` in `n` bytes, read as unsigned.
pub open spec fn unsigned_of(x: int, n: nat) -> nat {
    if x < 0 {
        (x + pow256(n)) as nat
    } else {
        x as nat
    }
}

/// The signed number whose `n`-byte two's-complement pattern is `u`.
pub open spec fn signed_of(u: nat, n: nat) -> int {
    if 2 * u >= pow256(n) {
        u - pow256(n)
    } else {
        u as int
    }
}

pub proof fn lemma_pow256_positive(n: nat)
    ensures
        pow256(n) >= 1,
    decreases n,
{
    if n > 0 {
        lemma_pow256_positive((n - 1) as nat);
    }
}

/// Byte `k` of the number `v`, counting from the least significant byte 0.
pub open spec fn byte_of(v: nat, k: nat) -> u8 {
    ((v / pow256(k)) % 256) as u8
}

/// Whether `s` is the `n` bytes of `v`, least significant first.
pub open spec fn little_endian_bytes(s: Seq<u8>, v: nat, n: nat) -> bool {
    &&& s.len() == n
    &&& forall|k: int| 0 <= k < n ==> #[trigger] s[k] == byte_of(v, k as nat)
}

/// Whether `s` is the `n` bytes of `v`, most significant first.
pub open spec fn big_endian_bytes(s: Seq<u8>, v: nat, n: nat) -> bool {
    &&& s.len() == n
    &&& forall|k: int| 0 <= k < n ==> #[trigger] s[k] == byte_of(v, (n - 1 - k) as nat)
}

proof fn lemma_div_step(v: nat, k: nat)
    ensures
        (v / 256) / pow256(k) == v / pow256(k + 1),
{
    lemma_pow256_positive(k);
    vstd::arithmetic::div_mod::lemma_div_denominator(v as int, 256, pow256(k) as int);
    assert(pow256(k + 1) == 256 * pow256(k));
}

/// `le_bytes` writes the bytes of its number least significant first.
pub proof fn lemma_le_bytes_order(v: nat, n: nat)
    ensures
        little_endian_bytes(le_bytes(v, n), v, n),
    decreases n,
{
    if n > 0 {
        lemma_le_bytes_order(v / 256, (n - 1) as nat);
        let s = le_bytes(v, n);
        let t = le_bytes(v / 256, (n - 1) as nat);
        assert forall|k: int| 0 <= k < n implies #[trigger] s[k] == byte_of(v, k as nat) by {
            if k == 0 {
                assert(pow256(0) == 1);
            } else {
                assert(s[k] == t[k - 1]);
                lemma_div_step(v, (k - 1) as nat);
            }
        }
    }
}

/// `be_bytes` writes the bytes of its number most significant first.
pub proof fn lemma_be_bytes_order(v: nat, n: nat)
    ensures
        big_endian_bytes(be_bytes(v, n), v, n),
    decreases n,
{
    if n > 0 {
        lemma_be_bytes_order(v / 256, (n - 1) as nat);
        let s = be_bytes(v, n);
        let t = be_bytes(v / 256, (n - 1) as nat);
        assert forall|k: int| 0 <= k < n implies #[trigger] s[k] == byte_of(v, (n - 1 - k) as nat) by {
            if k == n - 1 {
                assert(pow256(0) == 1);
                assert(s[k] == (v % 256) as u8);
                assert(v / pow256(0) == v);
                assert(s[k] == byte_of(v, (n - 1 - k) as nat));
            } else {
                assert(s[k] == t[k]);
                assert(t[k] == byte_of(v / 256, ((n - 1) - 1 - k) as nat));
                lemma_div_step(v, (n - 2 - k) as nat);
                assert(((n - 2 - k) as nat + 1) as nat == (n - 1 - k) as nat);
                assert(s[k] == byte_of(v, (n - 1 - k) as nat));
            }
        }
    }
}

/// The powers of 256 that the fixed-width integers use.
pub proof fn lemma_pow256_values()
    ensures
        pow256(0) == 1,
        pow256(1) == 0x100,
        pow256(2) == 0x1_0000,
        pow256(4) == 0x1_0000_0000,
        pow256(8) == 0x1_0000_0000_0000_0000,
        pow256(16) == 0x1_0000_0000_0000_0000_0000_0000_0000_0000,
{
    reveal_with_fuel(pow256, 17);
}

proof fn lemma_div_mod_step(v: nat, p: nat)
    requires
        p >= 1,
    ensures
        ((v / 256) % p) * 256 + v % 256 == v % (256 * p),
        (v / 256) % p < p,
{
    let q = v / 256;
    let r = v % 256;
    let a = q / p;
    let b = q % p;
    assert(v == 256 * q + r) by (nonlinear_arith)
        requires
            q == v / 256,
            r == v % 256,
    ;
    assert(q == p * a + b && 0 <= b < p) by (nonlinear_arith)
        requires
            p >= 1,
            a == q / p,
            b == q % p,
    ;
    assert(v == (256 * p) * a + (256 * b + r)) by (nonlinear_arith)
        requires
            v == 256 * q + r,
            q == p * a + b,
    ;
    assert(0 <= 256 * b + r < 256 * p) by (nonlinear_arith)
        requires
            0 <= b < p,
            0 <= r < 256,
    ;
    vstd::arithmetic::div_mod::lemma_fundamental_div_mod_converse(
        v as int,
        (256 * p) as int,
        a as int,
        (256 * b + r) as int,
    );
}

proof fn lemma_mod_step_le(v: nat, p: nat)
    requires
        p >= 1,
    ensures
        v % 256 + 256 * ((v / 256) % p) == v % (256 * p),
{
    lemma_div_mod_step(v, p);
}

/// Writing `n` bytes big-endian and reading them back gives `v` modulo `256^n`.
pub proof fn lemma_be_bytes_value(v: nat, n: nat)
    ensures
        be_bytes(v, n).len() == n,
        be_value(be_bytes(v, n)) == v % pow256(n),
    decreases n,
{
    if n == 0 {
    } else {
        let m = (n - 1) as nat;
        lemma_be_bytes_value(v / 256, m);
        lemma_pow256_positive(m);
        let s = be_bytes(v, n);
        assert(s.drop_last() == be_bytes(v / 256, m));
        lemma_div_mod_step(v, pow256(m));
    }
}

/// Writing `n` bytes little-endian and reading them back gives `v` modulo `256^n`.
pub proof fn lemma_le_bytes_value(v: nat, n: nat)
    ensures
        le_bytes(v, n).len() == n,
        le_value(le_bytes(v, n)) == v % pow256(n),
    decreases n,
{
    if n == 0 {
    } else {
        let m = (n - 1) as nat;
        lemma_le_bytes_value(v / 256, m);
        lemma_pow256_positive(m);
        let s = le_bytes(v, n);
        assert(s.drop_first() == le_bytes(v / 256, m));
        lemma_mod_step_le(v, pow256(m));
    }
}

/// Reading bytes big-endian and writing the number back gives the same bytes.
pub proof fn lemma_be_value_bytes(s: Seq<u8>)
    ensures
        be_bytes(be_value(s), s.len()) == s,
        be_value(s) < pow256(s.len()),
    decreases s.len(),
{
    if s.len() > 0 {
        let t = s.drop_last();
        lemma_be_value_bytes(t);
        let v = be_value(s);
        assert(v / 256 == be_value(t) && v % 256 == s.last()) by {
            vstd::arithmetic::div_mod::lemma_fundamental_div_mod_converse(
                v as int,
                256,
                be_value(t) as int,
                s.last() as int,
            );
        }
        assert(be_bytes(v, s.len()) =~= s);
    }
}

/// Reading bytes little-endian and writing the number back gives the same bytes.
pub proof fn lemma_le_value_bytes(s: Seq<u8>)
    ensures
        le_bytes(le_value(s), s.len()) == s,
        le_value(s) < pow256(s.len()),
    decreases s.len(),
{
    if s.len() > 0 {
        let t = s.drop_first();
        lemma_le_value_bytes(t);
        let v = le_value(s);
        assert(v / 256 == le_value(t) && v % 256 == s[0]) by {
            vstd::arithmetic::div_mod::lemma_fundamental_div_mod_converse(
                v as int,
                256,
                le_value(t) as int,
                s[0] as int,
            );
        }
        assert(le_bytes(v, s.len()) =~= s);
    }
}

/// Both byte orders: bytes of `v` read back give `v` when it fits in `n` bytes.
pub proof fn lemma_uint_roundtrip(v: nat, n: nat, little: bool)
    requires
        v < pow256(n),
    ensures
        uint_bytes(v, n, little).len() == n,
        uint_value(uint_bytes(v, n, little), little) == v,
{
    lemma_be_bytes_value(v, n);
    lemma_le_bytes_value(v, n);
    vstd::arithmetic::div_mod::lemma_small_mod(v, pow256(n));
}

/// Both byte orders: a number read from bytes fits in them and writes back to them.
pub proof fn lemma_uint_value_bytes(s: Seq<u8>, little: bool)
    ensures
        uint_value(s, little) < pow256(s.len()),
        uint_bytes(uint_value(s, little), s.len(), little) == s,
{
    lemma_be_value_bytes(s);
    lemma_le_value_bytes(s);
}

/// Two's complement in `n` bytes: the pattern of `x` reads back as `x`.
pub proof fn lemma_signed_roundtrip(x: int, n: nat)
    requires
        n >= 1,
        -(pow256(n) as int) <= 2 * x < pow256(n),
    ensures
        unsigned_of(x, n) < pow256(n),
        signed_of(unsigned_of(x, n), n) == x,
{
}

/// Two's complement in `n` bytes: a pattern read as signed writes back as itself.
pub proof fn lemma_unsigned_roundtrip(u: nat, n: nat)
    requires
        u < pow256(n),
    ensures
        -(pow256(n) as int) <= 2 * signed_of(u, n) < pow256(n),
        unsigned_of(signed_of(u, n), n) == u,
{
}

} // verus!
