use crate::codec::{
    codec_consumes_prefix, codec_roundtrips, is_suffix, lemma_suffix_trans, Codec, MAX_DECODE_LEN,
};
use crate::tuples::{lemma_tuple2_consumes_prefix, lemma_tuple2_roundtrip};
use crate::error::CodecError;
use crate::model::{value_code, Value};
use crate::seq::{
    decode_items, decode_len, encode_items, encode_len, lemma_decode_items_error_persists,
    lemma_decode_items_suffix, lemma_seq_roundtrip, values_of,
    spec_decode_len, spec_encode_len, spec_encode_seq, standard_rule, LenPrefix, LenRule,
};
use std::collections::HashMap;
use std::hash::Hash;
use vstd::prelude::*;
use vstd::std_specs::hash::{into_iter, obeys_key_model, spec_hash_map_iter};
use vstd::std_specs::iter::IteratorSpec;

verus! {

broadcast use vstd::std_specs::hash::group_hash_axioms;

/// The entries of `m` in the order in which the map walks them.
pub open spec fn walk_order<K, V>(m: &HashMap<K, V>) -> Seq<(K, V)> {
    into_iter(spec_hash_map_iter(m))
}

/// Whether `w` lists exactly the entries of `m`, as many as it has.
pub open spec fn lists_entries<K, V>(m: &HashMap<K, V>, w: Seq<(K, V)>) -> bool {
    &&& w.len() == m@.len()
    &&& forall|i: int| 0 <= i < w.len() ==> m@.contains_key(#[trigger] w[i].0) && m@[w[i].0] == w[i].1
    &&& forall|k: K| #[trigger] m@.contains_key(k) ==> exists|i: int| 0 <= i < w.len() && w[i].0 == k
}

/// Whether the walk order of `m` lists exactly its entries, as many as it has.
pub open spec fn walk_lists_entries<K, V>(m: &HashMap<K, V>) -> bool {
    lists_entries(m, walk_order(m))
}

/// The order in which the entries of `m` are encoded: its walk order, which
/// lists its entries wherever the key type obeys vstd's hash-key model (see
/// `encode`); for other key types, some listing of its entries.
pub open spec fn encoding_order<K, V>(m: &HashMap<K, V>) -> Seq<(K, V)> {
    if walk_lists_entries(m) {
        walk_order(m)
    } else {
        choose|w: Seq<(K, V)>| lists_entries(m, w)
    }
}

/// Every map's encoding order lists exactly its entries.
pub proof fn lemma_encoding_order_lists_entries<K, V>(m: &HashMap<K, V>)
    ensures
        lists_entries(m, encoding_order(m)),
{
    if !walk_lists_entries(m) {
        let v = spec_hash_map_iter(m).remaining();
        let w = v.unref();
        assert forall|i: int| 0 <= i < w.len() implies m@.contains_key(#[trigger] w[i].0)
            && m@[w[i].0] == w[i].1 by {
            assert(m@.contains_key(*v[i].0));
        }
        assert forall|k: K| #[trigger] m@.contains_key(k) implies exists|i: int|
            0 <= i < w.len() && w[i].0 == k by {
            assert(v.contains((&k, &m@[k])));
            let i = choose|i: int| 0 <= i < v.len() && v[i] == (&k, &m@[k]);
            assert(w[i].0 == k);
        }
        assert(lists_entries(m, w));
    }
}

/// The map that inserting the entries of `s` in order builds.
pub open spec fn map_of<K, V>(s: Seq<(K, V)>) -> Map<K, V>
    decreases s.len(),
{
    if s.len() == 0 {
        Map::empty()
    } else {
        map_of(s.drop_last()).insert(s.last().0, s.last().1)
    }
}

/// Keys whose abstract values tell them apart.
pub open spec fn values_distinguish<K: Codec>() -> bool {
    forall|a: K, b: K|
        #[trigger] value_code(a.spec_value()) == #[trigger] value_code(b.spec_value()) ==> a == b
}

/// The abstract value of a map: each key's value mapped to its entry's value.
pub open spec fn map_value<K: Codec, V: Codec>(m: Map<K, V>) -> Map<Seq<int>, Value> {
    Map::new(
        |c: Seq<int>| exists|k: K| #[trigger] m.contains_key(k) && value_code(k.spec_value()) == c,
        |c: Seq<int>|
            m[choose|k: K| #[trigger] m.contains_key(k) && value_code(k.spec_value()) == c].spec_value(),
    )
}

/// The map that inserting the decoded key-value pairs in order builds: a
/// later pair replaces an earlier one with the same key.
pub open spec fn dict_of(items: Seq<Value>) -> Map<Seq<int>, Value>
    decreases items.len(),
{
    if items.len() == 0 {
        Map::empty()
    } else {
        match items.last() {
            Value::List(p) => dict_of(items.drop_last()).insert(value_code(p[0]), p[1]),
            _ => dict_of(items.drop_last()),
        }
    }
}

/// What decoding a map yields: a `u32` entry count, then that many key-value pairs.
pub open spec fn spec_decode_map<K: Codec, V: Codec>(input: Seq<u8>) -> Result<
    (Value, Seq<u8>),
    CodecError,
> {
    match spec_decode_len(input, standard_rule()) {
        Ok((n, rest)) => match decode_items::<(K, V)>(rest, n) {
            Ok((items, rest2)) => Ok((Value::Dict(dict_of(items)), rest2)),
            Err(e) => Err(e),
        },
        Err(e) => Err(e),
    }
}

/// The empty map's value is the empty map.
pub proof fn lemma_map_value_empty<K: Codec, V: Codec>()
    ensures
        map_value(Map::<K, V>::empty()) == Map::<Seq<int>, Value>::empty(),
{
    assert(map_value(Map::<K, V>::empty()) =~= Map::<Seq<int>, Value>::empty());
}

/// Inserting an entry inserts its values, where key values tell keys apart.
pub proof fn lemma_map_value_insert<K: Codec, V: Codec>(m: Map<K, V>, k: K, v: V)
    requires
        values_distinguish::<K>(),
    ensures
        map_value(m.insert(k, v)) == map_value(m).insert(value_code(k.spec_value()), v.spec_value()),
{
    let m2 = m.insert(k, v);
    let kc = value_code(k.spec_value());
    let lhs = map_value(m2);
    let rhs = map_value(m).insert(kc, v.spec_value());
    assert forall|c: Seq<int>| lhs.contains_key(c) <==> rhs.contains_key(c) by {
        if rhs.contains_key(c) && c != kc {
            let k0 = choose|k0: K| #[trigger] m.contains_key(k0) && value_code(k0.spec_value()) == c;
            assert(m2.contains_key(k0));
        }
        if lhs.contains_key(c) {
            let k0 = choose|k0: K| #[trigger] m2.contains_key(k0) && value_code(k0.spec_value()) == c;
            if k0 != k {
                assert(m.contains_key(k0));
            }
        }
        assert(m2.contains_key(k));
    }
    assert forall|c: Seq<int>| #[trigger] lhs.contains_key(c) implies lhs[c] == rhs[c] by {
        let k0 = choose|k0: K| #[trigger] m2.contains_key(k0) && value_code(k0.spec_value()) == c;
        if c == kc {
            assert(k0 == k);
        } else {
            assert(k0 != k);
            assert(m.contains_key(k0));
            let k1 = choose|k1: K| #[trigger] m.contains_key(k1) && value_code(k1.spec_value()) == c;
            assert(k1 == k0);
        }
    }
    assert(lhs =~= rhs);
}

/// The next item of an iterator, through the iterator laws of vstd.
fn next_item<I: Iterator>(it: &mut I) -> (r: Option<I::Item>)
    ensures
        (*old(it)).obeys_prophetic_iter_laws() ==> ({
            if (*old(it)).remaining().len() > 0 {
                &&& (*final(it)).remaining() == (*old(it)).remaining().drop_first()
                &&& r == Some((*old(it)).remaining()[0])
            } else {
                r === None
            }
        }),
{
    it.next()
}

/// Append a `u32` entry count, then each key and its value, in the order in
/// which the map walks its entries.
fn encode_map<K: Codec + Eq + Hash, V: Codec>(m: &HashMap<K, V>, buf: &mut Vec<u8>)
    ensures
        K::obeys_codec_spec() && V::obeys_codec_spec() && obeys_key_model::<K>() ==> final(buf)@
            == old(buf)@ + spec_encode_seq::<(K, V)>(walk_order(m), LenPrefix::U32),
        obeys_key_model::<K>() ==> walk_lists_entries(m),
        m.len() == 0 ==> final(buf)@ == old(buf)@ + spec_encode_len(0, LenPrefix::U32),
{
    let ghost start = buf@;
    let ghost obeys = K::obeys_codec_spec() && V::obeys_codec_spec() && obeys_key_model::<K>();
    let n = m.len();
    encode_len(buf, n, LenPrefix::U32);
    let ghost mid = buf@;
    let ghost w = walk_order(m);
    let mut iter = m.iter();
    proof {
        if obeys_key_model::<K>() {
            let v = spec_hash_map_iter(m).remaining();
            assert(v.len() == m@.dom().len());
            assert forall|i: int| 0 <= i < w.len() implies m@.contains_key(#[trigger] w[i].0)
                && m@[w[i].0] == w[i].1 by {
                assert(m@.contains_key(*v[i].0));
            }
            assert forall|k: K| #[trigger] m@.contains_key(k) implies exists|i: int|
                0 <= i < w.len() && w[i].0 == k by {
                assert(v.contains((&k, &m@[k])));
                let i = choose|i: int| 0 <= i < v.len() && v[i] == (&k, &m@[k]);
                assert(w[i].0 == k);
            }
        }
    }
    let mut i: usize = 0;
    while i < n
        invariant
            i <= n,
            w == walk_order(m),
            obeys == (K::obeys_codec_spec() && V::obeys_codec_spec() && obeys_key_model::<K>()),
            obeys_key_model::<K>() ==> w.len() == n && iter.remaining().unref() == w.skip(i as int),
            obeys ==> buf@ == mid + encode_items::<(K, V)>(w.take(i as int)),
            n == 0 ==> buf@ == mid,
            mid == start + spec_encode_len(n as nat, LenPrefix::U32),
        ensures
            obeys_key_model::<K>() ==> i == n,
            obeys ==> buf@ == mid + encode_items::<(K, V)>(w.take(i as int)),
            n == 0 ==> buf@ == mid,
        decreases n - i,
    {
        let ghost before = iter.remaining();
        match next_item(&mut iter) {
            Some(pair) => {
                let (k, v) = pair;
                k.encode(buf);
                v.encode(buf);
                proof {
                    if obeys_key_model::<K>() {
                        assert(before.unref()[0] == w.skip(i as int)[0]);
                        assert(before.unref().drop_first() =~= before.drop_first().unref());
                        assert(w.skip(i as int).drop_first() =~= w.skip(i + 1));
                        assert(w.take(i + 1).drop_last() =~= w.take(i as int));
                    }
                }
            },
            None => {
                assert(!obeys_key_model::<K>());
                break;
            },
        }
        i = i + 1;
    }
    assert(w.take(w.len() as int) =~= w);
    assert(obeys ==> buf@ =~= start + spec_encode_seq::<(K, V)>(w, LenPrefix::U32));
}

/// Decoded pairs build the value of the map that inserting them builds.
pub proof fn lemma_dict_of_pairs<K: Codec, V: Codec>(s: Seq<(K, V)>)
    requires
        values_distinguish::<K>(),
    ensures
        dict_of(values_of(s)) == map_value(map_of(s)),
    decreases s.len(),
{
    if s.len() == 0 {
        assert(values_of(s) =~= Seq::<Value>::empty());
        lemma_map_value_empty::<K, V>();
    } else {
        let init = s.drop_last();
        lemma_dict_of_pairs::<K, V>(init);
        assert(values_of(s).drop_last() =~= values_of(init));
        lemma_map_value_insert(map_of(init), s.last().0, s.last().1);
    }
}

/// Inserting entries of `m` in order builds a part of `m` that holds every
/// key inserted.
pub proof fn lemma_map_of_entries<K, V>(s: Seq<(K, V)>, m: Map<K, V>)
    requires
        forall|i: int| 0 <= i < s.len() ==> m.contains_key(#[trigger] s[i].0) && m[s[i].0] == s[i].1,
    ensures
        forall|k: K| #[trigger] map_of(s).contains_key(k) ==> m.contains_key(k) && map_of(s)[k] == m[k],
        forall|i: int| 0 <= i < s.len() ==> map_of(s).contains_key(#[trigger] s[i].0),
    decreases s.len(),
{
    if s.len() > 0 {
        let init = s.drop_last();
        assert forall|i: int| 0 <= i < init.len() implies m.contains_key(#[trigger] init[i].0)
            && m[init[i].0] == init[i].1 by {
            assert(init[i] == s[i]);
        }
        lemma_map_of_entries(init, m);
        assert forall|i: int| 0 <= i < s.len() implies map_of(s).contains_key(#[trigger] s[i].0) by {
            if i < s.len() - 1 {
                assert(init[i] == s[i]);
            }
        }
        let last = s[s.len() - 1];
        assert(m.contains_key(last.0) && m[last.0] == last.1);
        assert forall|k: K| #[trigger] map_of(s).contains_key(k) implies m.contains_key(k)
            && map_of(s)[k] == m[k] by {
            if k != last.0 {
                assert(map_of(init).contains_key(k));
            }
        }
    }
}

/// A map's roundtrip law: decoding the encoding of an encodable map,
/// followed by any bytes, gives back its value and exactly those bytes.
pub proof fn lemma_map_roundtrip<K: Codec + Eq + Hash, V: Codec>(x: HashMap<K, V>, rest: Seq<u8>)
    requires
        codec_roundtrips::<K>(),
        codec_roundtrips::<V>(),
        values_distinguish::<K>(),
        x.encodable(),
    ensures
        HashMap::<K, V>::spec_decode(x.spec_encode() + rest) == Ok::<(Value, Seq<u8>), CodecError>(
            (x.spec_value(), rest),
        ),
{
    let w = encoding_order(&x);
    lemma_encoding_order_lists_entries(&x);
    lemma_tuple2_roundtrip::<K, V>();
    crate::model::lemma_pow256_values();
    assert(standard_rule().admits(w.len()));
    assert forall|i: int| 0 <= i < w.len() implies #[trigger] w[i].encodable() by {
        assert(x@.contains_key(w[i].0));
    }
    lemma_seq_roundtrip::<(K, V)>(w, standard_rule(), rest);
    lemma_dict_of_pairs::<K, V>(w);
    lemma_map_of_entries(w, x@);
    assert forall|k: K| #[trigger] x@.contains_key(k) implies map_of(w).contains_key(k) by {
        let i = choose|i: int| 0 <= i < w.len() && w[i].0 == k;
        assert(map_of(w).contains_key(w[i].0));
    }
    assert(map_of(w) =~= x@);
}

/// Integer codes tell integers apart.
proof fn lemma_int_codes_distinct(x: int, y: int)
    ensures
        value_code(Value::Int(x)) == value_code(Value::Int(y)) ==> x == y,
{
    assert(value_code(Value::Int(x))[1] == x);
    assert(value_code(Value::Int(y))[1] == y);
}

/// The integer and `bool` keys' values tell them apart.
pub proof fn lemma_plain_keys_distinguish()
    ensures
        values_distinguish::<u8>(),
        values_distinguish::<u16>(),
        values_distinguish::<u32>(),
        values_distinguish::<u64>(),
        values_distinguish::<u128>(),
        values_distinguish::<i8>(),
        values_distinguish::<i16>(),
        values_distinguish::<i32>(),
        values_distinguish::<i64>(),
        values_distinguish::<i128>(),
        values_distinguish::<bool>(),
{
    assert forall|a: u8, b: u8|
        #[trigger] value_code(a.spec_value()) == #[trigger] value_code(b.spec_value()) implies a
        == b by {
        lemma_int_codes_distinct(a as int, b as int);
    }
    assert forall|a: u16, b: u16|
        #[trigger] value_code(a.spec_value()) == #[trigger] value_code(b.spec_value()) implies a
        == b by {
        lemma_int_codes_distinct(a as int, b as int);
    }
    assert forall|a: u32, b: u32|
        #[trigger] value_code(a.spec_value()) == #[trigger] value_code(b.spec_value()) implies a
        == b by {
        lemma_int_codes_distinct(a as int, b as int);
    }
    assert forall|a: u64, b: u64|
        #[trigger] value_code(a.spec_value()) == #[trigger] value_code(b.spec_value()) implies a
        == b by {
        lemma_int_codes_distinct(a as int, b as int);
    }
    assert forall|a: u128, b: u128|
        #[trigger] value_code(a.spec_value()) == #[trigger] value_code(b.spec_value()) implies a
        == b by {
        lemma_int_codes_distinct(a as int, b as int);
    }
    assert forall|a: i8, b: i8|
        #[trigger] value_code(a.spec_value()) == #[trigger] value_code(b.spec_value()) implies a
        == b by {
        lemma_int_codes_distinct(a as int, b as int);
    }
    assert forall|a: i16, b: i16|
        #[trigger] value_code(a.spec_value()) == #[trigger] value_code(b.spec_value()) implies a
        == b by {
        lemma_int_codes_distinct(a as int, b as int);
    }
    assert forall|a: i32, b: i32|
        #[trigger] value_code(a.spec_value()) == #[trigger] value_code(b.spec_value()) implies a
        == b by {
        lemma_int_codes_distinct(a as int, b as int);
    }
    assert forall|a: i64, b: i64|
        #[trigger] value_code(a.spec_value()) == #[trigger] value_code(b.spec_value()) implies a
        == b by {
        lemma_int_codes_distinct(a as int, b as int);
    }
    assert forall|a: i128, b: i128|
        #[trigger] value_code(a.spec_value()) == #[trigger] value_code(b.spec_value()) implies a
        == b by {
        lemma_int_codes_distinct(a as int, b as int);
    }
    assert forall|a: bool, b: bool|
        #[trigger] value_code(a.spec_value()) == #[trigger] value_code(b.spec_value()) implies a
        == b by {
        assert(value_code(a.spec_value())[1] == if a {
            1int
        } else {
            0int
        });
        assert(value_code(b.spec_value())[1] == if b {
            1int
        } else {
            0int
        });
    }
}

/// Maps obey the prefix law where their keys and values do.
pub proof fn lemma_map_consumes_prefix<K: Codec + Eq + Hash, V: Codec>()
    requires
        codec_consumes_prefix::<K>(),
        codec_consumes_prefix::<V>(),
    ensures
        codec_consumes_prefix::<HashMap<K, V>>(),
{
    lemma_tuple2_consumes_prefix::<K, V>();
    assert forall|input: Seq<u8>| #[trigger] HashMap::<K, V>::spec_decode(input) matches Ok((_, rest))
        ==> is_suffix(rest, input) by {
        if let Ok((n, r1)) = spec_decode_len(input, standard_rule()) {
            lemma_decode_items_suffix::<(K, V)>(r1, n);
            if let Ok((items, r2)) = decode_items::<(K, V)>(r1, n) {
                lemma_suffix_trans(r2, r1, input);
            }
        }
    }
}

impl<K: Codec + Eq + Hash, V: Codec> Codec for HashMap<K, V> {
    open spec fn obeys_codec_spec() -> bool {
        &&& K::obeys_codec_spec()
        &&& V::obeys_codec_spec()
        &&& obeys_key_model::<K>()
        &&& values_distinguish::<K>()
    }

    open spec fn spec_value(&self) -> Value {
        Value::Dict(map_value(self@))
    }

    /// A `u32` entry count, then each key and its value, in the order in
    /// which the map walks its entries.
    open spec fn spec_encode(&self) -> Seq<u8> {
        spec_encode_seq::<(K, V)>(encoding_order(self), LenPrefix::U32)
    }

    open spec fn spec_decode(input: Seq<u8>) -> Result<(Value, Seq<u8>), CodecError> {
        spec_decode_map::<K, V>(input)
    }

    open spec fn encodable(&self) -> bool {
        &&& self@.len() <= MAX_DECODE_LEN
        &&& forall|k: K| #[trigger] self@.contains_key(k) ==> k.encodable() && self@[k].encodable()
    }

    /// Also, whatever `K` and `V`: a refused count gives its error, and a
    /// zero count the empty map with the bytes after the count.
    fn decode(input: &[u8]) -> (r: Result<(Self, &[u8]), CodecError>)
        ensures
            spec_decode_len(input@, standard_rule()) matches Err(e) ==> r == Err::<
                (Self, &[u8]),
                CodecError,
            >(e),
            spec_decode_len(input@, standard_rule()) matches Ok((n, after)) ==> (n == 0 ==> (
            r matches Ok((m, rest)) && m@ == Map::<K, V>::empty() && rest@ == after)),
    {
        let (n, mut rest) = match decode_len(input, &LenRule::standard()) {
            Ok(p) => p,
            Err(e) => return Err(e),
        };
        let ghost after = rest@;
        let mut map: HashMap<K, V> = HashMap::new();
        let ghost mut items: Seq<Value> = Seq::empty();
        proof {
            lemma_map_value_empty::<K, V>();
        }
        let mut i: usize = 0;
        while i < n
            invariant
                i <= n,
                spec_decode_len(input@, standard_rule()) == Ok::<(nat, Seq<u8>), CodecError>(
                    (n as nat, after),
                ),
                Self::obeys_codec_spec() ==> decode_items::<(K, V)>(after, i as nat) == Ok::<
                    (Seq<Value>, Seq<u8>),
                    CodecError,
                >((items, rest@)),
                Self::obeys_codec_spec() ==> map_value(map@) == dict_of(items),
                i == 0 ==> map@ == Map::<K, V>::empty() && rest@ == after,
            decreases n - i,
        {
            match <(K, V)>::decode(rest) {
                Ok((pair, remaining)) => {
                    let (k, v) = pair;
                    proof {
                        if Self::obeys_codec_spec() {
                            lemma_map_value_insert(map@, k, v);
                            let it2 = items.push(Value::List(seq![k.spec_value(), v.spec_value()]));
                            assert(it2.drop_last() =~= items);
                        }
                        items = items.push(Value::List(seq![k.spec_value(), v.spec_value()]));
                    }
                    map.insert(k, v);
                    rest = remaining;
                },
                Err(e) => {
                    proof {
                        if Self::obeys_codec_spec() {
                            assert(<(K, V)>::spec_decode(rest@) == Err::<(Value, Seq<u8>), CodecError>(e));
                            assert(decode_items::<(K, V)>(after, (i + 1) as nat) == Err::<
                                (Seq<Value>, Seq<u8>),
                                CodecError,
                            >(e));
                            lemma_decode_items_error_persists::<(K, V)>(after, (i + 1) as nat, n as nat);
                        }
                    }
                    return Err(e);
                },
            }
            i = i + 1;
        }
        Ok((map, rest))
    }

    /// Also: where the key type obeys vstd's hash-key model, the map's walk
    /// order, which the encoding follows, lists exactly its entries.
    fn encode(&self, buf: &mut Vec<u8>)
        ensures
            obeys_key_model::<K>() ==> walk_lists_entries(self),
            self.len() == 0 ==> final(buf)@ == old(buf)@ + spec_encode_len(0, LenPrefix::U32),
    {
        encode_map(self, buf);
    }
}

} // verus!
