//! The codec adapter: a canonical, deterministic encoding of structured
//! values to bytes, and the decoding back.  Every value has exactly one
//! encoding, so structurally equal values always yield byte-identical
//! records, and the decoder recovers exactly the value that was encoded.
//!
//! Layout: a one-byte tag, then, per kind: nothing (null), one byte
//! (boolean), eight big-endian bytes (integer), or a big-endian 64-bit
//! length followed by the payload (strings as UTF-8, byte strings and
//! links as raw bytes, lists and mappings as the concatenated encodings
//! of their items).
use vstd::prelude::*;
use vstd::utf8::{encode_utf8, valid_utf8};
use crate::value::{Value, ValueV, Entry, Identifier, elem_views, entry_pairs};

verus! {

/// Bytes that the codec could not decode: they are no canonical encoding
/// of any structured value.
#[derive(Clone, Copy, Debug, PartialEq, Eq, Structural)]
pub struct DecodeError;

/// The eight big-endian bytes of an unsigned 64-bit integer.
pub open spec fn be64(n: u64) -> Seq<u8> {
    seq![
        (n >> 56) as u8,
        (n >> 48) as u8,
        (n >> 40) as u8,
        (n >> 32) as u8,
        (n >> 24) as u8,
        (n >> 16) as u8,
        (n >> 8) as u8,
        n as u8,
    ]
}

/// Two integers with the same big-endian bytes are equal.
pub proof fn lemma_be64_injective(a: u64, b: u64)
    requires
        be64(a) == be64(b),
    ensures
        a == b,
{
    assert(be64(a)[0] == be64(b)[0]);
    assert(be64(a)[1] == be64(b)[1]);
    assert(be64(a)[2] == be64(b)[2]);
    assert(be64(a)[3] == be64(b)[3]);
    assert(be64(a)[4] == be64(b)[4]);
    assert(be64(a)[5] == be64(b)[5]);
    assert(be64(a)[6] == be64(b)[6]);
    assert(be64(a)[7] == be64(b)[7]);
    assert((a >> 56) as u8 == (b >> 56) as u8 && (a >> 48) as u8 == (b >> 48) as u8 && (a >> 40)
        as u8 == (b >> 40) as u8 && (a >> 32) as u8 == (b >> 32) as u8 && (a >> 24) as u8 == (b
        >> 24) as u8 && (a >> 16) as u8 == (b >> 16) as u8 && (a >> 8) as u8 == (b >> 8) as u8 && a
        as u8 == b as u8 ==> a == b) by (bit_vector);
}

/// The tag byte that opens the encoding of each kind of value.
pub open spec fn tag_of(v: ValueV) -> u8 {
    match v {
        ValueV::Null => 0u8,
        ValueV::Bool(_) => 1u8,
        ValueV::Int(_) => 2u8,
        ValueV::Str(_) => 3u8,
        ValueV::Bytes(_) => 4u8,
        ValueV::Link(_) => 5u8,
        ValueV::List(_) => 6u8,
        ValueV::Mapping(_) => 7u8,
    }
}

/// The canonical encoding of a structured value.
pub open spec fn enc(v: ValueV) -> Seq<u8>
    decreases v,
{
    match v {
        ValueV::Null => seq![0u8],
        ValueV::Bool(b) => seq![1u8, if b { 1u8 } else { 0u8 }],
        ValueV::Int(n) => seq![2u8] + be64(n),
        ValueV::Str(s) => seq![3u8] + be64(encode_utf8(s).len() as u64) + encode_utf8(s),
        ValueV::Bytes(b) => seq![4u8] + be64(b.len() as u64) + b,
        ValueV::Link(b) => seq![5u8] + be64(b.len() as u64) + b,
        ValueV::List(l) => seq![6u8] + be64(l.len() as u64) + enc_seq(l),
        ValueV::Mapping(m) => seq![7u8] + be64(m.len() as u64) + enc_pairs(m),
    }
}

/// The concatenated encodings of a sequence of values.
pub open spec fn enc_seq(l: Seq<ValueV>) -> Seq<u8>
    decreases l,
{
    if l.len() == 0 {
        Seq::empty()
    } else {
        enc(l[0]) + enc_seq(l.drop_first())
    }
}

/// The encoding of one mapping key: a length-prefixed UTF-8 string.
pub open spec fn enc_key(k: Seq<char>) -> Seq<u8> {
    be64(encode_utf8(k).len() as u64) + encode_utf8(k)
}

/// The concatenated encodings of a mapping's key-value pairs.
pub open spec fn enc_pairs(m: Seq<(Seq<char>, ValueV)>) -> Seq<u8>
    decreases m,
{
    if m.len() == 0 {
        Seq::empty()
    } else {
        enc_key(m[0].0) + enc(m[0].1) + enc_pairs(m.drop_first())
    }
}

/// True when every length inside the value fits the 64-bit length
/// prefixes of the encoding; every value built in executable code does.
pub open spec fn valid_v(v: ValueV) -> bool
    decreases v,
{
    match v {
        ValueV::Null => true,
        ValueV::Bool(_) => true,
        ValueV::Int(_) => true,
        ValueV::Str(s) => encode_utf8(s).len() <= u64::MAX,
        ValueV::Bytes(b) => b.len() <= u64::MAX,
        ValueV::Link(b) => b.len() <= u64::MAX,
        ValueV::List(l) => l.len() <= u64::MAX && (forall|i: int|
            0 <= i < l.len() ==> valid_v(#[trigger] l[i])),
        ValueV::Mapping(m) => m.len() <= u64::MAX && (forall|i: int|
            0 <= i < m.len() ==> encode_utf8((#[trigger] m[i]).0).len() <= u64::MAX && valid_v(
                m[i].1,
            )),
    }
}

/// Splitting a sequence of values splits the encoding at the same place.
pub proof fn lemma_enc_seq_push(l: Seq<ValueV>, v: ValueV)
    ensures
        enc_seq(l.push(v)) == enc_seq(l) + enc(v),
    decreases l.len(),
{
    if l.len() == 0 {
        reveal_with_fuel(enc_seq, 3);
        assert(l.push(v)[0] == v);
        assert(l.push(v).drop_first() =~= Seq::<ValueV>::empty());
        assert(enc_seq(l.push(v)) =~= enc(v));
        assert(enc_seq(l) + enc(v) =~= enc(v));
    } else {
        assert(l.push(v).drop_first() =~= l.drop_first().push(v));
        lemma_enc_seq_push(l.drop_first(), v);
        assert(enc_seq(l.push(v)) =~= enc_seq(l) + enc(v));
    }
}

/// The same, for the pairs of a mapping.
pub proof fn lemma_enc_pairs_push(m: Seq<(Seq<char>, ValueV)>, p: (Seq<char>, ValueV))
    ensures
        enc_pairs(m.push(p)) == enc_pairs(m) + enc_key(p.0) + enc(p.1),
    decreases m.len(),
{
    if m.len() == 0 {
        reveal_with_fuel(enc_pairs, 3);
        assert(m.push(p)[0] == p);
        assert(m.push(p).drop_first() =~= Seq::<(Seq<char>, ValueV)>::empty());
        assert(enc_pairs(m.push(p)) =~= enc_pairs(m) + enc_key(p.0) + enc(p.1));
    } else {
        assert(m.push(p).drop_first() =~= m.drop_first().push(p));
        lemma_enc_pairs_push(m.drop_first(), p);
        assert(enc_pairs(m.push(p)) =~= enc_pairs(m) + enc_key(p.0) + enc(p.1));
    }
}

/// Appends the big-endian bytes of an integer.
fn push_be64(out: &mut Vec<u8>, n: u64)
    ensures
        final(out)@ == old(out)@ + be64(n),
{
    out.push((n >> 56) as u8);
    out.push((n >> 48) as u8);
    out.push((n >> 40) as u8);
    out.push((n >> 32) as u8);
    out.push((n >> 24) as u8);
    out.push((n >> 16) as u8);
    out.push((n >> 8) as u8);
    out.push(n as u8);
    assert(out@ =~= old(out)@ + be64(n));
}

/// Appends a copy of the given bytes.
fn push_bytes(out: &mut Vec<u8>, b: &[u8])
    ensures
        final(out)@ == old(out)@ + b@,
{
    let mut k: usize = 0;
    while k < b.len()
        invariant
            k <= b@.len(),
            out@ == old(out)@ + b@.take(k as int),
        decreases b@.len() - k,
    {
        out.push(b[k]);
        assert(out@ =~= old(out)@ + b@.take(k + 1));
        k = k + 1;
    }
    assert(out@ =~= old(out)@ + b@);
}

/// Appends the canonical encoding of one value.
fn encode_into(v: &Value, out: &mut Vec<u8>)
    ensures
        final(out)@ == old(out)@ + enc(v@),
        valid_v(v@),
    decreases v@,
{
    match v {
        Value::Null => {
            out.push(0u8);
            assert(out@ =~= old(out)@ + enc(v@));
        },
        Value::Bool(b) => {
            out.push(1u8);
            out.push(if *b { 1u8 } else { 0u8 });
            assert(out@ =~= old(out)@ + enc(v@));
        },
        Value::Int(n) => {
            out.push(2u8);
            push_be64(out, *n);
            assert(out@ =~= old(out)@ + enc(v@));
        },
        Value::Str(s) => {
            let bytes = s.as_str().as_bytes();
            out.push(3u8);
            push_be64(out, bytes.len() as u64);
            push_bytes(out, bytes);
            assert(out@ =~= old(out)@ + enc(v@));
        },
        Value::Bytes(b) => {
            out.push(4u8);
            push_be64(out, b.len() as u64);
            push_bytes(out, b.as_slice());
            assert(out@ =~= old(out)@ + enc(v@));
        },
        Value::Link(id) => {
            let b = id.as_bytes();
            out.push(5u8);
            push_be64(out, b.len() as u64);
            push_bytes(out, b.as_slice());
            assert(out@ =~= old(out)@ + enc(v@));
        },
        Value::List(l) => {
            out.push(6u8);
            push_be64(out, l.len() as u64);
            let ghost mid = out@;
            let mut k: usize = 0;
            while k < l.len()
                invariant
                    *v == Value::List(*l),
                    k <= l@.len(),
                    out@ == mid + enc_seq(elem_views(l@).take(k as int)),
                    forall|i: int| 0 <= i < k ==> valid_v(#[trigger] elem_views(l@)[i]),
                decreases l@.len() - k,
            {
                proof {
                    assert(v@->List_0[k as int] == l@[k as int]@);
                    assert(decreases_to!(v@ => l@[k as int]@));
                }
                encode_into(&l[k], out);
                proof {
                    assert(elem_views(l@).take(k + 1) =~= elem_views(l@).take(k as int).push(
                        l@[k as int].deep(),
                    ));
                    lemma_enc_seq_push(elem_views(l@).take(k as int), l@[k as int].deep());
                }
                k = k + 1;
            }
            proof {
                assert(elem_views(l@).take(l@.len() as int) =~= elem_views(l@));
                crate::value::lemma_deep_list(*l);
                assert(out@ =~= old(out)@ + enc(v@));
            }
        },
        Value::Mapping(m) => {
            out.push(7u8);
            push_be64(out, m.len() as u64);
            let ghost mid = out@;
            let mut k: usize = 0;
            while k < m.len()
                invariant
                    *v == Value::Mapping(*m),
                    k <= m@.len(),
                    out@ == mid + enc_pairs(entry_pairs(m@).take(k as int)),
                    forall|i: int|
                        0 <= i < k ==> encode_utf8((#[trigger] entry_pairs(m@)[i]).0).len()
                            <= u64::MAX && valid_v(entry_pairs(m@)[i].1),
                decreases m@.len() - k,
            {
                let kb = m[k].key.as_str().as_bytes();
                push_be64(out, kb.len() as u64);
                push_bytes(out, kb);
                proof {
                    assert(v@->Mapping_0[k as int].1 == m@[k as int].value@);
                    assert(decreases_to!(v@ => m@[k as int].value@));
                }
                encode_into(&m[k].value, out);
                proof {
                    assert(entry_pairs(m@).take(k + 1) =~= entry_pairs(m@).take(k as int).push(
                        (m@[k as int].key@, m@[k as int].value.deep()),
                    ));
                    lemma_enc_pairs_push(
                        entry_pairs(m@).take(k as int),
                        (m@[k as int].key@, m@[k as int].value.deep()),
                    );
                    assert(out@ =~= mid + enc_pairs(entry_pairs(m@).take(k + 1)));
                }
                k = k + 1;
            }
            proof {
                assert(entry_pairs(m@).take(m@.len() as int) =~= entry_pairs(m@));
                crate::value::lemma_deep_mapping(*m);
                assert(out@ =~= old(out)@ + enc(v@));
            }
        },
    }
}

/// Encodes a structured value to its canonical bytes.  Equal values always
/// yield byte-identical encodings, because the result is a function of the
/// value alone.
pub fn encode_value(v: &Value) -> (r: Vec<u8>)
    ensures
        r@ == enc(v@),
        valid_v(v@),
{
    let mut out: Vec<u8> = Vec::new();
    encode_into(v, &mut out);
    out
}


/// True when the byte string `e` appears in `s` at offset `i`.
pub open spec fn matches_at(s: Seq<u8>, i: int, e: Seq<u8>) -> bool {
    0 <= i && i + e.len() <= s.len() && s.subrange(i, i + e.len()) == e
}

/// What a byte string decodes to: the unique valid value it encodes,
/// if there is one.
pub open spec fn dec(b: Seq<u8>) -> Option<ValueV> {
    if exists|w: ValueV| valid_v(w) && enc(w) == b {
        Some(choose|w: ValueV| valid_v(w) && enc(w) == b)
    } else {
        None
    }
}

/// A piece of a byte string that appears at an offset can be sliced out.
pub proof fn lemma_slice_at(s: Seq<u8>, i: int, e: Seq<u8>, a: int, b: int)
    requires
        matches_at(s, i, e),
        0 <= a <= b <= e.len(),
    ensures
        s.subrange(i + a, i + b) == e.subrange(a, b),
{
    assert forall|y: int| 0 <= y < b - a implies s.subrange(i + a, i + b)[y] == e.subrange(a, b)[y]
    by {
        assert(s.subrange(i, i + e.len())[a + y] == s[i + a + y]);
    }
    assert(s.subrange(i + a, i + b) =~= e.subrange(a, b));
}

/// How the encoding of a value sits inside a byte string that holds it:
/// the tag byte first, then the per-kind layout.
pub proof fn lemma_shape(s: Seq<u8>, i: int, w: ValueV)
    requires
        valid_v(w),
        matches_at(s, i, enc(w)),
    ensures
        1 <= enc(w).len(),
        i + enc(w).len() <= s.len(),
        0 <= i < s.len(),
        s[i] == tag_of(w),
        w is Bool ==> enc(w).len() == 2 && s[i + 1] == (if w->Bool_0 { 1u8 } else { 0u8 }),
        w is Int ==> enc(w).len() == 9 && be64(w->Int_0) == s.subrange(i + 1, i + 9),
        w is Str ==> enc(w).len() == 9 + encode_utf8(w->Str_0).len() && be64(
            encode_utf8(w->Str_0).len() as u64,
        ) == s.subrange(i + 1, i + 9) && encode_utf8(w->Str_0) == s.subrange(
            i + 9,
            i + enc(w).len(),
        ),
        w is Bytes ==> enc(w).len() == 9 + w->Bytes_0.len() && be64(w->Bytes_0.len() as u64)
            == s.subrange(i + 1, i + 9) && w->Bytes_0 == s.subrange(i + 9, i + enc(w).len()),
        w is Link ==> enc(w).len() == 9 + w->Link_0.len() && be64(w->Link_0.len() as u64)
            == s.subrange(i + 1, i + 9) && w->Link_0 == s.subrange(i + 9, i + enc(w).len()),
        w is List ==> enc(w).len() == 9 + enc_seq(w->List_0).len() && be64(
            w->List_0.len() as u64,
        ) == s.subrange(i + 1, i + 9) && enc_seq(w->List_0) == s.subrange(
            i + 9,
            i + enc(w).len(),
        ),
        w is Mapping ==> enc(w).len() == 9 + enc_pairs(w->Mapping_0).len() && be64(
            w->Mapping_0.len() as u64,
        ) == s.subrange(i + 1, i + 9) && enc_pairs(w->Mapping_0) == s.subrange(
            i + 9,
            i + enc(w).len(),
        ),
{
    let e = enc(w);
    assert(s.subrange(i, i + e.len()) == e);
    assert forall|x: int| 0 <= x < e.len() implies s[i + x] == e[x] by {
        assert(s.subrange(i, i + e.len())[x] == s[i + x]);
    }
    assert(s[i] == e[0]) by {
        assert(s.subrange(i, i + e.len())[0] == s[i]);
    }
    match w {
        ValueV::Null => {},
        ValueV::Bool(_) => {},
        ValueV::Int(n) => {
            lemma_slice_at(s, i, e, 1, 9);
            assert(e.subrange(1, 9) =~= be64(n));
        },
        ValueV::Str(t) => {
            lemma_slice_at(s, i, e, 1, 9);
            lemma_slice_at(s, i, e, 9, e.len() as int);
            assert(e.subrange(1, 9) =~= be64(encode_utf8(t).len() as u64));
            assert(e.subrange(9, e.len() as int) =~= encode_utf8(t));
        },
        ValueV::Bytes(b) => {
            lemma_slice_at(s, i, e, 1, 9);
            lemma_slice_at(s, i, e, 9, e.len() as int);
            assert(e.subrange(1, 9) =~= be64(b.len() as u64));
            assert(e.subrange(9, e.len() as int) =~= b);
        },
        ValueV::Link(b) => {
            lemma_slice_at(s, i, e, 1, 9);
            lemma_slice_at(s, i, e, 9, e.len() as int);
            assert(e.subrange(1, 9) =~= be64(b.len() as u64));
            assert(e.subrange(9, e.len() as int) =~= b);
        },
        ValueV::List(l) => {
            lemma_slice_at(s, i, e, 1, 9);
            lemma_slice_at(s, i, e, 9, e.len() as int);
            assert(e.subrange(1, 9) =~= be64(l.len() as u64));
            assert(e.subrange(9, e.len() as int) =~= enc_seq(l));
        },
        ValueV::Mapping(m) => {
            lemma_slice_at(s, i, e, 1, 9);
            lemma_slice_at(s, i, e, 9, e.len() as int);
            assert(e.subrange(1, 9) =~= be64(m.len() as u64));
            assert(e.subrange(9, e.len() as int) =~= enc_pairs(m));
        },
    }
}

/// A sequence's encoding splits, at any index, into the encodings of the
/// items before it and those from it on.
pub proof fn lemma_enc_seq_take_skip(l: Seq<ValueV>, k: int)
    requires
        0 <= k <= l.len(),
    ensures
        enc_seq(l) == enc_seq(l.take(k)) + enc_seq(l.skip(k)),
    decreases k,
{
    if k == 0 {
        assert(l.take(0) =~= Seq::<ValueV>::empty());
        assert(l.skip(0) =~= l);
        assert(enc_seq(l) =~= enc_seq(l.take(0)) + enc_seq(l.skip(0)));
    } else {
        lemma_enc_seq_take_skip(l, k - 1);
        assert(l.take(k) =~= l.take(k - 1).push(l[k - 1]));
        lemma_enc_seq_push(l.take(k - 1), l[k - 1]);
        assert(l.skip(k - 1)[0] == l[k - 1]);
        assert(l.skip(k - 1).drop_first() =~= l.skip(k));
        assert(enc_seq(l.skip(k - 1)) == enc(l[k - 1]) + enc_seq(l.skip(k)));
        assert(enc_seq(l) =~= enc_seq(l.take(k)) + enc_seq(l.skip(k)));
    }
}

/// The same split, for the pairs of a mapping.
pub proof fn lemma_enc_pairs_take_skip(m: Seq<(Seq<char>, ValueV)>, k: int)
    requires
        0 <= k <= m.len(),
    ensures
        enc_pairs(m) == enc_pairs(m.take(k)) + enc_pairs(m.skip(k)),
    decreases k,
{
    if k == 0 {
        assert(m.take(0) =~= Seq::<(Seq<char>, ValueV)>::empty());
        assert(m.skip(0) =~= m);
        assert(enc_pairs(m) =~= enc_pairs(m.take(0)) + enc_pairs(m.skip(0)));
    } else {
        lemma_enc_pairs_take_skip(m, k - 1);
        assert(m.take(k) =~= m.take(k - 1).push(m[k - 1]));
        lemma_enc_pairs_push(m.take(k - 1), m[k - 1]);
        assert(m.skip(k - 1)[0] == m[k - 1]);
        assert(m.skip(k - 1).drop_first() =~= m.skip(k));
        assert(enc_pairs(m.skip(k - 1)) == enc_key(m[k - 1].0) + enc(m[k - 1].1) + enc_pairs(
            m.skip(k),
        ));
        assert(enc_pairs(m) =~= enc_pairs(m.take(k)) + enc_pairs(m.skip(k)));
    }
}

/// Two valid values whose encodings both open the same byte string are
/// the same value: no encoding is a prefix of another's.
pub proof fn lemma_enc_unambiguous(a: ValueV, b: ValueV, s: Seq<u8>)
    requires
        valid_v(a),
        valid_v(b),
        matches_at(s, 0, enc(a)),
        matches_at(s, 0, enc(b)),
    ensures
        a == b,
    decreases a,
{
    lemma_shape(s, 0, a);
    lemma_shape(s, 0, b);
    assert(tag_of(a) == tag_of(b));
    match a {
        ValueV::Null => {
            assert(b is Null);
        },
        ValueV::Bool(x) => {
            assert(b is Bool);
        },
        ValueV::Int(n) => {
            assert(b is Int);
            lemma_be64_injective(n, b->Int_0);
        },
        ValueV::Str(t) => {
            assert(b is Str);
            let u = b->Str_0;
            lemma_be64_injective(encode_utf8(t).len() as u64, encode_utf8(u).len() as u64);
            assert(encode_utf8(t).len() == encode_utf8(u).len());
            assert(encode_utf8(t) == encode_utf8(u));
            vstd::utf8::encode_utf8_decode_utf8(t);
            vstd::utf8::encode_utf8_decode_utf8(u);
            assert(t == u);
        },
        ValueV::Bytes(x) => {
            assert(b is Bytes);
            lemma_be64_injective(x.len() as u64, b->Bytes_0.len() as u64);
            assert(x == b->Bytes_0);
        },
        ValueV::Link(x) => {
            assert(b is Link);
            lemma_be64_injective(x.len() as u64, b->Link_0.len() as u64);
            assert(x == b->Link_0);
        },
        ValueV::List(xs) => {
            assert(b is List);
            let ys = b->List_0;
            lemma_be64_injective(xs.len() as u64, ys.len() as u64);
            assert(xs.len() == ys.len());
            let s2 = s.skip(9);
            assert(enc_seq(xs) =~= s2.subrange(0, enc_seq(xs).len() as int));
            assert(enc_seq(ys) =~= s2.subrange(0, enc_seq(ys).len() as int));
            lemma_enc_seq_unambiguous(xs, ys, s2);
        },
        ValueV::Mapping(xs) => {
            assert(b is Mapping);
            let ys = b->Mapping_0;
            lemma_be64_injective(xs.len() as u64, ys.len() as u64);
            assert(xs.len() == ys.len());
            let s2 = s.skip(9);
            assert(enc_pairs(xs) =~= s2.subrange(0, enc_pairs(xs).len() as int));
            assert(enc_pairs(ys) =~= s2.subrange(0, enc_pairs(ys).len() as int));
            lemma_enc_pairs_unambiguous(xs, ys, s2);
        },
    }
}

/// Two equally long runs of valid values whose concatenated encodings
/// both open the same byte string are the same run.
pub proof fn lemma_enc_seq_unambiguous(xs: Seq<ValueV>, ys: Seq<ValueV>, s: Seq<u8>)
    requires
        xs.len() == ys.len(),
        forall|q: int| 0 <= q < xs.len() ==> valid_v(#[trigger] xs[q]),
        forall|q: int| 0 <= q < ys.len() ==> valid_v(#[trigger] ys[q]),
        matches_at(s, 0, enc_seq(xs)),
        matches_at(s, 0, enc_seq(ys)),
    ensures
        xs == ys,
    decreases xs,
{
    if xs.len() == 0 {
        assert(xs =~= ys);
    } else {
        assert(enc_seq(xs) == enc(xs[0]) + enc_seq(xs.drop_first()));
        assert(enc_seq(ys) == enc(ys[0]) + enc_seq(ys.drop_first()));
        lemma_slice_at(s, 0, enc_seq(xs), 0, enc(xs[0]).len() as int);
        lemma_slice_at(s, 0, enc_seq(ys), 0, enc(ys[0]).len() as int);
        assert(enc_seq(xs).subrange(0, enc(xs[0]).len() as int) =~= enc(xs[0]));
        assert(enc_seq(ys).subrange(0, enc(ys[0]).len() as int) =~= enc(ys[0]));
        lemma_enc_unambiguous(xs[0], ys[0], s);
        let w = enc(xs[0]).len() as int;
        let s2 = s.skip(w);
        lemma_slice_at(s, 0, enc_seq(xs), w, enc_seq(xs).len() as int);
        lemma_slice_at(s, 0, enc_seq(ys), w, enc_seq(ys).len() as int);
        assert(enc_seq(xs).subrange(w, enc_seq(xs).len() as int) =~= enc_seq(xs.drop_first()));
        assert(enc_seq(ys).subrange(w, enc_seq(ys).len() as int) =~= enc_seq(ys.drop_first()));
        assert(matches_at(s2, 0, enc_seq(xs.drop_first()))) by {
            assert(s2.subrange(0, enc_seq(xs.drop_first()).len() as int) =~= s.subrange(
                w,
                enc_seq(xs).len() as int,
            ));
        }
        assert(matches_at(s2, 0, enc_seq(ys.drop_first()))) by {
            assert(s2.subrange(0, enc_seq(ys.drop_first()).len() as int) =~= s.subrange(
                w,
                enc_seq(ys).len() as int,
            ));
        }
        lemma_enc_seq_unambiguous(xs.drop_first(), ys.drop_first(), s2);
        assert forall|q: int| 0 <= q < xs.len() implies xs[q] == ys[q] by {
            if q > 0 {
                assert(xs.drop_first()[q - 1] == xs[q]);
                assert(ys.drop_first()[q - 1] == ys[q]);
            }
        }
        assert(xs =~= ys);
    }
}

/// The same, for the pairs of two mappings.
#[verifier::rlimit(60)]
pub proof fn lemma_enc_pairs_unambiguous(
    xs: Seq<(Seq<char>, ValueV)>,
    ys: Seq<(Seq<char>, ValueV)>,
    s: Seq<u8>,
)
    requires
        xs.len() == ys.len(),
        forall|q: int|
            0 <= q < xs.len() ==> encode_utf8((#[trigger] xs[q]).0).len() <= u64::MAX && valid_v(
                xs[q].1,
            ),
        forall|q: int|
            0 <= q < ys.len() ==> encode_utf8((#[trigger] ys[q]).0).len() <= u64::MAX && valid_v(
                ys[q].1,
            ),
        matches_at(s, 0, enc_pairs(xs)),
        matches_at(s, 0, enc_pairs(ys)),
    ensures
        xs == ys,
    decreases xs,
{
    if xs.len() == 0 {
        assert(xs =~= ys);
    } else {
        let ex = enc_pairs(xs);
        let ey = enc_pairs(ys);
        assert(ex == enc_key(xs[0].0) + enc(xs[0].1) + enc_pairs(xs.drop_first()));
        assert(ey == enc_key(ys[0].0) + enc(ys[0].1) + enc_pairs(ys.drop_first()));
        lemma_slice_at(s, 0, ex, 0, 8);
        lemma_slice_at(s, 0, ey, 0, 8);
        assert(ex.subrange(0, 8) =~= be64(encode_utf8(xs[0].0).len() as u64));
        assert(ey.subrange(0, 8) =~= be64(encode_utf8(ys[0].0).len() as u64));
        lemma_be64_injective(
            encode_utf8(xs[0].0).len() as u64,
            encode_utf8(ys[0].0).len() as u64,
        );
        assert(encode_utf8(xs[0].0).len() == encode_utf8(ys[0].0).len());
        let kl = encode_utf8(xs[0].0).len() as int;
        lemma_slice_at(s, 0, ex, 8, 8 + kl);
        lemma_slice_at(s, 0, ey, 8, 8 + kl);
        assert(ex.subrange(8, 8 + kl) =~= encode_utf8(xs[0].0));
        assert(ey.subrange(8, 8 + kl) =~= encode_utf8(ys[0].0));
        vstd::utf8::encode_utf8_decode_utf8(xs[0].0);
        vstd::utf8::encode_utf8_decode_utf8(ys[0].0);
        assert(xs[0].0 == ys[0].0);
        let s2 = s.skip(8 + kl);
        let vx = enc(xs[0].1).len() as int;
        let vy = enc(ys[0].1).len() as int;
        lemma_slice_at(s, 0, ex, 8 + kl, 8 + kl + vx);
        lemma_slice_at(s, 0, ey, 8 + kl, 8 + kl + vy);
        assert(ex.subrange(8 + kl, 8 + kl + vx) =~= enc(xs[0].1));
        assert(ey.subrange(8 + kl, 8 + kl + vy) =~= enc(ys[0].1));
        assert(matches_at(s2, 0, enc(xs[0].1))) by {
            assert(s2.subrange(0, vx) =~= s.subrange(8 + kl, 8 + kl + vx));
        }
        assert(matches_at(s2, 0, enc(ys[0].1))) by {
            assert(s2.subrange(0, vy) =~= s.subrange(8 + kl, 8 + kl + vy));
        }
        lemma_enc_unambiguous(xs[0].1, ys[0].1, s2);
        assert(xs[0] == ys[0]);
        let w = 8 + kl + vx;
        let s3 = s.skip(w);
        lemma_slice_at(s, 0, ex, w, ex.len() as int);
        lemma_slice_at(s, 0, ey, w, ey.len() as int);
        assert(ex.subrange(w, ex.len() as int) =~= enc_pairs(xs.drop_first()));
        assert(ey.subrange(w, ey.len() as int) =~= enc_pairs(ys.drop_first()));
        assert(matches_at(s3, 0, enc_pairs(xs.drop_first()))) by {
            assert(s3.subrange(0, enc_pairs(xs.drop_first()).len() as int) =~= s.subrange(
                w,
                ex.len() as int,
            ));
        }
        assert(matches_at(s3, 0, enc_pairs(ys.drop_first()))) by {
            assert(s3.subrange(0, enc_pairs(ys.drop_first()).len() as int) =~= s.subrange(
                w,
                ey.len() as int,
            ));
        }
        lemma_enc_pairs_unambiguous(xs.drop_first(), ys.drop_first(), s3);
        assert forall|q: int| 0 <= q < xs.len() implies xs[q] == ys[q] by {
            if q > 0 {
                assert(xs.drop_first()[q - 1] == xs[q]);
                assert(ys.drop_first()[q - 1] == ys[q]);
            }
        }
        assert(xs =~= ys);
    }
}

/// Decoding inverts encoding: a valid value's canonical bytes decode to
/// exactly that value.
pub proof fn lemma_dec_enc(v: ValueV)
    requires
        valid_v(v),
    ensures
        dec(enc(v)) == Some(v),
{
    assert(valid_v(v) && enc(v) == enc(v));
    let w = choose|w: ValueV| valid_v(w) && enc(w) == enc(v);
    assert(enc(v).subrange(0, enc(v).len() as int) =~= enc(v));
    lemma_enc_unambiguous(w, v, enc(v));
}

/// Relies on String::from_utf8: it accepts exactly the byte strings that
/// are valid UTF-8, and the accepted string holds exactly those bytes.
#[verifier::external_body]
fn string_from_utf8(bytes: Vec<u8>) -> (r: Option<String>)
    ensures
        r matches Some(s) ==> encode_utf8(s@) == bytes@,
        valid_utf8(bytes@) ==> r is Some,
{
    String::from_utf8(bytes).ok()
}

/// Reads eight big-endian bytes as an integer.
fn read_be64(bytes: &Vec<u8>, i: usize) -> (r: Option<(u64, usize)>)
    ensures
        r matches Some(p) ==> p.1 == i + 8 && i + 8 <= bytes@.len() && be64(p.0)
            == bytes@.subrange(i as int, i + 8),
        i + 8 <= bytes@.len() ==> r is Some,
{
    if bytes.len() < 8 || i > bytes.len() - 8 {
        return None;
    }
    let b0 = bytes[i];
    let b1 = bytes[i + 1];
    let b2 = bytes[i + 2];
    let b3 = bytes[i + 3];
    let b4 = bytes[i + 4];
    let b5 = bytes[i + 5];
    let b6 = bytes[i + 6];
    let b7 = bytes[i + 7];
    let n = ((b0 as u64) << 56) | ((b1 as u64) << 48) | ((b2 as u64) << 40) | ((b3 as u64) << 32)
        | ((b4 as u64) << 24) | ((b5 as u64) << 16) | ((b6 as u64) << 8) | (b7 as u64);
    proof {
        assert(n == ((b0 as u64) << 56) | ((b1 as u64) << 48) | ((b2 as u64) << 40) | ((b3
            as u64) << 32) | ((b4 as u64) << 24) | ((b5 as u64) << 16) | ((b6 as u64) << 8) | (b7
            as u64) ==> (n >> 56) as u8 == b0 && (n >> 48) as u8 == b1 && (n >> 40) as u8 == b2
            && (n >> 32) as u8 == b3 && (n >> 24) as u8 == b4 && (n >> 16) as u8 == b5 && (n >> 8)
            as u8 == b6 && n as u8 == b7) by (bit_vector);
        assert(be64(n) =~= bytes@.subrange(i as int, i + 8));
    }
    Some((n, i + 8))
}

/// Copies the bytes of the given range.
fn take_range(bytes: &Vec<u8>, i: usize, n: usize) -> (r: Vec<u8>)
    requires
        i + n <= bytes@.len(),
    ensures
        r@ == bytes@.subrange(i as int, i + n),
{
    let total = bytes.len();
    let piece = vstd::slice::slice_subrange(bytes.as_slice(), i, i + n);
    vstd::slice::slice_to_vec(piece)
}

/// Reads one length-prefixed UTF-8 string.
fn parse_key(bytes: &Vec<u8>, i: usize) -> (r: Option<(String, usize)>)
    ensures
        r matches Some(p) ==> i + 8 <= p.1 <= bytes@.len() && encode_utf8(p.0@).len() <= u64::MAX
            && p.1 == i + enc_key(p.0@).len() && matches_at(bytes@, i as int, enc_key(p.0@)),
        forall|t: Seq<char>|
            encode_utf8(t).len() <= u64::MAX && matches_at(bytes@, i as int, #[trigger] enc_key(t))
                ==> (r matches Some(p) && p.0@ == t && p.1 == i + enc_key(t).len()),
{
    let s = Ghost(bytes@);
    let head = read_be64(bytes, i);
    if head.is_none() {
        proof {
            assert forall|t: Seq<char>|
                encode_utf8(t).len() <= u64::MAX && matches_at(
                    bytes@,
                    i as int,
                    #[trigger] enc_key(t),
                ) implies false by {
                assert(i + enc_key(t).len() <= bytes@.len());
                assert(enc_key(t).len() >= 8);
            }
        }
        return None;
    }
    let (n, j) = head.unwrap();
    proof {
        assert forall|t: Seq<char>|
            encode_utf8(t).len() <= u64::MAX && matches_at(bytes@, i as int, #[trigger] enc_key(t))
            implies encode_utf8(t).len() == n && matches_at(
            bytes@,
            j as int,
            encode_utf8(t),
        ) by {
            lemma_slice_at(bytes@, i as int, enc_key(t), 0, 8);
            assert(enc_key(t).subrange(0, 8) =~= be64(encode_utf8(t).len() as u64));
            lemma_be64_injective(encode_utf8(t).len() as u64, n);
            lemma_slice_at(bytes@, i as int, enc_key(t), 8, enc_key(t).len() as int);
            assert(enc_key(t).subrange(8, enc_key(t).len() as int) =~= encode_utf8(t));
        }
    }
    if n > (bytes.len() - j) as u64 {
        return None;
    }
    let nu = n as usize;
    let payload = take_range(bytes, j, nu);
    let parsed = string_from_utf8(payload);
    match parsed {
        Some(text) => {
            proof {
                assert forall|t: Seq<char>|
                    encode_utf8(t).len() <= u64::MAX && matches_at(
                        bytes@,
                        i as int,
                        #[trigger] enc_key(t),
                    ) implies text@ == t by {
                    assert(encode_utf8(t) =~= encode_utf8(text@));
                    vstd::utf8::encode_utf8_decode_utf8(t);
                    vstd::utf8::encode_utf8_decode_utf8(text@);
                }
                assert(enc_key(text@) =~= bytes@.subrange(i as int, i + enc_key(text@).len()));
            }
            Some((text, j + nu))
        },
        None => {
            proof {
                assert forall|t: Seq<char>|
                    encode_utf8(t).len() <= u64::MAX && matches_at(
                        bytes@,
                        i as int,
                        #[trigger] enc_key(t),
                    ) implies false by {
                    vstd::utf8::encode_utf8_valid_utf8(t);
                }
            }
            None
        },
    }
}

/// The length-prefixed layout shared by byte strings and links.
pub open spec fn blob_enc(b: Seq<u8>) -> Seq<u8> {
    be64(b.len() as u64) + b
}

/// Reads one length-prefixed byte string.
fn parse_blob(bytes: &Vec<u8>, i: usize) -> (r: Option<(Vec<u8>, usize)>)
    ensures
        r matches Some(p) ==> i + 8 <= p.1 <= bytes@.len() && p.0@.len() <= u64::MAX && p.1 == i
            + 8 + p.0@.len() && matches_at(bytes@, i as int, blob_enc(p.0@)),
        forall|b: Seq<u8>|
            b.len() <= u64::MAX && matches_at(bytes@, i as int, #[trigger] blob_enc(b)) ==> (
            r matches Some(p) && p.0@ == b && p.1 == i + 8 + b.len()),
{
    let head = read_be64(bytes, i);
    if head.is_none() {
        proof {
            assert forall|b: Seq<u8>|
                b.len() <= u64::MAX && matches_at(
                    bytes@,
                    i as int,
                    #[trigger] blob_enc(b),
                ) implies false by {
                assert(i + blob_enc(b).len() <= bytes@.len());
                assert(blob_enc(b).len() >= 8);
            }
        }
        return None;
    }
    let (n, j) = head.unwrap();
    proof {
        assert forall|b: Seq<u8>|
            b.len() <= u64::MAX && matches_at(bytes@, i as int, #[trigger] blob_enc(b)) implies
        b.len() == n && b == bytes@.subrange(j as int, j + b.len()) by {
            lemma_slice_at(bytes@, i as int, blob_enc(b), 0, 8);
            assert(blob_enc(b).subrange(0, 8) =~= be64(b.len() as u64));
            lemma_be64_injective(b.len() as u64, n);
            lemma_slice_at(bytes@, i as int, blob_enc(b), 8, blob_enc(b).len() as int);
            assert(blob_enc(b).subrange(8, blob_enc(b).len() as int) =~= b);
        }
    }
    if n > (bytes.len() - j) as u64 {
        return None;
    }
    let nu = n as usize;
    let payload = take_range(bytes, j, nu);
    proof {
        assert(blob_enc(payload@) =~= bytes@.subrange(i as int, i + blob_enc(payload@).len()));
    }
    Some((payload, j + nu))
}

/// Parses the value whose encoding starts at the given offset, returning
/// it with the offset just past it.  The contract is exact in both
/// directions: whatever is returned is encoded there, and whatever is
/// encoded there is returned.
#[verifier::rlimit(100)]
fn parse_value(bytes: &Vec<u8>, i: usize) -> (r: Option<(Value, usize)>)
    ensures
        r matches Some(p) ==> i < p.1 <= bytes@.len() && valid_v(p.0@) && p.1 == i + enc(
            p.0@,
        ).len() && matches_at(bytes@, i as int, enc(p.0@)),
        forall|w: ValueV|
            valid_v(w) && matches_at(bytes@, i as int, #[trigger] enc(w)) ==> (r matches Some(p)
                && p.0@ == w && p.1 == i + enc(w).len()),
    decreases bytes@.len() - i,
{
    let n_total = bytes.len();
    if i >= n_total {
        proof {
            assert forall|w: ValueV|
                valid_v(w) && matches_at(bytes@, i as int, #[trigger] enc(w)) implies false by {
                lemma_shape(bytes@, i as int, w);
            }
        }
        return None;
    }
    let tag = bytes[i];
    if tag == 0 {
        proof {
            assert(bytes@.subrange(i as int, i + 1) =~= enc(ValueV::Null));
            assert forall|w: ValueV|
                valid_v(w) && matches_at(bytes@, i as int, #[trigger] enc(w)) implies w
                == ValueV::Null && enc(w).len() == 1 by {
                lemma_shape(bytes@, i as int, w);
            }
        }
        Some((Value::Null, i + 1))
    } else if tag == 1 {
        if i + 1 >= n_total {
            proof {
                assert forall|w: ValueV|
                    valid_v(w) && matches_at(bytes@, i as int, #[trigger] enc(w)) implies false by {
                    lemma_shape(bytes@, i as int, w);
                    assert(w is Bool);
                }
            }
            return None;
        }
        let b2 = bytes[i + 1];
        if b2 > 1 {
            proof {
                assert forall|w: ValueV|
                    valid_v(w) && matches_at(bytes@, i as int, #[trigger] enc(w)) implies false by {
                    lemma_shape(bytes@, i as int, w);
                    assert(w is Bool);
                }
            }
            return None;
        }
        let v = Value::Bool(b2 == 1);
        proof {
            assert(bytes@.subrange(i as int, i + 2) =~= enc(v@));
            assert forall|w: ValueV|
                valid_v(w) && matches_at(bytes@, i as int, #[trigger] enc(w)) implies w == v@
                && enc(w).len() == 2 by {
                lemma_shape(bytes@, i as int, w);
                assert(w is Bool);
            }
        }
        Some((v, i + 2))
    } else if tag == 2 {
        let head = read_be64(bytes, i + 1);
        if head.is_none() {
            proof {
                assert forall|w: ValueV|
                    valid_v(w) && matches_at(bytes@, i as int, #[trigger] enc(w)) implies false by {
                    lemma_shape(bytes@, i as int, w);
                    assert(w is Int);
                }
            }
            return None;
        }
        let (n, j) = head.unwrap();
        let v = Value::Int(n);
        proof {
            assert(bytes@.subrange(i as int, i + 9) =~= enc(v@));
            assert forall|w: ValueV|
                valid_v(w) && matches_at(bytes@, i as int, #[trigger] enc(w)) implies w == v@
                && enc(w).len() == 9 by {
                lemma_shape(bytes@, i as int, w);
                assert(w is Int);
                lemma_be64_injective(w->Int_0, n);
            }
        }
        Some((v, j))
    } else if tag == 3 {
        let parsed = parse_key(bytes, i + 1);
        proof {
            assert forall|w: ValueV|
                valid_v(w) && matches_at(bytes@, i as int, #[trigger] enc(w)) implies w is Str
                && encode_utf8(w->Str_0).len() <= u64::MAX && matches_at(
                bytes@,
                i + 1,
                enc_key(w->Str_0),
            ) && enc(w).len() == 1 + enc_key(w->Str_0).len() by {
                lemma_shape(bytes@, i as int, w);
                assert(w is Str);
                lemma_slice_at(bytes@, i as int, enc(w), 1, enc(w).len() as int);
                assert(enc(w).subrange(1, enc(w).len() as int) =~= enc_key(w->Str_0));
            }
        }
        match parsed {
            Some((text, j)) => {
                let v = Value::Str(text);
                proof {
                    let ek = enc_key(text@);
                    assert(enc(v@) =~= seq![3u8] + ek);
                    assert forall|y: int| 0 <= y < ek.len() implies bytes@[i + 1 + y] == ek[y] by {
                        assert(bytes@.subrange(i + 1, i + 1 + ek.len())[y] == bytes@[i + 1 + y]);
                    }
                    assert(bytes@.subrange(i as int, j as int) =~= enc(v@));
                }
                Some((v, j))
            },
            None => None,
        }
    } else if tag == 4 || tag == 5 {
        let parsed = parse_blob(bytes, i + 1);
        proof {
            assert forall|w: ValueV|
                valid_v(w) && matches_at(bytes@, i as int, #[trigger] enc(w)) implies (if tag == 4 {
                w is Bytes
            } else {
                w is Link
            }) && matches_at(bytes@, i + 1, blob_enc(payload_of(w))) && payload_of(w).len()
                <= u64::MAX && enc(w).len() == 1 + blob_enc(payload_of(w)).len() by {
                lemma_shape(bytes@, i as int, w);
                lemma_slice_at(bytes@, i as int, enc(w), 1, enc(w).len() as int);
                assert(enc(w).subrange(1, enc(w).len() as int) =~= blob_enc(payload_of(w)));
            }
        }
        match parsed {
            Some((payload, j)) => {
                proof {
                    let eb = blob_enc(payload@);
                    assert forall|y: int| 0 <= y < eb.len() implies bytes@[i + 1 + y] == eb[y] by {
                        assert(bytes@.subrange(i + 1, i + 1 + eb.len())[y] == bytes@[i + 1 + y]);
                    }
                }
                if tag == 4 {
                    let v = Value::Bytes(payload);
                    proof {
                        assert(enc(v@) =~= seq![4u8] + blob_enc(v@->Bytes_0));
                        assert(bytes@.subrange(i as int, j as int) =~= enc(v@));
                    }
                    Some((v, j))
                } else {
                    let ghost pv = payload@;
                    let v = Value::Link(Identifier::from_bytes(payload));
                    proof {
                        assert(v@ == ValueV::Link(pv));
                        assert(enc(v@) =~= seq![5u8] + blob_enc(pv));
                        assert(bytes@.subrange(i as int, j as int) =~= enc(v@));
                    }
                    Some((v, j))
                }
            },
            None => None,
        }
    } else if tag == 6 {
        let head = read_be64(bytes, i + 1);
        if head.is_none() {
            proof {
                assert forall|w: ValueV|
                    valid_v(w) && matches_at(bytes@, i as int, #[trigger] enc(w)) implies false by {
                    lemma_shape(bytes@, i as int, w);
                    assert(w is List);
                }
            }
            return None;
        }
        let (n, j) = head.unwrap();
        proof {
            assert forall|w: ValueV|
                valid_v(w) && matches_at(bytes@, i as int, #[trigger] enc(w)) implies w is List
                && w->List_0.len() == n by {
                lemma_shape(bytes@, i as int, w);
                assert(w is List);
                lemma_be64_injective(w->List_0.len() as u64, n);
            }
        }
        let mut elems: Vec<Value> = Vec::new();
        let mut pos: usize = j;
        let mut k: u64 = 0;
        proof {
            assert(elem_views(elems@) =~= Seq::<ValueV>::empty());
            assert(enc_seq(elem_views(elems@)) =~= bytes@.subrange(i + 9, pos as int));
        }
        while k < n
            invariant
                i < bytes@.len() <= usize::MAX,
                bytes@[i as int] == 6,
                be64(n) == bytes@.subrange(i + 1, i + 9),
                j == i + 9,
                k <= n,
                elems@.len() == k,
                i + 9 <= pos <= bytes@.len(),
                enc_seq(elem_views(elems@)) == bytes@.subrange(i + 9, pos as int),
                forall|x: int| 0 <= x < k ==> valid_v(#[trigger] elem_views(elems@)[x]),
                forall|w: ValueV|
                    valid_v(w) && matches_at(bytes@, i as int, #[trigger] enc(w)) ==> w is List
                        && w->List_0.len() == n && w->List_0.take(k as int) == elem_views(elems@),
            decreases n - k,
        {
            proof {
                assert forall|w: ValueV|
                    valid_v(w) && matches_at(bytes@, i as int, #[trigger] enc(w)) implies valid_v(
                    w->List_0[k as int],
                ) && matches_at(bytes@, pos as int, enc(w->List_0[k as int])) by {
                    let ws = w->List_0;
                    lemma_shape(bytes@, i as int, w);
                    lemma_enc_seq_take_skip(ws, k as int);
                    assert(ws.skip(k as int)[0] == ws[k as int]);
                    assert(ws.skip(k as int).drop_first() =~= ws.skip(k as int + 1));
                    assert(enc_seq(ws.skip(k as int)) == enc(ws[k as int]) + enc_seq(
                        ws.skip(k as int + 1),
                    ));
                    assert(ws.take(k as int) == elem_views(elems@));
                    assert(enc_seq(ws.take(k as int)).len() == pos - (i + 9));
                    let off = 9 + enc_seq(ws.take(k as int)).len() as int;
                    lemma_slice_at(
                        bytes@,
                        i as int,
                        enc(w),
                        off,
                        off + enc(ws[k as int]).len() as int,
                    );
                    assert(enc(w).subrange(off, off + enc(ws[k as int]).len() as int) =~= enc(
                        ws[k as int],
                    ));
                }
            }
            let child = parse_value(bytes, pos);
            match child {
                Some((v, p2)) => {
                    let ghost prev = elems@;
                    let ghost ppos = pos as int;
                    let ghost vv = v@;
                    elems.push(v);
                    pos = p2;
                    k = k + 1;
                    proof {
                        assert(elem_views(elems@) =~= elem_views(prev).push(vv));
                        lemma_enc_seq_push(elem_views(prev), vv);
                        assert(bytes@.subrange(ppos, p2 as int) == enc(vv));
                        assert(bytes@.subrange(i + 9, pos as int) =~= bytes@.subrange(i + 9, ppos)
                            + bytes@.subrange(ppos, p2 as int));
                        assert(enc_seq(elem_views(elems@)) =~= bytes@.subrange(i + 9, pos as int));
                        assert forall|x: int| 0 <= x < k implies valid_v(
                            #[trigger] elem_views(elems@)[x],
                        ) by {
                            if x < k - 1 {
                                assert(elem_views(elems@)[x] == elem_views(prev)[x]);
                            } else {
                                assert(elem_views(elems@)[x] == vv);
                            }
                        }
                        assert forall|w: ValueV|
                            valid_v(w) && matches_at(
                                bytes@,
                                i as int,
                                #[trigger] enc(w),
                            ) implies w->List_0.take(k as int) == elem_views(elems@) by {
                            assert(w->List_0.take(k as int) =~= w->List_0.take(k - 1).push(
                                w->List_0[k - 1],
                            ));
                            assert(elem_views(elems@) =~= w->List_0.take(k as int));
                        }
                    }
                },
                None => {
                    proof {
                        assert forall|w: ValueV|
                            valid_v(w) && matches_at(
                                bytes@,
                                i as int,
                                #[trigger] enc(w),
                            ) implies false by {}
                    }
                    return None;
                },
            }
        }
        let ghost views = elem_views(elems@);
        let v = Value::List(elems);
        proof {
            crate::value::lemma_deep_list(v->List_0);
            assert(v@ == ValueV::List(views));
            assert(valid_v(v@));
            assert(enc(v@) =~= seq![6u8] + be64(n) + enc_seq(views));
            assert forall|y: int| 0 <= y < 8 implies bytes@[i + 1 + y] == be64(n)[y] by {
                assert(bytes@.subrange(i + 1, i + 9)[y] == bytes@[i + 1 + y]);
            }
            assert forall|y: int| 0 <= y < enc_seq(views).len() implies bytes@[i + 9 + y]
                == enc_seq(views)[y] by {
                assert(bytes@.subrange(i + 9, pos as int)[y] == bytes@[i + 9 + y]);
            }
            assert(bytes@.subrange(i as int, pos as int) =~= enc(v@));
            assert forall|w: ValueV|
                valid_v(w) && matches_at(bytes@, i as int, #[trigger] enc(w)) implies w == v@
                && pos == i + enc(w).len() by {
                assert(w->List_0.take(n as int) =~= w->List_0);
                lemma_shape(bytes@, i as int, w);
            }
        }
        Some((v, pos))
    } else if tag == 7 {
        let head = read_be64(bytes, i + 1);
        if head.is_none() {
            proof {
                assert forall|w: ValueV|
                    valid_v(w) && matches_at(bytes@, i as int, #[trigger] enc(w)) implies false by {
                    lemma_shape(bytes@, i as int, w);
                    assert(w is Mapping);
                }
            }
            return None;
        }
        let (n, j) = head.unwrap();
        proof {
            assert forall|w: ValueV|
                valid_v(w) && matches_at(bytes@, i as int, #[trigger] enc(w)) implies w is Mapping
                && w->Mapping_0.len() == n by {
                lemma_shape(bytes@, i as int, w);
                assert(w is Mapping);
                lemma_be64_injective(w->Mapping_0.len() as u64, n);
            }
        }
        let mut entries: Vec<Entry> = Vec::new();
        let mut pos: usize = j;
        let mut k: u64 = 0;
        proof {
            assert(entry_pairs(entries@) =~= Seq::<(Seq<char>, ValueV)>::empty());
            assert(enc_pairs(entry_pairs(entries@)) =~= bytes@.subrange(i + 9, pos as int));
        }
        while k < n
            invariant
                i < bytes@.len() <= usize::MAX,
                bytes@[i as int] == 7,
                be64(n) == bytes@.subrange(i + 1, i + 9),
                j == i + 9,
                k <= n,
                entries@.len() == k,
                i + 9 <= pos <= bytes@.len(),
                enc_pairs(entry_pairs(entries@)) == bytes@.subrange(i + 9, pos as int),
                forall|x: int|
                    0 <= x < k ==> encode_utf8((#[trigger] entry_pairs(entries@)[x]).0).len()
                        <= u64::MAX && valid_v(entry_pairs(entries@)[x].1),
                forall|w: ValueV|
                    valid_v(w) && matches_at(bytes@, i as int, #[trigger] enc(w)) ==> w is Mapping
                        && w->Mapping_0.len() == n && w->Mapping_0.take(k as int) == entry_pairs(
                        entries@,
                    ),
            decreases n - k,
        {
            proof {
                assert forall|w: ValueV|
                    valid_v(w) && matches_at(bytes@, i as int, #[trigger] enc(w)) implies valid_v(
                    w->Mapping_0[k as int].1,
                ) && encode_utf8(w->Mapping_0[k as int].0).len() <= u64::MAX && matches_at(
                    bytes@,
                    pos as int,
                    enc_key(w->Mapping_0[k as int].0),
                ) && matches_at(
                    bytes@,
                    pos + enc_key(w->Mapping_0[k as int].0).len(),
                    enc(w->Mapping_0[k as int].1),
                ) by {
                    let ps = w->Mapping_0;
                    lemma_shape(bytes@, i as int, w);
                    lemma_enc_pairs_take_skip(ps, k as int);
                    assert(ps.skip(k as int)[0] == ps[k as int]);
                    assert(ps.skip(k as int).drop_first() =~= ps.skip(k as int + 1));
                    assert(enc_pairs(ps.skip(k as int)) == enc_key(ps[k as int].0) + enc(
                        ps[k as int].1,
                    ) + enc_pairs(ps.skip(k as int + 1)));
                    assert(ps.take(k as int) == entry_pairs(entries@));
                    assert(enc_pairs(ps.take(k as int)).len() == pos - (i + 9));
                    let off = 9 + enc_pairs(ps.take(k as int)).len() as int;
                    let kl = enc_key(ps[k as int].0).len() as int;
                    let vl = enc(ps[k as int].1).len() as int;
                    lemma_slice_at(bytes@, i as int, enc(w), off, off + kl);
                    assert(enc(w).subrange(off, off + kl) =~= enc_key(ps[k as int].0));
                    lemma_slice_at(bytes@, i as int, enc(w), off + kl, off + kl + vl);
                    assert(enc(w).subrange(off + kl, off + kl + vl) =~= enc(ps[k as int].1));
                }
            }
            let parsed_key = parse_key(bytes, pos);
            match parsed_key {
                Some((text, pos_v)) => {
                    let child = parse_value(bytes, pos_v);
                    match child {
                        Some((v, p2)) => {
                            let ghost prev = entries@;
                            let ghost ppos = pos as int;
                            let ghost tv = text@;
                            let ghost vv = v@;
                            entries.push(Entry { key: text, value: v });
                            pos = p2;
                            k = k + 1;
                            proof {
                                assert(entry_pairs(entries@) =~= entry_pairs(prev).push(
                                    (tv, vv),
                                ));
                                lemma_enc_pairs_push(entry_pairs(prev), (tv, vv));
                                assert(bytes@.subrange(ppos, ppos + enc_key(tv).len()) == enc_key(
                                    tv,
                                ));
                                assert(bytes@.subrange(
                                    ppos + enc_key(tv).len(),
                                    p2 as int,
                                ) == enc(vv));
                                assert(bytes@.subrange(ppos, p2 as int) =~= bytes@.subrange(
                                    ppos,
                                    ppos + enc_key(tv).len(),
                                ) + bytes@.subrange(ppos + enc_key(tv).len(), p2 as int));
                                assert(bytes@.subrange(i + 9, pos as int) =~= bytes@.subrange(
                                    i + 9,
                                    ppos,
                                ) + bytes@.subrange(ppos, p2 as int));
                                assert(enc_pairs(entry_pairs(entries@)) =~= bytes@.subrange(
                                    i + 9,
                                    pos as int,
                                ));
                                assert forall|x: int| 0 <= x < k implies encode_utf8(
                                    (#[trigger] entry_pairs(entries@)[x]).0,
                                ).len() <= u64::MAX && valid_v(entry_pairs(entries@)[x].1) by {
                                    if x < k - 1 {
                                        assert(entry_pairs(entries@)[x] == entry_pairs(prev)[x]);
                                    } else {
                                        assert(entry_pairs(entries@)[x] == (tv, vv));
                                    }
                                }
                                assert forall|w: ValueV|
                                    valid_v(w) && matches_at(
                                        bytes@,
                                        i as int,
                                        #[trigger] enc(w),
                                    ) implies w->Mapping_0.take(k as int) == entry_pairs(
                                    entries@,
                                ) by {
                                    assert(w->Mapping_0.take(k as int) =~= w->Mapping_0.take(
                                        k - 1,
                                    ).push(w->Mapping_0[k - 1]));
                                    assert(entry_pairs(entries@) =~= w->Mapping_0.take(k as int));
                                }
                            }
                        },
                        None => {
                            proof {
                                assert forall|w: ValueV|
                                    valid_v(w) && matches_at(
                                        bytes@,
                                        i as int,
                                        #[trigger] enc(w),
                                    ) implies false by {}
                            }
                            return None;
                        },
                    }
                },
                None => {
                    proof {
                        assert forall|w: ValueV|
                            valid_v(w) && matches_at(
                                bytes@,
                                i as int,
                                #[trigger] enc(w),
                            ) implies false by {}
                    }
                    return None;
                },
            }
        }
        let ghost views = entry_pairs(entries@);
        let v = Value::Mapping(entries);
        proof {
            crate::value::lemma_deep_mapping(v->Mapping_0);
            assert(v@ == ValueV::Mapping(views));
            assert(valid_v(v@));
            assert(enc(v@) =~= seq![7u8] + be64(n) + enc_pairs(views));
            assert forall|y: int| 0 <= y < 8 implies bytes@[i + 1 + y] == be64(n)[y] by {
                assert(bytes@.subrange(i + 1, i + 9)[y] == bytes@[i + 1 + y]);
            }
            assert forall|y: int| 0 <= y < enc_pairs(views).len() implies bytes@[i + 9 + y]
                == enc_pairs(views)[y] by {
                assert(bytes@.subrange(i + 9, pos as int)[y] == bytes@[i + 9 + y]);
            }
            assert(bytes@.subrange(i as int, pos as int) =~= enc(v@));
            assert forall|w: ValueV|
                valid_v(w) && matches_at(bytes@, i as int, #[trigger] enc(w)) implies w == v@
                && pos == i + enc(w).len() by {
                assert(w->Mapping_0.take(n as int) =~= w->Mapping_0);
                lemma_shape(bytes@, i as int, w);
            }
        }
        Some((v, pos))
    } else {
        proof {
            assert forall|w: ValueV|
                valid_v(w) && matches_at(bytes@, i as int, #[trigger] enc(w)) implies false by {
                lemma_shape(bytes@, i as int, w);
            }
        }
        None
    }
}

/// The raw bytes behind a byte-string or link value.
pub open spec fn payload_of(w: ValueV) -> Seq<u8> {
    match w {
        ValueV::Bytes(b) => b,
        ValueV::Link(b) => b,
        _ => Seq::empty(),
    }
}

/// Decodes canonical bytes back to the structured value they encode, and
/// rejects with a decode error every byte string that no value encodes to.
pub fn decode_value(bytes: &Vec<u8>) -> (r: Result<Value, DecodeError>)
    ensures
        r matches Ok(v) ==> valid_v(v@) && enc(v@) == bytes@ && dec(bytes@) == Some(v@),
        r matches Err(e) ==> dec(bytes@) is None && e == DecodeError,
{
    let parsed = parse_value(bytes, 0);
    proof {
        if dec(bytes@) is Some {
            let w = choose|w: ValueV| valid_v(w) && enc(w) == bytes@;
            assert(bytes@.subrange(0, enc(w).len() as int) =~= bytes@);
            assert(matches_at(bytes@, 0, enc(w)));
        }
    }
    match parsed {
        Some((v, j)) => {
            if j == bytes.len() {
                proof {
                    assert(enc(v@) =~= bytes@);
                    assert(valid_v(v@) && enc(v@) == bytes@);
                }
                Ok(v)
            } else {
                proof {
                    if dec(bytes@) is Some {
                        let w = choose|w: ValueV| valid_v(w) && enc(w) == bytes@;
                        assert(j == enc(w).len());
                    }
                }
                Err(DecodeError)
            }
        },
        None => {
            Err(DecodeError)
        },
    }
}
} // verus!
