//! The bytes over which an attribute list is hashed tell apart any two lists that differ.

use crate::encoding::{
    encode_attrs, flags_bytes, integers_bytes, pairs_bytes, text_bytes, texts_bytes, value_bytes,
    word_bytes, words_bytes,
};
use crate::key_value::{attr_views, Array, ArrayView, KeyValue, KeyValueView, Value, ValueView};
use vstd::prelude::*;
use vstd::utf8::*;

verus! {

/// Two sequences that begin with parts of the same length and are equal agree in both parts.
proof fn lemma_split(a: Seq<u8>, b: Seq<u8>, p: Seq<u8>, q: Seq<u8>)
    requires
        a + p == b + q,
        a.len() == b.len(),
    ensures
        a == b,
        p == q,
{
    assert((a + p).take(a.len() as int) =~= a);
    assert((b + q).take(a.len() as int) =~= b);
    assert((a + p).skip(a.len() as int) =~= p);
    assert((b + q).skip(a.len() as int) =~= q);
}

proof fn lemma_word_apart(a: u64, b: u64, p: Seq<u8>, q: Seq<u8>)
    requires
        word_bytes(a) + p == word_bytes(b) + q,
    ensures
        a == b,
        p == q,
{
    vstd::bytes::lemma_auto_spec_u64_to_from_le_bytes();
    assert(word_bytes(a).len() == 8 && word_bytes(b).len() == 8);
    lemma_split(word_bytes(a), word_bytes(b), p, q);
}

/// No byte of a text is the one that ends a text.
proof fn lemma_text_without_end(text: Seq<char>, i: int)
    requires
        0 <= i < encode_utf8(text).len(),
    ensures
        encode_utf8(text)[i] != 0xff,
    decreases text.len(),
{
    let c = text[0] as u32;
    let first = encode_scalar(c);
    char_is_scalar(text[0]);
    assert((c & 0x7f) as u8 != 0xff) by (bit_vector);
    assert(0xc0 | ((c >> 6) & 0x1f) as u8 != 0xff) by (bit_vector);
    assert(0xe0 | ((c >> 12) & 0x0f) as u8 != 0xff) by (bit_vector);
    assert(0xf0 | ((c >> 18) & 0x7) as u8 != 0xff) by (bit_vector);
    assert(0x80 | (c & 0x3f) as u8 != 0xff) by (bit_vector);
    assert(0x80 | ((c >> 6) & 0x3f) as u8 != 0xff) by (bit_vector);
    assert(0x80 | ((c >> 12) & 0x3f) as u8 != 0xff) by (bit_vector);
    if i >= first.len() {
        lemma_text_without_end(text.drop_first(), i - first.len());
    }
}

proof fn lemma_text_apart(a: Seq<char>, b: Seq<char>, p: Seq<u8>, q: Seq<u8>)
    requires
        text_bytes(a) + p == text_bytes(b) + q,
    ensures
        a == b,
        p == q,
{
    let (x, y) = (encode_utf8(a), encode_utf8(b));
    let (l, r) = (text_bytes(a) + p, text_bytes(b) + q);
    if x.len() < y.len() {
        assert(l[x.len() as int] == 0xff);
        assert(r[x.len() as int] == y[x.len() as int]);
        lemma_text_without_end(b, x.len() as int);
    } else if y.len() < x.len() {
        assert(r[y.len() as int] == 0xff);
        assert(l[y.len() as int] == x[y.len() as int]);
        lemma_text_without_end(a, y.len() as int);
    }
    lemma_split(text_bytes(a), text_bytes(b), p, q);
    assert(text_bytes(a).drop_last() =~= x);
    assert(text_bytes(b).drop_last() =~= y);
    encode_utf8_decode_utf8(a);
    encode_utf8_decode_utf8(b);
}

proof fn lemma_flags_apart(a: Seq<bool>, b: Seq<bool>, p: Seq<u8>, q: Seq<u8>)
    requires
        a.len() == b.len(),
        flags_bytes(a) + p == flags_bytes(b) + q,
    ensures
        a == b,
        p == q,
{
    lemma_split(flags_bytes(a), flags_bytes(b), p, q);
    assert forall|i: int| 0 <= i < a.len() implies a[i] == b[i] by {
        assert(flags_bytes(a)[i] == flags_bytes(b)[i]);
    }
    assert(a =~= b);
}

proof fn lemma_integers_first(s: Seq<i64>)
    requires
        s.len() > 0,
    ensures
        integers_bytes(s) == word_bytes(s[0] as u64) + integers_bytes(s.drop_first()),
    decreases s.len(),
{
    let (front, rest) = (s.drop_last(), s.drop_first());
    if s.len() == 1 {
        assert(front =~= Seq::<i64>::empty());
        assert(rest =~= Seq::<i64>::empty());
        assert(integers_bytes(s) =~= word_bytes(s[0] as u64) + integers_bytes(rest));
    } else {
        lemma_integers_first(front);
        assert(front.drop_first() =~= rest.drop_last());
        assert(integers_bytes(s) =~= word_bytes(s[0] as u64) + integers_bytes(rest));
    }
}

proof fn lemma_integers_apart(a: Seq<i64>, b: Seq<i64>, p: Seq<u8>, q: Seq<u8>)
    requires
        a.len() == b.len(),
        integers_bytes(a) + p == integers_bytes(b) + q,
    ensures
        a == b,
        p == q,
    decreases a.len(),
{
    if a.len() == 0 {
        assert(integers_bytes(a) + p =~= p);
        assert(integers_bytes(b) + q =~= q);
        assert(a =~= b);
    } else {
        let (c, d) = (a.drop_first(), b.drop_first());
        let (i, j) = (a[0], b[0]);
        lemma_integers_first(a);
        lemma_integers_first(b);
        assert(integers_bytes(a) + p =~= word_bytes(i as u64) + (integers_bytes(c) + p));
        assert(integers_bytes(b) + q =~= word_bytes(j as u64) + (integers_bytes(d) + q));
        lemma_word_apart(i as u64, j as u64, integers_bytes(c) + p, integers_bytes(d) + q);
        assert(i as u64 == j as u64 ==> i == j) by (bit_vector);
        lemma_integers_apart(c, d, p, q);
        assert(a =~= seq![i] + c);
        assert(b =~= seq![j] + d);
    }
}

proof fn lemma_words_first(s: Seq<u64>)
    requires
        s.len() > 0,
    ensures
        words_bytes(s) == word_bytes(s[0]) + words_bytes(s.drop_first()),
    decreases s.len(),
{
    let (front, rest) = (s.drop_last(), s.drop_first());
    if s.len() == 1 {
        assert(front =~= Seq::<u64>::empty());
        assert(rest =~= Seq::<u64>::empty());
        assert(words_bytes(s) =~= word_bytes(s[0]) + words_bytes(rest));
    } else {
        lemma_words_first(front);
        assert(front.drop_first() =~= rest.drop_last());
        assert(words_bytes(s) =~= word_bytes(s[0]) + words_bytes(rest));
    }
}

proof fn lemma_words_apart(a: Seq<u64>, b: Seq<u64>, p: Seq<u8>, q: Seq<u8>)
    requires
        a.len() == b.len(),
        words_bytes(a) + p == words_bytes(b) + q,
    ensures
        a == b,
        p == q,
    decreases a.len(),
{
    if a.len() == 0 {
        assert(words_bytes(a) + p =~= p);
        assert(words_bytes(b) + q =~= q);
        assert(a =~= b);
    } else {
        let (c, d) = (a.drop_first(), b.drop_first());
        lemma_words_first(a);
        lemma_words_first(b);
        assert(words_bytes(a) + p =~= word_bytes(a[0]) + (words_bytes(c) + p));
        assert(words_bytes(b) + q =~= word_bytes(b[0]) + (words_bytes(d) + q));
        lemma_word_apart(a[0], b[0], words_bytes(c) + p, words_bytes(d) + q);
        lemma_words_apart(c, d, p, q);
        assert(a =~= seq![a[0]] + c);
        assert(b =~= seq![b[0]] + d);
    }
}

proof fn lemma_texts_first(s: Seq<Seq<char>>)
    requires
        s.len() > 0,
    ensures
        texts_bytes(s) == text_bytes(s[0]) + texts_bytes(s.drop_first()),
    decreases s.len(),
{
    let (front, rest) = (s.drop_last(), s.drop_first());
    if s.len() == 1 {
        assert(front =~= Seq::<Seq<char>>::empty());
        assert(rest =~= Seq::<Seq<char>>::empty());
        assert(texts_bytes(s) =~= text_bytes(s[0]) + texts_bytes(rest));
    } else {
        lemma_texts_first(front);
        assert(front.drop_first() =~= rest.drop_last());
        assert(texts_bytes(s) =~= text_bytes(s[0]) + texts_bytes(rest));
    }
}

proof fn lemma_texts_apart(a: Seq<Seq<char>>, b: Seq<Seq<char>>, p: Seq<u8>, q: Seq<u8>)
    requires
        a.len() == b.len(),
        texts_bytes(a) + p == texts_bytes(b) + q,
    ensures
        a == b,
        p == q,
    decreases a.len(),
{
    if a.len() == 0 {
        assert(texts_bytes(a) + p =~= p);
        assert(texts_bytes(b) + q =~= q);
        assert(a =~= b);
    } else {
        let (c, d) = (a.drop_first(), b.drop_first());
        lemma_texts_first(a);
        lemma_texts_first(b);
        assert(texts_bytes(a) + p =~= text_bytes(a[0]) + (texts_bytes(c) + p));
        assert(texts_bytes(b) + q =~= text_bytes(b[0]) + (texts_bytes(d) + q));
        lemma_text_apart(a[0], b[0], texts_bytes(c) + p, texts_bytes(d) + q);
        lemma_texts_apart(c, d, p, q);
        assert(a =~= seq![a[0]] + c);
        assert(b =~= seq![b[0]] + d);
    }
}

/// The length of an array fits into a word.
spec fn is_countable(value: ValueView) -> bool {
    match value {
        ValueView::Array(ArrayView::Bool(s)) => s.len() <= u64::MAX,
        ValueView::Array(ArrayView::I64(s)) => s.len() <= u64::MAX,
        ValueView::Array(ArrayView::F64(s)) => s.len() <= u64::MAX,
        ValueView::Array(ArrayView::String(s)) => s.len() <= u64::MAX,
        _ => true,
    }
}

proof fn lemma_value_apart(a: ValueView, b: ValueView, p: Seq<u8>, q: Seq<u8>)
    requires
        is_countable(a),
        is_countable(b),
        value_bytes(a) + p == value_bytes(b) + q,
    ensures
        a == b,
        p == q,
{
    let (x, y) = (value_bytes(a) + p, value_bytes(b) + q);
    assert(x[0] == y[0]);
    let (s, t) = (x.skip(1), y.skip(1));
    match (a, b) {
        (ValueView::Bool(i), ValueView::Bool(j)) => {
            assert(x[1] == y[1]);
            lemma_split(value_bytes(a), value_bytes(b), p, q);
        },
        (ValueView::I64(i), ValueView::I64(j)) => {
            assert(s =~= word_bytes(i as u64) + p);
            assert(t =~= word_bytes(j as u64) + q);
            lemma_word_apart(i as u64, j as u64, p, q);
            assert(i as u64 == j as u64 ==> i == j) by (bit_vector);
        },
        (ValueView::F64(i), ValueView::F64(j)) => {
            assert(s =~= word_bytes(i) + p);
            assert(t =~= word_bytes(j) + q);
            lemma_word_apart(i, j, p, q);
        },
        (ValueView::String(i), ValueView::String(j)) => {
            assert(s =~= text_bytes(i) + p);
            assert(t =~= text_bytes(j) + q);
            lemma_text_apart(i, j, p, q);
        },
        (ValueView::Array(ArrayView::Bool(i)), ValueView::Array(ArrayView::Bool(j))) => {
            let (c, d) = (flags_bytes(i) + p, flags_bytes(j) + q);
            assert(s =~= word_bytes(i.len() as u64) + c);
            assert(t =~= word_bytes(j.len() as u64) + d);
            lemma_word_apart(i.len() as u64, j.len() as u64, c, d);
            lemma_flags_apart(i, j, p, q);
        },
        (ValueView::Array(ArrayView::I64(i)), ValueView::Array(ArrayView::I64(j))) => {
            let (c, d) = (integers_bytes(i) + p, integers_bytes(j) + q);
            assert(s =~= word_bytes(i.len() as u64) + c);
            assert(t =~= word_bytes(j.len() as u64) + d);
            lemma_word_apart(i.len() as u64, j.len() as u64, c, d);
            lemma_integers_apart(i, j, p, q);
        },
        (ValueView::Array(ArrayView::F64(i)), ValueView::Array(ArrayView::F64(j))) => {
            let (c, d) = (words_bytes(i) + p, words_bytes(j) + q);
            assert(s =~= word_bytes(i.len() as u64) + c);
            assert(t =~= word_bytes(j.len() as u64) + d);
            lemma_word_apart(i.len() as u64, j.len() as u64, c, d);
            lemma_words_apart(i, j, p, q);
        },
        (ValueView::Array(ArrayView::String(i)), ValueView::Array(ArrayView::String(j))) => {
            let (c, d) = (texts_bytes(i) + p, texts_bytes(j) + q);
            assert(s =~= word_bytes(i.len() as u64) + c);
            assert(t =~= word_bytes(j.len() as u64) + d);
            lemma_word_apart(i.len() as u64, j.len() as u64, c, d);
            lemma_texts_apart(i, j, p, q);
        },
        _ => {},
    }
}

proof fn lemma_pairs_first(s: Seq<KeyValueView>)
    requires
        s.len() > 0,
    ensures
        pairs_bytes(s) == text_bytes(s[0].key) + value_bytes(s[0].value) + pairs_bytes(
            s.drop_first(),
        ),
    decreases s.len(),
{
    let (front, rest) = (s.drop_last(), s.drop_first());
    let first = text_bytes(s[0].key) + value_bytes(s[0].value);
    if s.len() == 1 {
        assert(front =~= Seq::<KeyValueView>::empty());
        assert(rest =~= Seq::<KeyValueView>::empty());
        assert(pairs_bytes(s) =~= first + pairs_bytes(rest));
    } else {
        lemma_pairs_first(front);
        assert(front.drop_first() =~= rest.drop_last());
        assert(pairs_bytes(s) =~= first + pairs_bytes(rest));
    }
}

proof fn lemma_pairs_apart(a: Seq<KeyValueView>, b: Seq<KeyValueView>)
    requires
        a.len() == b.len(),
        forall|i: int| 0 <= i < a.len() ==> is_countable((#[trigger] a[i]).value),
        forall|i: int| 0 <= i < b.len() ==> is_countable((#[trigger] b[i]).value),
        pairs_bytes(a) == pairs_bytes(b),
    ensures
        a == b,
    decreases a.len(),
{
    if a.len() == 0 {
        assert(a =~= b);
    } else {
        let (c, d) = (a.drop_first(), b.drop_first());
        let (p, q) = (value_bytes(a[0].value), value_bytes(b[0].value));
        lemma_pairs_first(a);
        lemma_pairs_first(b);
        assert(pairs_bytes(a) =~= text_bytes(a[0].key) + (p + pairs_bytes(c)));
        assert(pairs_bytes(b) =~= text_bytes(b[0].key) + (q + pairs_bytes(d)));
        lemma_text_apart(a[0].key, b[0].key, p + pairs_bytes(c), q + pairs_bytes(d));
        lemma_value_apart(a[0].value, b[0].value, pairs_bytes(c), pairs_bytes(d));
        assert forall|i: int| 0 <= i < c.len() implies is_countable((#[trigger] c[i]).value) by {
            assert(c[i] == a[i + 1]);
        }
        assert forall|i: int| 0 <= i < d.len() implies is_countable((#[trigger] d[i]).value) by {
            assert(d[i] == b[i + 1]);
        }
        lemma_pairs_apart(c, d);
        assert(a =~= seq![a[0]] + c);
        assert(b =~= seq![b[0]] + d);
    }
}

/// Two attribute lists are written as the same bytes exactly where they hold the same attributes in the
/// same order.
pub proof fn law_bytes_tell_lists_apart(
    a: Vec<KeyValue>,
    b: Vec<KeyValue>,
    x: Vec<u8>,
    y: Vec<u8>,
)
    requires
        call_ensures(encode_attrs, (&a,), x),
        call_ensures(encode_attrs, (&b,), y),
    ensures
        x@ == y@ <==> attr_views(a@) == attr_views(b@),
{
    let (s, t) = (attr_views(a@), attr_views(b@));
    if x@ == y@ {
        assert(a@.len() == a.len() && b@.len() == b.len());
        lemma_word_apart(s.len() as u64, t.len() as u64, pairs_bytes(s), pairs_bytes(t));
        assert forall|i: int| 0 <= i < s.len() implies is_countable((#[trigger] s[i]).value) by {
            lemma_countable(a@[i].value);
        }
        assert forall|i: int| 0 <= i < t.len() implies is_countable((#[trigger] t[i]).value) by {
            lemma_countable(b@[i].value);
        }
        lemma_pairs_apart(s, t);
    }
}

proof fn lemma_countable(value: Value)
    ensures
        is_countable(value@),
{
    match value {
        Value::Array(Array::Bool(v)) => {
            assert(v@.len() == v.len());
        },
        Value::Array(Array::I64(v)) => {
            assert(v@.len() == v.len());
        },
        Value::Array(Array::F64(v)) => {
            assert(v@.len() == v.len());
        },
        Value::Array(Array::String(v)) => {
            assert(v@.len() == v.len());
        },
        _ => {},
    }
}

} // verus!
