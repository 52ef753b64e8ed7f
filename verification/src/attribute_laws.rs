//! What attributes and attribute sets promise, from what goes in to what comes out.

use crate::canonical::{
    bytes_before, compare_keys, diverges_at, is_canonical, key_before, lemma_value_of_first,
    lemma_value_of_some, same_values, sort_and_dedup, value_of, KeyOrder,
};
use crate::encoding::encode_attrs;
use crate::hashed_attributes::{
    clone_attrs, foldhash_fixed, law_set_of_same_values, set_of, stream_overflow_attributes,
    HashedAttributes, PassthroughBuildHasher, PassthroughHasher,
};
use crate::key_value::{
    attr_views, string_views, Array, ArrayView, Key, KeyValue, KeyValueView, Value, ValueView,
};
use vstd::prelude::*;
use vstd::utf8::*;

verus! {

/// A key gives back the text that it was made of, and so does a copy of it.
pub proof fn law_key_text(
    text: &str,
    owned: String,
    a: Key,
    b: Key,
    copy: Key,
    x: &str,
    y: &str,
    z: &str,
)
    requires
        call_ensures(<Key as From<&str>>::from, (text,), a),
        call_ensures(<Key as From<String>>::from, (owned,), b),
        call_ensures(<Key as Clone>::clone, (&a,), copy),
        call_ensures(Key::as_str, (&a,), x),
        call_ensures(Key::as_str, (&b,), y),
        call_ensures(Key::as_str, (&copy,), z),
    ensures
        x@ == text@,
        y@ == owned@,
        z@ == text@,
        a@ == text@,
{
}

/// A value holds what it was made of.
pub proof fn law_value_made(
    flag: bool,
    integer: i64,
    text: &str,
    owned: String,
    array: Array,
    a: Value,
    b: Value,
    c: Value,
    d: Value,
    e: Value,
)
    requires
        call_ensures(<Value as From<bool>>::from, (flag,), a),
        call_ensures(<Value as From<i64>>::from, (integer,), b),
        call_ensures(<Value as From<&str>>::from, (text,), c),
        call_ensures(<Value as From<String>>::from, (owned,), d),
        call_ensures(<Value as From<Array>>::from, (array,), e),
    ensures
        a == Value::Bool(flag),
        b == Value::I64(integer),
        c matches Value::String(s) && s@ == text@,
        d == Value::String(owned),
        e == Value::Array(array),
{
}

/// What a value is seen to hold is its kind and its content.
pub proof fn law_value_content(
    flag: bool,
    integer: i64,
    bits: u64,
    text: String,
    array: Array,
    flags: Vec<bool>,
    integers: Vec<i64>,
    words: Vec<u64>,
    texts: Vec<String>,
)
    ensures
        Value::Bool(flag)@ == ValueView::Bool(flag),
        Value::I64(integer)@ == ValueView::I64(integer),
        Value::F64(bits)@ == ValueView::F64(bits),
        Value::String(text)@ == ValueView::String(text@),
        Value::Array(array)@ == ValueView::Array(array@),
        Array::Bool(flags)@ == ArrayView::Bool(flags@),
        Array::I64(integers)@ == ArrayView::I64(integers@),
        Array::F64(words)@ == ArrayView::F64(words@),
        Array::String(texts)@ is String,
        (Array::String(texts)@)->String_0.len() == texts@.len(),
        forall|i: int|
            0 <= i < texts@.len() ==> #[trigger] (Array::String(texts)@)->String_0[i]
                == texts@[i]@,
{
}

/// An attribute holds its key and its value, and the attributes of a list are those of its
/// elements, in their order.
pub proof fn law_attribute_content(list: Seq<KeyValue>, i: int)
    requires
        0 <= i < list.len(),
    ensures
        attr_views(list).len() == list.len(),
        attr_views(list)[i].key == list[i].key@,
        attr_views(list)[i].value == list[i].value@,
{
}

/// An attribute made of a key and a value holds both.
pub proof fn law_attribute_made(
    key: &str,
    flag: bool,
    integer: i64,
    text: &str,
    a: KeyValue,
    b: KeyValue,
    c: KeyValue,
)
    requires
        call_ensures(KeyValue::new::<&str, bool>, (key, flag), a),
        call_ensures(KeyValue::new::<&str, i64>, (key, integer), b),
        call_ensures(KeyValue::new::<&str, &str>, (key, text), c),
    ensures
        a.key@ == key@,
        a.value == Value::Bool(flag),
        b.key@ == key@,
        b.value == Value::I64(integer),
        c.key@ == key@,
        c.value@ == ValueView::String(text@),
{
}

/// Values are equal exactly where they are of the same kind and hold the same.
pub proof fn law_values_equal(a: Value, b: Value, equal: bool)
    requires
        call_ensures(<Value as PartialEq>::eq, (&a, &b), equal),
    ensures
        equal <==> match (a, b) {
            (Value::Bool(x), Value::Bool(y)) => x == y,
            (Value::I64(x), Value::I64(y)) => x == y,
            (Value::F64(x), Value::F64(y)) => x == y,
            (Value::String(x), Value::String(y)) => x@ == y@,
            (Value::Array(Array::Bool(x)), Value::Array(Array::Bool(y))) => x@ == y@,
            (Value::Array(Array::I64(x)), Value::Array(Array::I64(y))) => x@ == y@,
            (Value::Array(Array::F64(x)), Value::Array(Array::F64(y))) => x@ == y@,
            (Value::Array(Array::String(x)), Value::Array(Array::String(y))) => {
                &&& x@.len() == y@.len()
                &&& forall|i: int| 0 <= i < x@.len() ==> (#[trigger] x@[i])@ == y@[i]@
            },
            _ => false,
        },
{
    if let (Value::Array(Array::String(x)), Value::Array(Array::String(y))) = (a, b) {
        let (s, t) = (string_views(x@), string_views(y@));
        assert(s.len() == x@.len() && t.len() == y@.len());
        if s == t {
            assert forall|i: int| 0 <= i < x@.len() implies (#[trigger] x@[i])@ == y@[i]@ by {
                assert(s[i] == t[i]);
            }
        } else if x@.len() == y@.len() && (forall|i: int|
            0 <= i < x@.len() ==> (#[trigger] x@[i])@ == y@[i]@) {
            assert(s =~= t);
        }
    }
}

/// Keys are equal exactly where their texts are, and attributes where their keys and values are.
pub proof fn law_attributes_equal(a: KeyValue, b: KeyValue, keys: bool, values: bool, both: bool)
    requires
        call_ensures(<Key as PartialEq>::eq, (&a.key, &b.key), keys),
        call_ensures(<Value as PartialEq>::eq, (&a.value, &b.value), values),
        call_ensures(<KeyValue as PartialEq>::eq, (&a, &b), both),
    ensures
        keys <==> a.key@ == b.key@,
        both <==> keys && values,
{
}

/// Attribute sets are equal exactly where their hashes are and their attributes are, one by one.
pub proof fn law_sets_equal(a: HashedAttributes, b: HashedAttributes, equal: bool)
    requires
        call_ensures(<HashedAttributes as PartialEq>::eq, (&a, &b), equal),
    ensures
        equal <==> {
            &&& a.hash == b.hash
            &&& a.attrs@.len() == b.attrs@.len()
            &&& forall|i: int|
                0 <= i < a.attrs@.len() ==> (#[trigger] a.attrs@[i]).key@ == b.attrs@[i].key@
                    && a.attrs@[i].value@ == b.attrs@[i].value@
        },
{
    let (s, t) = (attr_views(a.attrs@), attr_views(b.attrs@));
    assert(s.len() == a.attrs@.len() && t.len() == b.attrs@.len());
    if s == t {
        assert forall|i: int| 0 <= i < a.attrs@.len() implies (#[trigger] a.attrs@[i]).key@
            == b.attrs@[i].key@ && a.attrs@[i].value@ == b.attrs@[i].value@ by {
            assert(s[i] == t[i]);
        }
    } else if a.attrs@.len() == b.attrs@.len() && (forall|i: int|
        0 <= i < a.attrs@.len() ==> (#[trigger] a.attrs@[i]).key@ == b.attrs@[i].key@
            && a.attrs@[i].value@ == b.attrs@[i].value@) {
        assert(s =~= t);
    }
}

/// A copy holds what was copied.
pub proof fn law_copies(
    value: Value,
    attribute: KeyValue,
    set: HashedAttributes,
    list: Vec<KeyValue>,
    a: Value,
    b: KeyValue,
    c: HashedAttributes,
    d: Vec<KeyValue>,
    i: int,
)
    requires
        call_ensures(<Value as Clone>::clone, (&value,), a),
        call_ensures(<KeyValue as Clone>::clone, (&attribute,), b),
        call_ensures(<HashedAttributes as Clone>::clone, (&set,), c),
        call_ensures(clone_attrs, (&list,), d),
    ensures
        a@ == value@,
        b.key@ == attribute.key@,
        b.value@ == attribute.value@,
        c.hash == set.hash,
        c.attrs@.len() == set.attrs@.len(),
        0 <= i < set.attrs@.len() ==> c.attrs@[i].key@ == set.attrs@[i].key@ && c.attrs@[i].value@
            == set.attrs@[i].value@,
        d@.len() == list@.len(),
        0 <= i < list@.len() ==> d@[i].key@ == list@[i].key@ && d@[i].value@ == list@[i].value@,
{
    assert(attr_views(c.attrs@).len() == attr_views(set.attrs@).len());
    assert(attr_views(d@).len() == attr_views(list@).len());
    if 0 <= i < set.attrs@.len() {
        assert(attr_views(c.attrs@)[i] == attr_views(set.attrs@)[i]);
    }
    if 0 <= i < list@.len() {
        assert(attr_views(d@)[i] == attr_views(list@)[i]);
    }
}

/// Where two keys first differ in a byte, the one with the smaller byte comes before the other,
/// whatever came before that byte and whatever follows it.
pub proof fn law_key_order(
    a: Key,
    b: Key,
    prefix: Seq<u8>,
    x: u8,
    y: u8,
    rest_of_a: Seq<u8>,
    rest_of_b: Seq<u8>,
    order: KeyOrder,
    reverse: KeyOrder,
)
    requires
        encode_utf8(a@) == prefix.push(x) + rest_of_a,
        encode_utf8(b@) == prefix.push(y) + rest_of_b,
        x < y,
        call_ensures(compare_keys, (&a, &b), order),
        call_ensures(compare_keys, (&b, &a), reverse),
    ensures
        order is Before,
        reverse is After,
        key_before(a@, b@),
        !key_before(b@, a@),
{
    let (s, t) = (encode_utf8(a@), encode_utf8(b@));
    let n = prefix.len() as int;
    assert forall|i: int| 0 <= i < n implies s[i] == t[i] by {
        assert(s[i] == prefix[i] && t[i] == prefix[i]);
    }
    assert(s[n] == x && t[n] == y);
    assert(diverges_at(s, t, n));
    if bytes_before(t, s) {
        let m = choose|m: int| diverges_at(t, s, m);
        assert(m < n || m == n || n < m);
    }
}

/// A key that another one goes on from comes before it.
pub proof fn law_key_prefix(a: Key, b: Key, rest: Seq<u8>, order: KeyOrder, reverse: KeyOrder)
    requires
        encode_utf8(b@) == encode_utf8(a@) + rest,
        rest.len() > 0,
        call_ensures(compare_keys, (&a, &b), order),
        call_ensures(compare_keys, (&b, &a), reverse),
    ensures
        order is Before,
        reverse is After,
        key_before(a@, b@),
        !key_before(b@, a@),
{
    let (s, t) = (encode_utf8(a@), encode_utf8(b@));
    let n = s.len() as int;
    assert forall|i: int| 0 <= i < n implies s[i] == t[i] by {}
    assert(diverges_at(s, t, n));
    if bytes_before(t, s) {
        let m = choose|m: int| diverges_at(t, s, m);
        assert(t[m] == s[m]);
    }
}

/// Keys compare as the same exactly where their texts are.
pub proof fn law_key_same(a: Key, b: Key, order: KeyOrder)
    requires
        call_ensures(compare_keys, (&a, &b), order),
    ensures
        order is Same <==> a@ == b@,
{
}

/// `a` comes before `b` as texts are ordered: where they first differ, `a` has the smaller byte, and
/// `a` does not go on from `b`.
pub open spec fn ordered_texts(a: Seq<char>, b: Seq<char>) -> bool {
    &&& a != b
    &&& forall|prefix: Seq<u8>, x: u8, y: u8, s: Seq<u8>, t: Seq<u8>|
        encode_utf8(a) == #[trigger] (prefix.push(x) + s) && encode_utf8(b) == #[trigger] (
        prefix.push(y) + t) && x != y ==> x < y
    &&& forall|rest: Seq<u8>| encode_utf8(a) == #[trigger] (encode_utf8(b) + rest) ==> rest.len() == 0
}

/// The order of keys is the order of texts.
pub proof fn law_keys_ordered_as_texts(a: Seq<char>, b: Seq<char>)
    requires
        key_before(a, b),
    ensures
        ordered_texts(a, b),
{
    let (u, v) = (encode_utf8(a), encode_utf8(b));
    let n = choose|n: int| diverges_at(u, v, n);
    assert forall|prefix: Seq<u8>, x: u8, y: u8, s: Seq<u8>, t: Seq<u8>|
        u == #[trigger] (prefix.push(x) + s) && v == #[trigger] (prefix.push(y) + t) && x
            != y implies x < y by {
        let m = prefix.len() as int;
        assert(u[m] == x && v[m] == y);
        if n < m {
            assert(u[n] == prefix[n] && v[n] == prefix[n]);
        }
    }
    assert forall|rest: Seq<u8>| u == #[trigger] (v + rest) implies rest.len() == 0 by {
        assert(u[n] == v[n]);
    }
}

/// `attrs` are the attributes of `given` as a set holds them: sorted as texts by their keys, each key
/// of `given` once, with the value that it has where it first occurs in `given`, and nothing else.
pub open spec fn set_holds(given: Seq<KeyValue>, attrs: Seq<KeyValue>) -> bool {
    &&& forall|i: int, j: int|
        0 <= i < j < attrs.len() ==> ordered_texts(
            (#[trigger] attrs[i]).key@,
            (#[trigger] attrs[j]).key@,
        )
    &&& forall|i: int|
        0 <= i < attrs.len() ==> exists|j: int|
            {
                &&& 0 <= j < given.len()
                &&& (#[trigger] given[j]).key@ == (#[trigger] attrs[i]).key@
                &&& given[j].value@ == attrs[i].value@
                &&& forall|k: int| 0 <= k < j ==> (#[trigger] given[k]).key@ != given[j].key@
            }
    &&& forall|j: int|
        0 <= j < given.len() ==> exists|i: int|
            0 <= i < attrs.len() && (#[trigger] attrs[i]).key@ == (#[trigger] given[j]).key@
}

proof fn lemma_canonical_holds(given: Seq<KeyValue>, attrs: Seq<KeyValue>)
    requires
        is_canonical(attr_views(given), attr_views(attrs)),
    ensures
        set_holds(given, attrs),
{
    let (s, c) = (attr_views(given), attr_views(attrs));
    assert forall|i: int, j: int| 0 <= i < j < attrs.len() implies ordered_texts(
        (#[trigger] attrs[i]).key@,
        (#[trigger] attrs[j]).key@,
    ) by {
        assert(key_before(c[i].key, c[j].key));
        law_keys_ordered_as_texts(c[i].key, c[j].key);
    }
    assert forall|i: int| 0 <= i < attrs.len() implies exists|j: int|
        {
            &&& 0 <= j < given.len()
            &&& (#[trigger] given[j]).key@ == (#[trigger] attrs[i]).key@
            &&& given[j].value@ == attrs[i].value@
            &&& forall|k: int| 0 <= k < j ==> (#[trigger] given[k]).key@ != given[j].key@
        } by {
        assert forall|k: int| 0 <= k < i implies c[k].key != c[i].key by {
            assert(ordered_texts(attrs[k].key@, attrs[i].key@));
        }
        lemma_value_of_first(c, i);
        assert(value_of(s, c[i].key) == value_of(c, c[i].key));
        let j = lemma_value_of_some(s, c[i].key);
        assert(s[j] == given[j]@);
        assert(given[j].key@ == attrs[i].key@);
        assert forall|k: int| 0 <= k < j implies (#[trigger] given[k]).key@ != given[j].key@ by {
            assert(s[k].key != c[i].key);
        }
    }
    assert forall|j: int| 0 <= j < given.len() implies exists|i: int|
        0 <= i < attrs.len() && (#[trigger] attrs[i]).key@ == (#[trigger] given[j]).key@ by {
        let key = given[j].key@;
        assert(value_of(s, key) is Some) by {
            lemma_key_has_value(s, j);
        }
        assert(value_of(s, key) == value_of(c, key));
        let i = lemma_value_of_some(c, key);
        assert(attrs[i].key@ == key);
    }
}

proof fn lemma_key_has_value(s: Seq<KeyValueView>, j: int)
    requires
        0 <= j < s.len(),
    ensures
        value_of(s, s[j].key) is Some,
    decreases j,
{
    if exists|k: int| 0 <= k < j && (#[trigger] s[k]).key == s[j].key {
        let k = choose|k: int| 0 <= k < j && (#[trigger] s[k]).key == s[j].key;
        lemma_key_has_value(s, k);
    } else {
        lemma_value_of_first(s, j);
    }
}

/// Making a set of attributes as a caller gives them sorts them by key and keeps of each key the
/// first value. The hash is that of what is kept.
pub proof fn law_set_of_attributes(
    attributes: &[KeyValue],
    sorted: Vec<KeyValue>,
    set: HashedAttributes,
    again: HashedAttributes,
    hash: u64,
)
    requires
        call_ensures(sort_and_dedup, (attributes,), sorted),
        call_ensures(HashedAttributes::from_raw, (attributes,), set),
        call_ensures(HashedAttributes::from_sorted, (set.attrs,), again),
        call_ensures(HashedAttributes::compute_hash, (&set.attrs,), hash),
    ensures
        set_holds(attributes@, sorted@),
        set_holds(attributes@, set.attrs@),
        set.hash == hash,
        again.attrs == set.attrs,
        again.hash == set.hash,
        set@ == set_of(attr_views(attributes@)),
        set@.hash == set.hash,
        set@.attrs == attr_views(set.attrs@),
{
    lemma_canonical_holds(attributes@, sorted@);
    lemma_canonical_holds(attributes@, set.attrs@);
}

/// Making a set of attributes that are sorted already takes them as they are, and hashes them.
pub proof fn law_set_of_sorted(attrs: Vec<KeyValue>, set: HashedAttributes, hash: u64)
    requires
        call_ensures(HashedAttributes::from_sorted, (attrs,), set),
        call_ensures(HashedAttributes::compute_hash, (&attrs,), hash),
    ensures
        set.attrs == attrs,
        set.hash == hash,
{
}

/// The attributes under which measurements beyond the limit are counted are one flag, which is set.
pub proof fn law_overflow_attributes(attrs: Vec<KeyValue>)
    requires
        call_ensures(stream_overflow_attributes, (), attrs),
    ensures
        attrs@.len() == 1,
        attrs@[0].key@ == "otel.metric.overflow"@,
        attrs@[0].value == Value::Bool(true),
{
    assert(attr_views(attrs@).len() == 1);
    assert(attr_views(attrs@)[0] == attrs@[0]@);
}

/// A hasher for hashes gives back what was written to it last, and a set writes its hash.
pub proof fn law_hash_passes_through(
    set: HashedAttributes,
    build: PassthroughBuildHasher,
    made: PassthroughHasher,
    fresh: u64,
    written: &mut PassthroughHasher,
    hashed: &mut PassthroughHasher,
    word: u64,
    a: u64,
    b: u64,
)
    requires
        call_ensures(PassthroughBuildHasher::build_hasher, (&build,), made),
        call_ensures(PassthroughHasher::finish, (&made,), fresh),
        call_ensures(PassthroughHasher::write_u64, (written, word), ()),
        call_ensures(PassthroughHasher::finish, (&*final(written),), a),
        call_ensures(HashedAttributes::hash, (&set, hashed), ()),
        call_ensures(PassthroughHasher::finish, (&*final(hashed),), b),
    ensures
        fresh == 0,
        a == word,
        b == set.hash,
{
}

/// No two of these attributes have the same key.
pub open spec fn keys_once(s: Seq<KeyValue>) -> bool {
    forall|i: int, j: int|
        0 <= i < j < s.len() ==> (#[trigger] s[i]).key@ != (#[trigger] s[j]).key@
}

/// Each attribute of `a` is one of `b`.
pub open spec fn attributes_among(a: Seq<KeyValue>, b: Seq<KeyValue>) -> bool {
    forall|i: int|
        0 <= i < a.len() ==> exists|j: int|
            0 <= j < b.len() && (#[trigger] b[j])@ == (#[trigger] a[i])@
}

proof fn lemma_found_elsewhere(a: Seq<KeyValue>, b: Seq<KeyValue>, key: Seq<char>)
    requires
        keys_once(b),
        attributes_among(a, b),
        value_of(attr_views(a), key) is Some,
    ensures
        value_of(attr_views(b), key) == value_of(attr_views(a), key),
{
    let (s, t) = (attr_views(a), attr_views(b));
    let i = lemma_value_of_some(s, key);
    assert(s[i] == a[i]@);
    let j = choose|j: int| 0 <= j < b.len() && (#[trigger] b[j])@ == a[i]@;
    assert(t[j] == s[i]);
    assert forall|k: int| 0 <= k < j implies t[k].key != t[j].key by {
        assert(b[k].key@ != b[j].key@);
    }
    lemma_value_of_first(t, j);
}

/// Attributes with distinct keys make the same set in whatever order they are given, with the same hash.
pub proof fn law_order_does_not_matter(
    a: &[KeyValue],
    b: &[KeyValue],
    s: HashedAttributes,
    t: HashedAttributes,
    equal: bool,
)
    requires
        keys_once(a@),
        keys_once(b@),
        attributes_among(a@, b@),
        attributes_among(b@, a@),
        call_ensures(HashedAttributes::from_raw, (a,), s),
        call_ensures(HashedAttributes::from_raw, (b,), t),
        call_ensures(<HashedAttributes as PartialEq>::eq, (&s, &t), equal),
    ensures
        s@ == t@,
        s.hash == t.hash,
        equal,
{
    let (x, y) = (attr_views(a@), attr_views(b@));
    assert forall|key: Seq<char>| #[trigger] value_of(x, key) == value_of(y, key) by {
        if value_of(x, key) is Some {
            lemma_found_elsewhere(a@, b@, key);
        } else if value_of(y, key) is Some {
            lemma_found_elsewhere(b@, a@, key);
        }
    }
    assert(same_values(x, y));
    law_set_of_same_values(x, y);
}

/// Attributes make different sets where a key that one list gives a value is missing in the other, or
/// has another value where it first occurs there.
pub proof fn law_different_values_differ(
    a: &[KeyValue],
    b: &[KeyValue],
    i: int,
    s: HashedAttributes,
    t: HashedAttributes,
    equal: bool,
)
    requires
        0 <= i < a@.len(),
        forall|k: int| 0 <= k < i ==> (#[trigger] a@[k]).key@ != a@[i].key@,
        forall|j: int|
            0 <= j < b@.len() && (#[trigger] b@[j]).key@ == a@[i].key@ && (forall|k: int|
                0 <= k < j ==> (#[trigger] b@[k]).key@ != a@[i].key@) ==> b@[j].value@
                != a@[i].value@,
        call_ensures(HashedAttributes::from_raw, (a,), s),
        call_ensures(HashedAttributes::from_raw, (b,), t),
        call_ensures(<HashedAttributes as PartialEq>::eq, (&s, &t), equal),
    ensures
        s@ != t@,
        !equal,
{
    let (x, y) = (attr_views(a@), attr_views(b@));
    let key = a@[i].key@;
    assert forall|k: int| 0 <= k < i implies x[k].key != x[i].key by {
        assert(a@[k].key@ != key);
    }
    lemma_value_of_first(x, i);
    law_set_of_same_values(x, y);
    if s@ == t@ {
        assert(value_of(x, key) == value_of(y, key));
        let j = lemma_value_of_some(y, key);
        assert(b@[j].key@ == key);
        assert forall|k: int| 0 <= k < j implies (#[trigger] b@[k]).key@ != key by {
            assert(y[k].key != key);
        }
    }
}

/// A list is hashed over the bytes that it is written as, with the seed zero.
pub proof fn law_hash_of_bytes(attrs: Vec<KeyValue>, bytes: Vec<u8>, hash: u64)
    requires
        call_ensures(encode_attrs, (&attrs,), bytes),
        call_ensures(HashedAttributes::compute_hash, (&attrs,), hash),
    ensures
        hash == foldhash_fixed(0, bytes@),
{
}

} // verus!
