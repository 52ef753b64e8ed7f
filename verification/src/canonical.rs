//! The canonical form of an attribute list: sorted by key, each key once.

use crate::key_value::{attr_views, Key, KeyValue, KeyValueView, ValueView};
use vstd::prelude::*;
use vstd::utf8::*;

verus! {

/// `a` and `b` agree on their first `n` bytes, and there `a` ends or has the smaller byte.
pub open spec fn diverges_at(a: Seq<u8>, b: Seq<u8>, n: int) -> bool {
    &&& 0 <= n <= a.len()
    &&& n < b.len()
    &&& forall|i: int| 0 <= i < n ==> a[i] == b[i]
    &&& n == a.len() || a[n] < b[n]
}

/// `a` comes before `b` in the dictionary order of bytes.
pub open spec fn bytes_before(a: Seq<u8>, b: Seq<u8>) -> bool {
    exists|n: int| #[trigger] diverges_at(a, b, n)
}

/// `a` comes before `b` in the order of keys, which is that of their UTF-8 bytes.
pub open spec fn key_before(a: Seq<char>, b: Seq<char>) -> bool {
    bytes_before(encode_utf8(a), encode_utf8(b))
}

/// The keys of `s` ascend, so none of them occurs twice.
pub open spec fn ascending(s: Seq<KeyValueView>) -> bool {
    forall|i: int, j: int|
        0 <= i < j < s.len() ==> key_before(#[trigger] s[i].key, #[trigger] s[j].key)
}

/// The value that `s` gives to `key`: that of the first attribute with this key.
pub open spec fn value_of(s: Seq<KeyValueView>, key: Seq<char>) -> Option<ValueView>
    decreases s.len(),
{
    if s.len() == 0 {
        None
    } else if value_of(s.drop_last(), key) is Some {
        value_of(s.drop_last(), key)
    } else if s.last().key == key {
        Some(s.last().value)
    } else {
        None
    }
}

/// `a` and `b` give the same value to each key.
pub open spec fn same_values(a: Seq<KeyValueView>, b: Seq<KeyValueView>) -> bool {
    forall|key: Seq<char>| #[trigger] value_of(a, key) == value_of(b, key)
}

/// `c` is the canonical form of `s`: its keys ascend, and it gives each key the value that `s` gives it.
pub open spec fn is_canonical(s: Seq<KeyValueView>, c: Seq<KeyValueView>) -> bool {
    &&& ascending(c)
    &&& same_values(s, c)
}

/// The canonical form of `s`.
pub open spec fn canonical(s: Seq<KeyValueView>) -> Seq<KeyValueView> {
    choose|c: Seq<KeyValueView>| is_canonical(s, c)
}

/// How one key stands to another.
pub enum KeyOrder {
    Before,
    Same,
    After,
}

proof fn lemma_encode_injective(a: Seq<char>, b: Seq<char>)
    requires
        encode_utf8(a) == encode_utf8(b),
    ensures
        a == b,
{
    encode_utf8_decode_utf8(a);
    encode_utf8_decode_utf8(b);
}

/// No key comes before itself.
pub proof fn lemma_key_before_irreflexive(a: Seq<char>)
    ensures
        !key_before(a, a),
{
}

/// The order of keys is transitive.
pub proof fn lemma_key_before_transitive(a: Seq<char>, b: Seq<char>, c: Seq<char>)
    requires
        key_before(a, b),
        key_before(b, c),
    ensures
        key_before(a, c),
{
    let (x, y, z) = (encode_utf8(a), encode_utf8(b), encode_utf8(c));
    let m = choose|n: int| diverges_at(x, y, n);
    let n = choose|n: int| diverges_at(y, z, n);
    let k = if m < n { m } else { n };
    assert(diverges_at(x, z, k));
}

/// Of two keys neither of which comes before the other, both are the same.
pub proof fn lemma_key_before_total(a: Seq<char>, b: Seq<char>)
    ensures
        a == b || key_before(a, b) || key_before(b, a),
{
    let (x, y) = (encode_utf8(a), encode_utf8(b));
    let n = first_difference(x, y);
    lemma_first_difference(x, y);
    if n == x.len() && n == y.len() {
        assert(x =~= y);
        lemma_encode_injective(a, b);
    } else if n == x.len() || (n < y.len() && x[n] < y[n]) {
        assert(diverges_at(x, y, n));
    } else {
        assert(diverges_at(y, x, n));
    }
}

spec fn first_difference(a: Seq<u8>, b: Seq<u8>) -> int
    decreases a.len(),
{
    if a.len() == 0 || b.len() == 0 || a[0] != b[0] {
        0
    } else {
        1 + first_difference(a.drop_first(), b.drop_first())
    }
}

proof fn lemma_first_difference(a: Seq<u8>, b: Seq<u8>)
    ensures
        ({
            let n = first_difference(a, b);
            &&& 0 <= n <= a.len()
            &&& n <= b.len()
            &&& forall|i: int| 0 <= i < n ==> a[i] == b[i]
            &&& n < a.len() && n < b.len() ==> a[n] != b[n]
        }),
    decreases a.len(),
{
    if a.len() == 0 || b.len() == 0 || a[0] != b[0] {
    } else {
        let (c, d) = (a.drop_first(), b.drop_first());
        lemma_first_difference(c, d);
        let n = first_difference(a, b);
        assert forall|i: int| 0 <= i < n implies a[i] == b[i] by {
            if i > 0 {
                assert(a[i] == c[i - 1] && b[i] == d[i - 1]);
            }
        }
    }
}

/// Compares two keys.
pub fn compare_keys(a: &Key, b: &Key) -> (order: KeyOrder)
    ensures
        match order {
            KeyOrder::Before => key_before(a@, b@),
            KeyOrder::Same => a@ == b@,
            KeyOrder::After => key_before(b@, a@),
        },
{
    let x: &[u8] = a.as_str().as_bytes();
    let y: &[u8] = b.as_str().as_bytes();
    let mut n: usize = 0;
    while n < x.len() && n < y.len()
        invariant
            x@ == encode_utf8(a@),
            y@ == encode_utf8(b@),
            n <= x.len(),
            n <= y.len(),
            forall|i: int| 0 <= i < n ==> x[i] == y[i],
        decreases x.len() - n,
    {
        if x[n] < y[n] {
            assert(diverges_at(x@, y@, n as int));
            return KeyOrder::Before;
        }
        if x[n] > y[n] {
            assert(diverges_at(y@, x@, n as int));
            return KeyOrder::After;
        }
        n += 1;
    }
    if n < y.len() {
        assert(diverges_at(x@, y@, n as int));
        KeyOrder::Before
    } else if n < x.len() {
        assert(diverges_at(y@, x@, n as int));
        KeyOrder::After
    } else {
        assert(x@ =~= y@);
        proof {
            lemma_encode_injective(a@, b@);
        }
        KeyOrder::Same
    }
}

/// A key that `s` does not hold has no value in it.
proof fn lemma_value_of_absent(s: Seq<KeyValueView>, key: Seq<char>)
    requires
        forall|i: int| 0 <= i < s.len() ==> s[i].key != key,
    ensures
        value_of(s, key) is None,
    decreases s.len(),
{
    if s.len() > 0 {
        lemma_value_of_absent(s.drop_last(), key);
    }
}

/// The value of a key is that of the first attribute which has it.
pub proof fn lemma_value_of_first(s: Seq<KeyValueView>, i: int)
    requires
        0 <= i < s.len(),
        forall|j: int| 0 <= j < i ==> s[j].key != s[i].key,
    ensures
        value_of(s, s[i].key) == Some(s[i].value),
    decreases s.len(),
{
    let front = s.drop_last();
    if i == s.len() - 1 {
        lemma_value_of_absent(front, s[i].key);
    } else {
        assert(front[i] == s[i]);
        lemma_value_of_first(front, i);
    }
}

/// A key that has a value is held, with that value.
pub proof fn lemma_value_of_some(s: Seq<KeyValueView>, key: Seq<char>) -> (i: int)
    requires
        value_of(s, key) is Some,
    ensures
        0 <= i < s.len(),
        s[i] == (KeyValueView { key, value: value_of(s, key)->0 }),
        forall|j: int| 0 <= j < i ==> s[j].key != key,
    decreases s.len(),
{
    let front = s.drop_last();
    if value_of(front, key) is Some {
        let i = lemma_value_of_some(front, key);
        assert forall|j: int| 0 <= j < i implies s[j].key != key by {
            assert(front[j] == s[j]);
        }
        i
    } else {
        assert forall|j: int| 0 <= j < s.len() - 1 implies s[j].key != key by {
            if s[j].key == key {
                assert(front[j] == s[j]);
                lemma_present_has_value(front, key, j);
            }
        }
        s.len() - 1
    }
}

proof fn lemma_present_has_value(s: Seq<KeyValueView>, key: Seq<char>, i: int)
    requires
        0 <= i < s.len(),
        s[i].key == key,
    ensures
        value_of(s, key) is Some,
    decreases s.len(),
{
    if i < s.len() - 1 {
        assert(s.drop_last()[i] == s[i]);
        lemma_present_has_value(s.drop_last(), key, i);
    }
}

/// In a list whose keys ascend each attribute is the first with its key.
proof fn lemma_ascending_value(s: Seq<KeyValueView>, i: int)
    requires
        ascending(s),
        0 <= i < s.len(),
    ensures
        value_of(s, s[i].key) == Some(s[i].value),
{
    assert forall|j: int| 0 <= j < i implies s[j].key != s[i].key by {
        lemma_key_before_irreflexive(s[i].key);
        assert(key_before(s[j].key, s[i].key));
    }
    lemma_value_of_first(s, i);
}

/// Two lists whose keys ascend and that give each key the same value are the same list.
pub proof fn lemma_ascending_unique(a: Seq<KeyValueView>, b: Seq<KeyValueView>)
    requires
        ascending(a),
        ascending(b),
        same_values(a, b),
    ensures
        a == b,
    decreases a.len(),
{
    if a.len() == 0 {
        if b.len() > 0 {
            lemma_ascending_value(b, 0);
            assert(value_of(a, b[0].key) is None);
        }
        assert(a =~= b);
    } else if b.len() == 0 {
        lemma_ascending_value(a, 0);
        assert(value_of(a, a[0].key) == value_of(b, a[0].key));
    } else {
        let (ka, kb) = (a.last().key, b.last().key);
        lemma_ascending_value(a, a.len() - 1);
        lemma_ascending_value(b, b.len() - 1);
        assert(value_of(a, ka) == value_of(b, ka));
        assert(value_of(a, kb) == value_of(b, kb));
        let i = lemma_value_of_some(b, ka);
        let j = lemma_value_of_some(a, kb);
        if ka != kb {
            assert(key_before(b[i].key, b[b.len() - 1].key));
            assert(key_before(a[j].key, a[a.len() - 1].key));
            lemma_key_before_transitive(ka, kb, ka);
            lemma_key_before_irreflexive(ka);
        }
        let (fa, fb) = (a.drop_last(), b.drop_last());
        assert(ascending(fa)) by {
            assert forall|x: int, y: int| 0 <= x < y < fa.len() implies key_before(
                #[trigger] fa[x].key,
                #[trigger] fa[y].key,
            ) by {
                assert(key_before(a[x].key, a[y].key));
            }
        }
        assert(ascending(fb)) by {
            assert forall|x: int, y: int| 0 <= x < y < fb.len() implies key_before(
                #[trigger] fb[x].key,
                #[trigger] fb[y].key,
            ) by {
                assert(key_before(b[x].key, b[y].key));
            }
        }
        assert forall|key: Seq<char>| #[trigger] value_of(fa, key) == value_of(fb, key) by {
            assert(value_of(a, key) == value_of(b, key));
            if key == ka {
                assert forall|x: int| 0 <= x < fa.len() implies fa[x].key != key by {
                    assert(key_before(a[x].key, a[a.len() - 1].key));
                    lemma_key_before_irreflexive(ka);
                }
                assert forall|x: int| 0 <= x < fb.len() implies fb[x].key != key by {
                    assert(key_before(b[x].key, b[b.len() - 1].key));
                    lemma_key_before_irreflexive(ka);
                }
                lemma_value_of_absent(fa, key);
                lemma_value_of_absent(fb, key);
            }
        }
        lemma_ascending_unique(fa, fb);
        assert(a =~= fa.push(a.last()));
        assert(b =~= fb.push(b.last()));
    }
}

/// The canonical form of `s` is the one list that meets [`is_canonical`].
pub proof fn lemma_canonical_unique(s: Seq<KeyValueView>, c: Seq<KeyValueView>)
    requires
        is_canonical(s, c),
    ensures
        c == canonical(s),
{
    let d = canonical(s);
    assert(is_canonical(s, d));
    assert forall|key: Seq<char>| #[trigger] value_of(c, key) == value_of(d, key) by {
        assert(value_of(s, key) == value_of(c, key));
        assert(value_of(s, key) == value_of(d, key));
    }
    lemma_ascending_unique(c, d);
}

/// The place of `key` in a list whose keys ascend, and whether the list holds it.
fn locate(sorted: &Vec<KeyValue>, key: &Key) -> (place: (usize, bool))
    requires
        ascending(attr_views(sorted@)),
    ensures
        place.0 <= sorted.len(),
        forall|j: int| 0 <= j < place.0 ==> key_before((#[trigger] sorted[j]).key@, key@),
        place.1 ==> place.0 < sorted.len() && sorted[place.0 as int].key@ == key@,
        !place.1 ==> forall|j: int|
            place.0 <= j < sorted.len() ==> key_before(key@, (#[trigger] sorted[j]).key@),
{
    let ghost views = attr_views(sorted@);
    let mut low: usize = 0;
    let mut high: usize = sorted.len();
    while low < high
        invariant
            views == attr_views(sorted@),
            ascending(views),
            low <= high <= sorted.len(),
            forall|j: int| 0 <= j < low ==> key_before((#[trigger] sorted[j]).key@, key@),
            forall|j: int|
                high <= j < sorted.len() ==> key_before(key@, (#[trigger] sorted[j]).key@),
        decreases high - low,
    {
        let middle: usize = low + (high - low) / 2;
        match compare_keys(&sorted[middle].key, key) {
            KeyOrder::Before => {
                proof {
                    assert forall|j: int| 0 <= j < middle + 1 implies key_before(
                        (#[trigger] sorted[j]).key@,
                        key@,
                    ) by {
                        if j < middle {
                            assert(key_before(views[j].key, views[middle as int].key));
                            lemma_key_before_transitive(
                                sorted[j].key@,
                                sorted[middle as int].key@,
                                key@,
                            );
                        }
                    }
                }
                low = middle + 1;
            },
            KeyOrder::Same => {
                proof {
                    assert forall|j: int| 0 <= j < middle implies key_before(
                        (#[trigger] sorted[j]).key@,
                        key@,
                    ) by {
                        assert(key_before(views[j].key, views[middle as int].key));
                    }
                }
                return (middle, true);
            },
            KeyOrder::After => {
                proof {
                    assert forall|j: int| middle <= j < sorted.len() implies key_before(
                        key@,
                        (#[trigger] sorted[j]).key@,
                    ) by {
                        if j > middle {
                            assert(key_before(views[middle as int].key, views[j].key));
                            lemma_key_before_transitive(
                                key@,
                                sorted[middle as int].key@,
                                sorted[j].key@,
                            );
                        }
                    }
                }
                high = middle;
            },
        }
    }
    (low, false)
}

/// Putting an attribute with a new key in its place gives that key its value and changes no other.
proof fn lemma_insert_in_place(s: Seq<KeyValueView>, place: int, attr: KeyValueView)
    requires
        ascending(s),
        0 <= place <= s.len(),
        forall|j: int| 0 <= j < place ==> key_before((#[trigger] s[j]).key, attr.key),
        forall|j: int| place <= j < s.len() ==> key_before(attr.key, (#[trigger] s[j]).key),
    ensures
        ascending(s.insert(place, attr)),
        value_of(s, attr.key) is None,
        value_of(s.insert(place, attr), attr.key) == Some(attr.value),
        forall|key: Seq<char>|
            key != attr.key ==> #[trigger] value_of(s.insert(place, attr), key) == value_of(s, key),
{
    let t = s.insert(place, attr);
    lemma_key_before_irreflexive(attr.key);
    lemma_value_of_absent(s, attr.key);
    assert forall|i: int, j: int| 0 <= i < j < t.len() implies key_before(
        #[trigger] t[i].key,
        #[trigger] t[j].key,
    ) by {
        if i != place && j != place {
            let x = if i < place { i } else { i - 1 };
            let y = if j < place { j } else { j - 1 };
            assert(key_before(s[x].key, s[y].key));
        }
    }
    lemma_ascending_value(t, place);
    assert forall|key: Seq<char>| key != attr.key implies #[trigger] value_of(t, key) == value_of(
        s,
        key,
    ) by {
        if value_of(s, key) is Some {
            let i = lemma_value_of_some(s, key);
            let k = if i < place { i } else { i + 1 };
            assert(t[k] == s[i]);
            lemma_ascending_value(t, k);
        } else if value_of(t, key) is Some {
            let k = lemma_value_of_some(t, key);
            assert(k != place);
            let i = if k < place { k } else { k - 1 };
            assert(s[i] == t[k]);
            lemma_ascending_value(s, i);
        }
    }
}

/// Sorts attributes by key and keeps, of those with one key, the first. An attribute list is
/// short, so each attribute is put in its place by a binary search among those already there.
pub fn sort_and_dedup(attributes: &[KeyValue]) -> (sorted: Vec<KeyValue>)
    ensures
        is_canonical(attr_views(attributes@), attr_views(sorted@)),
        attr_views(sorted@) == canonical(attr_views(attributes@)),
{
    let ghost input = attr_views(attributes@);
    let mut sorted: Vec<KeyValue> = Vec::with_capacity(attributes.len());
    let mut i: usize = 0;
    assert(input.take(0) =~= attr_views(sorted@));
    while i < attributes.len()
        invariant
            input == attr_views(attributes@),
            i <= attributes.len(),
            is_canonical(input.take(i as int), attr_views(sorted@)),
        decreases attributes.len() - i,
    {
        let ghost before = attr_views(sorted@);
        let ghost prefix = input.take(i + 1);
        let attr: &KeyValue = &attributes[i];
        let place: (usize, bool) = locate(&sorted, &attr.key);
        proof {
            assert(prefix.drop_last() =~= input.take(i as int));
            assert(prefix.last() == attr@);
            assert(forall|j: int| 0 <= j < sorted.len() ==> before[j] == (#[trigger] sorted[j])@);
        }
        if place.1 {
            proof {
                lemma_ascending_value(before, place.0 as int);
                assert forall|key: Seq<char>| #[trigger] value_of(prefix, key) == value_of(
                    before,
                    key,
                ) by {
                    assert(value_of(input.take(i as int), key) == value_of(before, key));
                }
            }
        } else {
            sorted.insert(place.0, attr.clone());
            proof {
                lemma_insert_in_place(before, place.0 as int, attr@);
                assert(attr_views(sorted@) =~= before.insert(place.0 as int, attr@));
                assert forall|key: Seq<char>| #[trigger] value_of(prefix, key) == value_of(
                    attr_views(sorted@),
                    key,
                ) by {
                    assert(value_of(input.take(i as int), key) == value_of(before, key));
                }
            }
        }
        i += 1;
    }
    proof {
        assert(input.take(i as int) =~= input);
        lemma_canonical_unique(input, attr_views(sorted@));
    }
    sorted
}

/// No two attributes of `s` have the same key.
pub open spec fn distinct_keys(s: Seq<KeyValueView>) -> bool {
    forall|i: int, j: int| 0 <= i < j < s.len() ==> (#[trigger] s[i]).key != (#[trigger] s[j]).key
}

proof fn lemma_place_exists(s: Seq<KeyValueView>, key: Seq<char>) -> (place: int)
    requires
        ascending(s),
        value_of(s, key) is None,
    ensures
        0 <= place <= s.len(),
        forall|j: int| 0 <= j < place ==> key_before((#[trigger] s[j]).key, key),
        forall|j: int| place <= j < s.len() ==> key_before(key, (#[trigger] s[j]).key),
    decreases s.len(),
{
    if s.len() == 0 {
        0
    } else {
        let front = s.drop_last();
        assert(ascending(front)) by {
            assert forall|x: int, y: int| 0 <= x < y < front.len() implies key_before(
                #[trigger] front[x].key,
                #[trigger] front[y].key,
            ) by {
                assert(key_before(s[x].key, s[y].key));
            }
        }
        lemma_key_before_total(s.last().key, key);
        if key_before(s.last().key, key) {
            assert forall|j: int| 0 <= j < s.len() implies key_before(
                (#[trigger] s[j]).key,
                key,
            ) by {
                if j < s.len() - 1 {
                    assert(key_before(s[j].key, s[s.len() - 1].key));
                    lemma_key_before_transitive(s[j].key, s.last().key, key);
                }
            }
            s.len() as int
        } else {
            let place = lemma_place_exists(front, key);
            assert forall|j: int| 0 <= j < place implies key_before((#[trigger] s[j]).key, key) by {
                assert(front[j] == s[j]);
            }
            assert forall|j: int| place <= j < s.len() implies key_before(
                key,
                (#[trigger] s[j]).key,
            ) by {
                if j < s.len() - 1 {
                    assert(front[j] == s[j]);
                }
            }
            place
        }
    }
}

/// Every attribute list has a canonical form.
pub proof fn law_canonical_exists(s: Seq<KeyValueView>)
    ensures
        is_canonical(s, canonical(s)),
    decreases s.len(),
{
    if s.len() == 0 {
        assert(is_canonical(s, s));
    } else {
        let front = s.drop_last();
        law_canonical_exists(front);
        let c = canonical(front);
        let attr = s.last();
        assert(value_of(front, attr.key) == value_of(c, attr.key));
        if value_of(c, attr.key) is Some {
            assert forall|key: Seq<char>| #[trigger] value_of(s, key) == value_of(c, key) by {
                assert(value_of(front, key) == value_of(c, key));
            }
            assert(is_canonical(s, c));
        } else {
            let place = lemma_place_exists(c, attr.key);
            lemma_insert_in_place(c, place, attr);
            let d = c.insert(place, attr);
            assert forall|key: Seq<char>| #[trigger] value_of(s, key) == value_of(d, key) by {
                assert(value_of(front, key) == value_of(c, key));
            }
            assert(is_canonical(s, d));
        }
    }
}

/// Lists that give each key the same value have the same canonical form, and only those do.
pub proof fn law_canonical_same_values(a: Seq<KeyValueView>, b: Seq<KeyValueView>)
    ensures
        canonical(a) == canonical(b) <==> same_values(a, b),
{
    law_canonical_exists(a);
    law_canonical_exists(b);
    if same_values(a, b) {
        assert forall|key: Seq<char>| #[trigger] value_of(a, key) == value_of(
            canonical(b),
            key,
        ) by {
            assert(value_of(b, key) == value_of(canonical(b), key));
        }
        lemma_canonical_unique(a, canonical(b));
    }
    if canonical(a) == canonical(b) {
        assert forall|key: Seq<char>| #[trigger] value_of(a, key) == value_of(b, key) by {
            assert(value_of(a, key) == value_of(canonical(a), key));
            assert(value_of(b, key) == value_of(canonical(b), key));
        }
    }
}

/// The canonical form does not depend on the order in which the attributes are given, where
/// no key is given twice.
pub proof fn law_canonical_ignores_order(a: Seq<KeyValueView>, b: Seq<KeyValueView>)
    requires
        distinct_keys(a),
        a.to_multiset() == b.to_multiset(),
    ensures
        canonical(a) == canonical(b),
{
    broadcast use vstd::seq_lib::group_to_multiset_ensures;

    assert forall|key: Seq<char>| #[trigger] value_of(a, key) == value_of(b, key) by {
        if value_of(a, key) is Some {
            let i = lemma_value_of_some(a, key);
            assert(a.to_multiset().count(a[i]) > 0);
            assert(b.contains(a[i]));
            let j = b.index_of(a[i]);
            lemma_present_has_value(b, key, j);
        }
        if value_of(b, key) is Some {
            let k = lemma_value_of_some(b, key);
            assert(b.to_multiset().count(b[k]) > 0);
            assert(a.contains(b[k]));
            let m = a.index_of(b[k]);
            lemma_present_has_value(a, key, m);
            let i = lemma_value_of_some(a, key);
            assert(i == m);
        }
    }
    law_canonical_same_values(a, b);
}

/// The canonical form of a canonical form is itself, and holds no key twice.
pub proof fn law_canonical_idempotent(s: Seq<KeyValueView>)
    ensures
        canonical(canonical(s)) == canonical(s),
        distinct_keys(canonical(s)),
{
    law_canonical_exists(s);
    let c = canonical(s);
    assert(is_canonical(c, c));
    lemma_canonical_unique(c, c);
    assert forall|i: int, j: int| 0 <= i < j < c.len() implies (#[trigger] c[i]).key != (
    #[trigger] c[j]).key by {
        assert(key_before(c[i].key, c[j].key));
        lemma_key_before_irreflexive(c[i].key);
    }
}

/// A list that holds an attribute has a canonical form that holds one.
pub proof fn law_canonical_nonempty(s: Seq<KeyValueView>)
    requires
        s.len() > 0,
    ensures
        canonical(s).len() > 0,
{
    law_canonical_exists(s);
    lemma_value_of_first(s, 0);
    assert(value_of(s, s[0].key) == value_of(canonical(s), s[0].key));
}

} // verus!
