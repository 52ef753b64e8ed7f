use foldhash::fast::FixedState;
use otel_metrics::canonical::{compare_keys, sort_and_dedup, KeyOrder};
use otel_metrics::encoding::encode_attrs;
use otel_metrics::hashed_attributes::{
    stream_overflow_attributes, HashedAttributes, PassthroughBuildHasher, PassthroughHasher,
};
use otel_metrics::key_value::{Array, Key, KeyValue, Value};
use std::hash::{BuildHasher, Hasher};

#[test]
fn hashed_attributes_equal_regardless_of_input_order() {
    let a = HashedAttributes::from_raw(&[KeyValue::new("z", "1"), KeyValue::new("a", "2")]);
    let b = HashedAttributes::from_raw(&[KeyValue::new("a", "2"), KeyValue::new("z", "1")]);
    assert_eq!(a, b);
    assert_eq!(a.hash, b.hash);
}

#[test]
fn hashed_attributes_dedup_keys() {
    let a = HashedAttributes::from_raw(&[
        KeyValue::new("k", "first"),
        KeyValue::new("k", "second"),
    ]);
    assert_eq!(a.attrs.len(), 1);
}

#[test]
fn hashed_attributes_different_values_differ() {
    let a = HashedAttributes::from_raw(&[KeyValue::new("k", "v1")]);
    let b = HashedAttributes::from_raw(&[KeyValue::new("k", "v2")]);
    assert_ne!(a, b);
}

#[test]
fn passthrough_hasher_returns_precomputed_hash() {
    let ha = HashedAttributes::from_raw(&[KeyValue::new("test", "val")]);
    let mut hasher = PassthroughHasher(0);
    ha.hash(&mut hasher);
    assert_eq!(hasher.finish(), ha.hash);
}

#[test]
fn passthrough_hasher_gives_back_what_was_written_last() {
    let mut hasher = PassthroughBuildHasher.build_hasher();
    assert_eq!(hasher.finish(), 0);
    hasher.write_u64(7);
    hasher.write_u64(9);
    assert_eq!(hasher.finish(), 9);
}

#[test]
fn keys_come_out_sorted_by_their_bytes() {
    let sorted = sort_and_dedup(&[
        KeyValue::new("b", 1i64),
        KeyValue::new("ab", 2i64),
        KeyValue::new("é", 3i64),
        KeyValue::new("a", 4i64),
        KeyValue::new("B", 5i64),
        KeyValue::new("", 6i64),
    ]);
    let keys: Vec<&str> = sorted.iter().map(|kv| kv.key.as_str()).collect();
    assert_eq!(keys, vec!["", "B", "a", "ab", "b", "é"]);
    assert_eq!(sorted[2].value, Value::I64(4));
}

#[test]
fn the_first_of_repeated_keys_stays() {
    let set = HashedAttributes::from_raw(&[
        KeyValue::new("k", "first"),
        KeyValue::new("a", true),
        KeyValue::new("k", "second"),
    ]);
    assert_eq!(set.attrs, vec![KeyValue::new("a", true), KeyValue::new("k", "first")]);
}

#[test]
fn no_attributes_have_an_empty_canonical_form() {
    assert_eq!(sort_and_dedup(&[]).len(), 0);
}

#[test]
fn sorting_a_set_again_changes_nothing() {
    let once = HashedAttributes::from_raw(&[
        KeyValue::new("z", 1i64),
        KeyValue::new("m", "x"),
        KeyValue::new("a", false),
        KeyValue::new("m", "y"),
    ]);
    let again = HashedAttributes::from_raw(&once.attrs);
    assert_eq!(once, again);
    assert_eq!(HashedAttributes::from_sorted(again.attrs), once);
}

#[test]
fn keys_are_compared_byte_by_byte() {
    let (a, b) = (Key::from("a"), Key::from("b"));
    assert!(matches!(compare_keys(&a, &b), KeyOrder::Before));
    assert!(matches!(compare_keys(&b, &a), KeyOrder::After));
    assert!(matches!(compare_keys(&a, &Key::from("a")), KeyOrder::Same));
    assert!(matches!(compare_keys(&a, &Key::from("ab")), KeyOrder::Before));
    assert!(matches!(compare_keys(&Key::from("z"), &Key::from("é")), KeyOrder::Before));
}

#[test]
fn the_bytes_of_an_attribute_list() {
    let attrs = vec![KeyValue::new("k", true), KeyValue::new("n", -2i64), KeyValue::new("s", "xy")];
    let mut expected = vec![3u8, 0, 0, 0, 0, 0, 0, 0];
    expected.extend([b'k', 0xff, 0, 1]);
    expected.extend([b'n', 0xff, 1, 0xfe, 0xff, 0xff, 0xff, 0xff, 0xff, 0xff, 0xff]);
    expected.extend([b's', 0xff, 3, b'x', b'y', 0xff]);
    assert_eq!(encode_attrs(&attrs), expected);
}

#[test]
fn the_bytes_of_floats_and_arrays() {
    let attrs = vec![KeyValue { key: Key::from("f"), value: Value::F64(1.0f64.to_bits()) }];
    let mut expected = vec![1u8, 0, 0, 0, 0, 0, 0, 0, b'f', 0xff, 2];
    expected.extend(1.0f64.to_bits().to_le_bytes());
    assert_eq!(encode_attrs(&attrs), expected);

    let attrs = vec![
        KeyValue::new("a", Array::Bool(vec![true, false])),
        KeyValue::new("b", Array::I64(vec![5])),
        KeyValue::new("c", Array::F64(vec![])),
        KeyValue::new("d", Array::String(vec![String::from("x"), String::new()])),
    ];
    let mut expected = vec![4u8, 0, 0, 0, 0, 0, 0, 0];
    expected.extend([b'a', 0xff, 4, 2, 0, 0, 0, 0, 0, 0, 0, 1, 0]);
    expected.extend([b'b', 0xff, 5, 1, 0, 0, 0, 0, 0, 0, 0, 5, 0, 0, 0, 0, 0, 0, 0]);
    expected.extend([b'c', 0xff, 6, 0, 0, 0, 0, 0, 0, 0, 0]);
    expected.extend([b'd', 0xff, 7, 2, 0, 0, 0, 0, 0, 0, 0, b'x', 0xff, 0xff]);
    assert_eq!(encode_attrs(&attrs), expected);
}

#[test]
fn the_hash_is_that_of_the_bytes() {
    let attrs = vec![KeyValue::new("k", "v")];
    let mut hasher = FixedState::with_seed(0).build_hasher();
    hasher.write(&encode_attrs(&attrs));
    let expected = hasher.finish();
    assert_eq!(HashedAttributes::compute_hash(&attrs), expected);
    assert_eq!(HashedAttributes::from_raw(&attrs).hash, expected);

    let other = vec![KeyValue::new("k", "w")];
    assert_ne!(HashedAttributes::compute_hash(&other), expected);
}

#[test]
fn the_overflow_set_is_marked_by_one_attribute() {
    let attrs = stream_overflow_attributes();
    assert_eq!(attrs.len(), 1);
    assert_eq!(attrs[0].key.as_str(), "otel.metric.overflow");
    assert_eq!(attrs[0].value, Value::Bool(true));
    assert_eq!(
        HashedAttributes::from_sorted(stream_overflow_attributes()),
        HashedAttributes::from_raw(&attrs)
    );
}

#[test]
fn sets_are_equal_only_with_the_same_hash() {
    let set = HashedAttributes::from_raw(&[KeyValue::new("k", "v")]);
    let copy = set.clone();
    assert_eq!(set, copy);
    let forged = HashedAttributes { hash: set.hash.wrapping_add(1), ..copy };
    assert_ne!(set, forged);
}

#[test]
fn values_of_different_kinds_differ() {
    let zero = KeyValue::new("k", 0i64);
    assert_ne!(zero, KeyValue::new("k", false));
    assert_ne!(zero, KeyValue::new("k", "0"));
    assert_ne!(zero, KeyValue::new("j", 0i64));
    assert_eq!(zero.clone(), zero);
    assert_ne!(Value::from(Array::I64(vec![1])), Value::from(Array::I64(vec![2])));
    assert_eq!(
        Value::from(Array::String(vec![String::from("a")])),
        Value::from(Array::String(vec![String::from("a")]))
    );
    assert_ne!(Value::F64(0.0f64.to_bits()), Value::F64((-0.0f64).to_bits()));
}
