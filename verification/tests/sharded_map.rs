use otel_metrics::aggregator::{Aggregator, Assign};
use otel_metrics::hashed_attributes::{stream_overflow_attributes, HashedAttributes};
use otel_metrics::key_value::{KeyValue, Value};
use otel_metrics::listing::NUM_SHARDS;
use otel_metrics::number::AtomicTracker;
use otel_metrics::sharded_map::ShardedMap;

fn overflow_set() -> HashedAttributes {
    HashedAttributes::from_sorted(stream_overflow_attributes())
}

fn set(value: &str) -> HashedAttributes {
    HashedAttributes::from_raw(&[KeyValue::new("k", value)])
}

fn values(map: &ShardedMap<Assign<i64>>) -> Vec<i64> {
    let mut values = map.for_each(|_, entry| entry.aggregator.value.get_value());
    values.sort();
    values
}

#[test]
fn sharded_map_measure_and_iterate() {
    let mut map = ShardedMap::<Assign<i64>>::new(16);
    let mut count = 0;
    let attrs = HashedAttributes::from_raw(&[KeyValue::new("k", "v")]);
    let overflow = HashedAttributes::from_sorted(stream_overflow_attributes().clone());

    // First measure creates entry
    map.measure(&attrs, 10, &(), &mut count, 2000, &overflow);
    assert_eq!(count, 1);

    // Second measure updates existing (Assign stores last value)
    map.measure(&attrs, 42, &(), &mut count, 2000, &overflow);
    assert_eq!(count, 1);

    // Verify last value via iteration
    let mut val = 0i64;
    map.for_each(|_, entry| {
        val = entry.aggregator.value.get_value();
    });
    assert_eq!(val, 42);
}

#[test]
fn sharded_map_cardinality_limit() {
    let mut map = ShardedMap::<Assign<i64>>::new(4);
    let mut count = 0;
    let overflow = HashedAttributes::from_sorted(stream_overflow_attributes().clone());

    // Insert up to limit
    for i in 0..3 {
        let attrs = HashedAttributes::from_raw(&[KeyValue::new("k", i.to_string())]);
        map.measure(&attrs, 1, &(), &mut count, 3, &overflow);
    }
    assert_eq!(count, 3);

    // Next insert should go to overflow bucket
    let attrs = HashedAttributes::from_raw(&[KeyValue::new("k", "new")]);
    map.measure(&attrs, 99, &(), &mut count, 3, &overflow);
    // Count should still be 3 (overflow doesn't increment count)
    assert_eq!(count, 3);

    // Verify overflow bucket got the value
    let mut overflow_val = 0i64;
    map.for_each(|attrs, entry| {
        if *attrs == overflow {
            overflow_val = entry.aggregator.value.get_value();
        }
    });
    assert_eq!(overflow_val, 99);
}

#[test]
fn sharded_map_retain_evicts_entries() {
    let mut map = ShardedMap::<Assign<i64>>::new(4);
    let mut count = 0;
    let overflow = HashedAttributes::from_sorted(stream_overflow_attributes().clone());

    let a1 = HashedAttributes::from_raw(&[KeyValue::new("k", "keep")]);
    let a2 = HashedAttributes::from_raw(&[KeyValue::new("k", "evict")]);
    map.measure(&a1, 1, &(), &mut count, 2000, &overflow);
    map.measure(&a2, 1, &(), &mut count, 2000, &overflow);

    // Mark a2 as not updated (simulating stale)
    let stale = map.bind(&a2, &(), &mut count, 2000, &overflow);
    assert_eq!(a2.attrs[0].key.as_str(), "k");
    assert_eq!(a2.attrs[0].value, Value::String(String::from("evict")));
    assert_eq!(map.swap_updated(&stale, false), Some(true));

    map.retain(|_, entry| entry.has_been_updated);

    let mut remaining = 0;
    map.for_each(|_, _| remaining += 1);
    assert_eq!(remaining, 1);
}

#[test]
fn retain_hands_over_the_dropped_sets_with_their_trackers() {
    let mut map = ShardedMap::<Assign<i64>>::new(1);
    let mut count = 0;
    let handle = map.bind(&set("gone"), &(), &mut count, 10, &overflow_set());
    map.measure(&set("kept"), 2, &(), &mut count, 10, &overflow_set());
    map.aggregator_mut(&handle).unwrap().update(8);
    let mut calls = 0;
    let mut removed = map.retain(|attrs, _| {
        calls += 1;
        *attrs == set("kept")
    });
    assert_eq!(calls, 2);
    assert_eq!(removed.len(), 1);
    let (attrs, dropped) = removed.pop().unwrap();
    assert_eq!(attrs, set("gone"));
    // The flags are as they were.
    assert!(!map.tracker(&handle).unwrap().evicted);
    assert!(map.tracker(&dropped).unwrap().has_been_updated);
    assert_eq!(map.tracker(&dropped).unwrap().aggregator.value.get_value(), 8);
    assert_eq!(values(&map), vec![2]);
    map.mark_evicted(&dropped);
    assert!(map.tracker(&handle).unwrap().evicted);
    map.release(dropped);
    // The set comes back with a tracker of its own.
    map.measure(&set("gone"), 3, &(), &mut count, 10, &overflow_set());
    assert_eq!(values(&map), vec![2, 3]);
    assert_eq!(map.tracker(&handle).unwrap().aggregator.value.get_value(), 8);
}

#[test]
fn the_tracker_of_a_set_cannot_be_marked() {
    let mut map = ShardedMap::<Assign<i64>>::new(1);
    let mut count = 0;
    let handle = map.bind(&set("a"), &(), &mut count, 10, &overflow_set());
    map.mark_evicted(&handle);
    assert!(!map.tracker(&handle).unwrap().evicted);
}

#[test]
fn kept_sets_keep_their_order() {
    let mut map = ShardedMap::<Assign<i64>>::new(4);
    let mut count = 0;
    for i in 0..40 {
        map.measure(&set(&i.to_string()), i, &(), &mut count, 100, &overflow_set());
    }
    let before = map.for_each(|_, entry| entry.aggregator.value.get_value());
    let removed = map.retain(|_, entry| entry.aggregator.value.get_value() % 3 == 0);
    let after = map.for_each(|_, entry| entry.aggregator.value.get_value());
    let expected: Vec<i64> = before.into_iter().filter(|value| value % 3 == 0).collect();
    assert_eq!(after, expected);
    assert_eq!(removed.len(), 26);
}

#[test]
fn the_low_bits_of_the_hash_select_the_shard() {
    assert_eq!(NUM_SHARDS, 16);
    assert_eq!(ShardedMap::<Assign<i64>>::shard_index(0), 0);
    assert_eq!(ShardedMap::<Assign<i64>>::shard_index(15), 15);
    assert_eq!(ShardedMap::<Assign<i64>>::shard_index(16), 0);
    assert_eq!(ShardedMap::<Assign<i64>>::shard_index(u64::MAX), 15);
    assert_eq!(ShardedMap::<Assign<i64>>::shard_index(0x123), 3);
}

#[test]
fn sets_with_the_same_hash_stay_apart() {
    let mut map = ShardedMap::<Assign<i64>>::new(4);
    let mut count = 0;
    let with_hash =
        |value: &str, hash: u64| HashedAttributes { attrs: vec![KeyValue::new("k", value)], hash };
    map.measure(&with_hash("a", 5), 1, &(), &mut count, 10, &overflow_set());
    map.measure(&with_hash("b", 5), 2, &(), &mut count, 10, &overflow_set());
    map.measure(&with_hash("b", 21), 3, &(), &mut count, 10, &overflow_set());
    map.measure(&with_hash("a", 5), 4, &(), &mut count, 10, &overflow_set());
    assert_eq!(count, 3);
    assert_eq!(values(&map), vec![2, 3, 4]);
    let removed = map.retain(|attrs, _| *attrs != with_hash("b", 5));
    assert_eq!(removed.len(), 1);
    assert_eq!(removed[0].0, with_hash("b", 5));
    map.measure(&with_hash("a", 5), 6, &(), &mut count, 10, &overflow_set());
    assert_eq!(values(&map), vec![3, 6]);
}

#[test]
fn a_tracker_stays_while_a_handle_holds_it() {
    let mut map = ShardedMap::<Assign<i64>>::new(4);
    let mut count = 0;
    let first = map.bind(&set("a"), &(), &mut count, 10, &overflow_set());
    let second = map.bind(&set("a"), &(), &mut count, 10, &overflow_set());
    map.aggregator_mut(&first).unwrap().update(8);
    for (_, dropped) in map.retain(|_, _| false) {
        map.release(dropped);
    }
    map.release(first);
    assert_eq!(map.tracker(&second).unwrap().aggregator.value.get_value(), 8);
    map.release(second);
    assert_eq!(values(&map), Vec::<i64>::new());
}

#[test]
fn releasing_a_handle_leaves_the_set_in_the_map() {
    let mut map = ShardedMap::<Assign<i64>>::new(4);
    let mut count = 0;
    let handle = map.bind(&set("a"), &(), &mut count, 10, &overflow_set());
    map.aggregator_mut(&handle).unwrap().update(5);
    map.release(handle);
    assert_eq!(values(&map), vec![5]);
}

#[test]
fn drained_sets_come_with_their_trackers() {
    let mut map = ShardedMap::<Assign<i64>>::new(4);
    let mut count = 0;
    for i in 0..40 {
        map.measure(&set(&i.to_string()), i, &(), &mut count, 100, &overflow_set());
    }
    assert_eq!(count, 40);
    let entries = map.drain_all();
    assert_eq!(entries.len(), 40);
    for (attrs, handle) in entries {
        let tracker = map.tracker(&handle).unwrap();
        assert!(!tracker.evicted);
        assert!(tracker.has_been_updated);
        let value = tracker.aggregator.value.get_value();
        assert_eq!(attrs, set(&value.to_string()));
        map.release(handle);
    }
    assert_eq!(values(&map), Vec::<i64>::new());
    assert_eq!(map.drain_all().len(), 0);
}

#[test]
fn a_handle_to_an_unused_place_finds_nothing() {
    let mut map = ShardedMap::<Assign<i64>>::new(4);
    let mut other = ShardedMap::<Assign<i64>>::new(4);
    let mut count = 0;
    let handle = other.bind(&set("a"), &(), &mut count, 10, &overflow_set());
    assert!(map.tracker(&handle).is_none());
    assert!(map.aggregator_mut(&handle).is_none());
    assert_eq!(map.swap_updated(&handle, true), None);
    map.mark_evicted(&handle);
    map.release(handle);
    assert_eq!(values(&map), Vec::<i64>::new());
}

#[test]
fn binding_beyond_the_limit_leads_to_the_overflow_set() {
    let mut map = ShardedMap::<Assign<i64>>::new(4);
    let mut count = 0;
    let own = map.bind(&set("a"), &(), &mut count, 1, &overflow_set());
    let over = map.bind(&set("b"), &(), &mut count, 1, &overflow_set());
    let also_over = map.bind(&set("c"), &(), &mut count, 1, &overflow_set());
    assert_eq!(count, 1);
    map.aggregator_mut(&over).unwrap().update(3);
    assert_eq!(map.tracker(&also_over).unwrap().aggregator.value.get_value(), 3);
    assert_eq!(map.tracker(&own).unwrap().aggregator.value.get_value(), 0);
    let sets = map.for_each(|attrs, _| attrs.clone());
    assert_eq!(sets.len(), 2);
    assert!(sets.contains(&overflow_set()));
}
