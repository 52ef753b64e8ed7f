use otel_metrics::aggregator::{Aggregator, Assign};
use otel_metrics::hashed_attributes::stream_overflow_attributes;
use otel_metrics::key_value::KeyValue;
use otel_metrics::number::AtomicTracker;
use otel_metrics::value_map::{capacity_per_shard, ValueMap, DEFAULT_CARDINALITY_LIMIT};

type Points = Vec<(Vec<KeyValue>, i64)>;

fn attrs(value: &str) -> Vec<KeyValue> {
    vec![KeyValue::new("k", value)]
}

fn sorted(mut points: Points) -> Points {
    points.sort_by_key(|point| format!("{:?}", point.0));
    points
}

fn read(vm: &ValueMap<Assign<i64>>) -> Points {
    let mut dest = Vec::new();
    vm.collect_readonly(&mut dest, |attrs, aggr| (attrs, aggr.value.get_value()));
    sorted(dest)
}

fn collect(vm: &mut ValueMap<Assign<i64>>) -> Points {
    let mut dest = Vec::new();
    vm.collect_and_reset(&mut dest, |attrs, aggr| (attrs, aggr.value.get_value()));
    sorted(dest)
}

fn drain(vm: &mut ValueMap<Assign<i64>>) -> Points {
    let mut dest = Vec::new();
    vm.drain_and_reset(&mut dest, |attrs, aggr| (attrs, aggr.value.get_value()));
    sorted(dest)
}

#[test]
fn value_map_bind_returns_tracker() {
    let mut vm = ValueMap::<Assign<i64>>::new((), 2000);
    let attrs = [KeyValue::new("k", "v")];
    let entry = vm.bind(&attrs);
    vm.aggregator_mut(&entry).unwrap().update(42);
    assert_eq!(vm.tracker(&entry).unwrap().aggregator.value.get_value(), 42);
}

#[test]
fn value_map_bind_same_attrs_returns_same_entry() {
    let mut vm = ValueMap::<Assign<i64>>::new((), 2000);
    let attrs = [KeyValue::new("k", "v")];
    let e1 = vm.bind(&attrs);
    let e2 = vm.bind(&attrs);
    vm.aggregator_mut(&e1).unwrap().update(10);
    assert_eq!(vm.tracker(&e2).unwrap().aggregator.value.get_value(), 10); // Same underlying tracker
}

#[test]
fn value_map_bind_unsorted_attrs_canonicalized() {
    let mut vm = ValueMap::<Assign<i64>>::new((), 2000);
    let e1 = vm.bind(&[KeyValue::new("z", "1"), KeyValue::new("a", "2")]);
    let e2 = vm.bind(&[KeyValue::new("a", "2"), KeyValue::new("z", "1")]);
    vm.aggregator_mut(&e1).unwrap().update(99);
    assert_eq!(vm.tracker(&e2).unwrap().aggregator.value.get_value(), 99);
}

#[test]
fn poisoning_sets_evicted_on_stale_entries() {
    let mut vm = ValueMap::<Assign<i64>>::new((), 2000);
    let attrs = [KeyValue::new("k", "v")];
    let entry = vm.bind(&attrs);
    assert!(!vm.tracker(&entry).unwrap().evicted);

    // First collect_and_reset: entry was updated at bind time (has_been_updated=true),
    // so first collect sees it as updated and collects it.
    let mut dest = Vec::new();
    vm.collect_and_reset(&mut dest, |attrs, aggr| (attrs, aggr.value.get_value()));

    // Second collect_and_reset: entry is stale (no writes since last collect)
    let mut dest2 = Vec::new();
    vm.collect_and_reset(&mut dest2, |attrs, aggr| (attrs, aggr.value.get_value()));
    // Now entry should be evicted and poisoned
    assert!(vm.tracker(&entry).unwrap().evicted);
}

#[test]
fn large_cardinality_limit() {
    // This is a regression test for panics that used to occur for large cardinality limits

    // Should not panic
    let _value_map = ValueMap::<Assign<i64>>::new((), usize::MAX);
}

#[test]
fn shards_start_with_room_for_the_default_limit_at_most() {
    assert_eq!(capacity_per_shard(0), 1);
    assert_eq!(capacity_per_shard(14), 1);
    assert_eq!(capacity_per_shard(15), 2);
    assert_eq!(capacity_per_shard(2000), 126);
    assert_eq!(capacity_per_shard(usize::MAX), 126);
}

#[test]
fn a_new_map_has_nothing_to_collect() {
    let mut vm = ValueMap::<Assign<i64>>::new((), DEFAULT_CARDINALITY_LIMIT);
    assert_eq!(DEFAULT_CARDINALITY_LIMIT, 2000);
    assert_eq!(*vm.config(), ());
    assert_eq!(read(&vm), vec![]);
    assert_eq!(collect(&mut vm), vec![]);
    assert_eq!(drain(&mut vm), vec![]);
}

#[test]
fn measurements_are_read_under_their_attributes() {
    let mut vm = ValueMap::<Assign<i64>>::new((), 10);
    vm.measure(1, &attrs("a"));
    vm.measure(2, &attrs("b"));
    vm.measure(3, &attrs("a"));
    vm.measure(4, &[]);
    let expected = vec![(vec![], 4), (attrs("a"), 3), (attrs("b"), 2)];
    assert_eq!(read(&vm), sorted(expected.clone()));
    // Reading changes nothing.
    assert_eq!(read(&vm), sorted(expected));
}

#[test]
fn the_point_without_attributes_comes_first() {
    let mut vm = ValueMap::<Assign<i64>>::new((), 10);
    vm.measure(2, &attrs("b"));
    vm.measure(1, &[]);
    let mut dest = vec![77];
    vm.collect_readonly(&mut dest, |_, aggr| aggr.value.get_value());
    assert_eq!(dest, vec![1, 2]);
}

#[test]
fn collecting_keeps_what_was_updated_and_evicts_the_rest() {
    let mut vm = ValueMap::<Assign<i64>>::new((), 2);
    vm.measure(1, &attrs("a"));
    vm.measure(2, &attrs("b"));
    let handle = vm.bind(&attrs("a"));
    assert_eq!(collect(&mut vm), sorted(vec![(attrs("a"), 1), (attrs("b"), 2)]));
    // Both sets are still there, and not marked.
    assert!(!vm.tracker(&handle).unwrap().evicted);
    assert!(!vm.tracker(&handle).unwrap().has_been_updated);
    assert_eq!(read(&vm), sorted(vec![(attrs("a"), 1), (attrs("b"), 2)]));
    let again = vm.bind(&attrs("a"));
    vm.aggregator_mut(&again).unwrap().update(5);
    assert_eq!(vm.tracker(&handle).unwrap().aggregator.value.get_value(), 5);
    // Only what is measured again outlives the next collection.
    vm.measure(3, &attrs("b"));
    assert_eq!(collect(&mut vm), vec![(attrs("b"), 3)]);
    assert_eq!(read(&vm), vec![(attrs("b"), 3)]);
    assert!(vm.tracker(&handle).unwrap().evicted);
    // The room is there for new sets.
    vm.measure(4, &attrs("c"));
    assert_eq!(read(&vm), sorted(vec![(attrs("b"), 3), (attrs("c"), 4)]));
}

#[test]
fn without_measurements_two_collections_empty_the_map() {
    let mut vm = ValueMap::<Assign<i64>>::new((), 2);
    vm.measure(1, &attrs("a"));
    assert_eq!(collect(&mut vm), vec![(attrs("a"), 1)]);
    assert_eq!(collect(&mut vm), vec![]);
    assert_eq!(read(&vm), vec![]);
}

#[test]
fn the_tracker_without_attributes_is_collected_once_for_each_update() {
    let mut vm = ValueMap::<Assign<i64>>::new((), 2);
    vm.measure(5, &[]);
    assert_eq!(collect(&mut vm), vec![(vec![], 5)]);
    assert_eq!(collect(&mut vm), vec![]);
    assert_eq!(read(&vm), vec![(vec![], 5)]);
    vm.measure(6, &[]);
    assert_eq!(collect(&mut vm), vec![(vec![], 6)]);
}

#[test]
fn making_a_point_may_reset_the_aggregator() {
    let mut vm = ValueMap::<Assign<i64>>::new((), 2);
    vm.measure(5, &[]);
    let mut dest = Vec::new();
    vm.collect_and_reset(&mut dest, |_, aggr| aggr.value.get_and_reset_value());
    assert_eq!(dest, vec![5]);
    assert_eq!(read(&vm), vec![(vec![], 0)]);
}

#[test]
fn collecting_without_eviction_keeps_stale_sets() {
    let mut vm = ValueMap::<Assign<i64>>::new((), 10);
    vm.measure(1, &attrs("a"));
    vm.measure(2, &attrs("b"));
    let mut dest = Vec::new();
    vm.collect_updated(&mut dest, |attrs, aggr| (attrs, aggr.value.get_value()));
    assert_eq!(sorted(dest), sorted(vec![(attrs("a"), 1), (attrs("b"), 2)]));
    vm.measure(3, &attrs("b"));
    let mut dest = Vec::new();
    vm.collect_updated(&mut dest, |attrs, aggr| (attrs, aggr.value.get_value()));
    assert_eq!(dest, vec![(attrs("b"), 3)]);
    assert_eq!(read(&vm), sorted(vec![(attrs("a"), 1), (attrs("b"), 3)]));
    vm.measure(4, &attrs("a"));
    vm.evict_stale();
    assert_eq!(read(&vm), vec![(attrs("a"), 4)]);
}

#[test]
fn draining_resets_the_map() {
    let mut vm = ValueMap::<Assign<i64>>::new((), 10);
    vm.measure(1, &attrs("a"));
    vm.measure(2, &[]);
    let handle = vm.bind(&attrs("a"));
    assert_eq!(drain(&mut vm), sorted(vec![(vec![], 2), (attrs("a"), 1)]));
    assert!(vm.tracker(&handle).unwrap().evicted);
    assert_eq!(vm.tracker(&handle).unwrap().aggregator.value.get_value(), 0);
    assert_eq!(drain(&mut vm), vec![]);
    assert_eq!(read(&vm), vec![]);
    vm.release(handle);
}

#[test]
fn measurements_beyond_the_limit_go_to_the_overflow_set() {
    let mut vm = ValueMap::<Assign<i64>>::new((), 2);
    vm.measure(1, &attrs("a"));
    vm.measure(2, &attrs("b"));
    vm.measure(3, &attrs("c"));
    vm.measure(4, &attrs("d"));
    // A set that is there already is not turned away.
    vm.measure(5, &attrs("a"));
    let expected = vec![(attrs("a"), 5), (attrs("b"), 2), (stream_overflow_attributes(), 4)];
    assert_eq!(read(&vm), sorted(expected.clone()));
    assert_eq!(collect(&mut vm), sorted(expected));
    // The next collection evicts them all, the overflow set too.
    assert_eq!(collect(&mut vm), vec![]);
    assert_eq!(read(&vm), vec![]);
}

#[test]
fn without_room_everything_overflows() {
    let mut vm = ValueMap::<Assign<i64>>::new((), 0);
    vm.measure(1, &attrs("a"));
    vm.measure(2, &[]);
    assert_eq!(read(&vm), sorted(vec![(vec![], 2), (stream_overflow_attributes(), 1)]));
}

#[test]
fn the_overflow_set_is_not_counted_where_it_is_named() {
    let mut vm = ValueMap::<Assign<i64>>::new((), 1);
    vm.measure(1, &stream_overflow_attributes());
    assert_eq!(collect(&mut vm), vec![(stream_overflow_attributes(), 1)]);
    assert_eq!(collect(&mut vm), vec![]);
    vm.measure(2, &attrs("k"));
    assert_eq!(collect(&mut vm), vec![(attrs("k"), 2)]);
    // Both fit while the limit is one.
    vm.measure(3, &stream_overflow_attributes());
    let handle = vm.bind(&stream_overflow_attributes());
    vm.measure(4, &attrs("k"));
    let expected = vec![(attrs("k"), 4), (stream_overflow_attributes(), 3)];
    assert_eq!(read(&vm), sorted(expected));
    vm.release(handle);
}

#[test]
fn a_bound_measurement_is_counted_under_its_set() {
    let mut vm = ValueMap::<Assign<i64>>::new((), 10);
    let handle = vm.bind(&attrs("a"));
    assert_eq!(read(&vm), vec![(attrs("a"), 0)]);
    vm.measure_bound(&handle, 7, &attrs("a"));
    assert_eq!(collect(&mut vm), vec![(attrs("a"), 7)]);
}

#[test]
fn a_stale_handle_falls_back_to_its_attributes() {
    let mut vm = ValueMap::<Assign<i64>>::new((), 10);
    let handle = vm.bind(&attrs("a"));
    vm.measure_bound(&handle, 7, &attrs("a"));
    collect(&mut vm);
    collect(&mut vm);
    assert!(vm.tracker(&handle).unwrap().evicted);
    vm.measure_bound(&handle, 8, &attrs("a"));
    assert_eq!(read(&vm), vec![(attrs("a"), 8)]);
    // The old tracker is untouched, and the handle stays stale.
    assert_eq!(vm.tracker(&handle).unwrap().aggregator.value.get_value(), 7);
    vm.measure_bound(&handle, 9, &attrs("a"));
    assert_eq!(collect(&mut vm), vec![(attrs("a"), 9)]);
    assert!(vm.tracker(&handle).unwrap().evicted);
    // Binding again gives a handle that is not stale.
    let fresh = vm.bind(&attrs("a"));
    assert!(!vm.tracker(&fresh).unwrap().evicted);
    vm.release(handle);
    vm.release(fresh);
    assert_eq!(read(&vm), vec![(attrs("a"), 9)]);
}

#[test]
fn a_measurement_after_an_eviction_is_reported_once() {
    let mut vm = ValueMap::<Assign<i64>>::new((), 10);
    let list = [KeyValue::new("z", "1"), KeyValue::new("a", "2"), KeyValue::new("z", "3")];
    let handle = vm.bind(&list);
    collect(&mut vm);
    collect(&mut vm);
    vm.measure(5, &list);
    let expected = vec![(vec![KeyValue::new("a", "2"), KeyValue::new("z", "1")], 5)];
    assert_eq!(collect(&mut vm), expected);
    assert!(vm.tracker(&handle).unwrap().evicted);
    assert_eq!(vm.tracker(&handle).unwrap().aggregator.value.get_value(), 0);
}

#[test]
fn no_more_points_than_the_limit_and_two() {
    let mut vm = ValueMap::<Assign<i64>>::new((), 3);
    vm.measure(0, &[]);
    for round in 0..3 {
        for i in 0..20i64 {
            vm.measure(i, &attrs(&(i + round * 7).to_string()));
            let points = read(&vm);
            assert!(points.len() <= 5);
            for k in 1..points.len() {
                assert_ne!(points[k - 1].0, points[k].0);
            }
        }
        collect(&mut vm);
    }
}

#[test]
fn many_sets_are_kept_apart() {
    let mut vm = ValueMap::<Assign<i64>>::new((), 500);
    for i in 0..500i64 {
        vm.measure(i, &attrs(&i.to_string()));
    }
    let points = read(&vm);
    assert_eq!(points.len(), 500);
    for (list, value) in points {
        assert_eq!(list, attrs(&value.to_string()));
    }
    vm.measure(-1, &attrs("one more"));
    assert_eq!(read(&vm).len(), 501);
}

#[test]
fn binding_leaves_the_values_as_they_are() {
    let mut vm = ValueMap::<Assign<i64>>::new((), 10);
    vm.measure(1, &attrs("a"));
    vm.measure(2, &[]);
    let known = vm.bind(&attrs("a"));
    let new = vm.bind(&attrs("b"));
    assert_eq!(read(&vm), sorted(vec![(vec![], 2), (attrs("a"), 1), (attrs("b"), 0)]));
    vm.release(known);
    vm.release(new);
    assert_eq!(read(&vm), sorted(vec![(vec![], 2), (attrs("a"), 1), (attrs("b"), 0)]));
}

struct Total(i64);

impl Aggregator for Total {
    type InitConfig = i64;
    type PreComputedValue = i64;
    type State = i64;

    fn view(&self) -> i64 {
        self.0
    }

    fn initial(init: i64) -> i64 {
        init
    }

    fn updated(state: i64, value: i64) -> i64 {
        state + value
    }

    fn create(init: &i64) -> Self {
        Total(*init)
    }

    fn update(&mut self, value: i64) {
        self.0 += value;
    }

    fn clone_and_reset(&mut self, init: &i64) -> Self {
        let taken = Total(self.0);
        self.0 = *init;
        taken
    }
}

#[test]
fn measurements_add_up() {
    let mut vm = ValueMap::<Total>::new(100, 10);
    assert_eq!(*vm.config(), 100);
    let handle = vm.bind(&attrs("a"));
    for value in [1, 2, 3] {
        vm.measure(value, &attrs("a"));
        vm.measure(-value, &[]);
    }
    vm.measure_bound(&handle, 4, &attrs("a"));
    let mut dest = Vec::new();
    vm.collect_readonly(&mut dest, |_, total| total.0);
    assert_eq!(dest, vec![94, 110]);
    // Draining takes the totals and starts anew from the configuration.
    vm.drain_and_reset(&mut dest, |_, total| total.0);
    assert_eq!(dest, vec![94, 110]);
    assert_eq!(vm.tracker(&handle).unwrap().aggregator.0, 100);
    vm.measure(5, &[]);
    vm.measure_bound(&handle, 6, &attrs("a"));
    vm.collect_readonly(&mut dest, |_, total| total.0);
    assert_eq!(dest, vec![105, 106]);
}
