use otel_metrics::key_value::KeyValue;
use otel_metrics::number::{
    AggregatedMetrics, AggregatedMetricsAccess, AtomicTracker, AtomicallyUpdate, DataPoint,
    F64AtomicTracker, F64Bits, I64Tracker, MetricData, Number, U64Tracker,
};

fn new_u64_tracker(init: u64) -> U64Tracker {
    u64::new_atomic_tracker(init)
}

fn new_i64_tracker(init: i64) -> I64Tracker {
    i64::new_atomic_tracker(init)
}

fn new_f64_tracker(init: f64) -> F64AtomicTracker {
    F64AtomicTracker::new(init.to_bits())
}

fn add_f64(tracker: &mut F64AtomicTracker, value: f64) {
    tracker.add(|bits| (f64::from_bits(bits) + value).to_bits());
}

#[test]
fn can_store_u64_atomic_value() {
    let mut atomic = new_u64_tracker(0);

    let value = atomic.get_value();
    assert_eq!(value, 0);

    atomic.store(25);
    let value = atomic.get_value();
    assert_eq!(value, 25);
}

#[test]
fn can_add_and_get_u64_atomic_value() {
    let mut atomic = new_u64_tracker(0);
    atomic.add(15);
    atomic.add(10);

    let value = atomic.get_value();
    assert_eq!(value, 25);
}

#[test]
fn can_reset_u64_atomic_value() {
    let mut atomic = new_u64_tracker(0);
    atomic.add(15);

    let value = atomic.get_and_reset_value();
    let value2 = atomic.get_value();

    assert_eq!(value, 15, "Incorrect first value");
    assert_eq!(value2, 0, "Incorrect second value");
}

#[test]
fn can_store_i64_atomic_value() {
    let mut atomic = new_i64_tracker(0);

    let value = atomic.get_value();
    assert_eq!(value, 0);

    atomic.store(-25);
    let value = atomic.get_value();
    assert_eq!(value, -25);

    atomic.store(25);
    let value = atomic.get_value();
    assert_eq!(value, 25);
}

#[test]
fn can_add_and_get_i64_atomic_value() {
    let mut atomic = new_i64_tracker(0);
    atomic.add(15);
    atomic.add(-10);

    let value = atomic.get_value();
    assert_eq!(value, 5);
}

#[test]
fn can_reset_i64_atomic_value() {
    let mut atomic = new_i64_tracker(0);
    atomic.add(15);

    let value = atomic.get_and_reset_value();
    let value2 = atomic.get_value();

    assert_eq!(value, 15, "Incorrect first value");
    assert_eq!(value2, 0, "Incorrect second value");
}

#[test]
fn can_store_f64_atomic_value() {
    let mut atomic = new_f64_tracker(0.0);

    let value = f64::from_bits(atomic.get_value());
    assert_eq!(value, 0.0);

    atomic.store((-15.5f64).to_bits());
    let value = f64::from_bits(atomic.get_value());
    assert!(f64::abs(-15.5 - value) < 0.0001);

    atomic.store(25.7f64.to_bits());
    let value = f64::from_bits(atomic.get_value());
    assert!(f64::abs(25.7 - value) < 0.0001);
}

#[test]
fn can_add_and_get_f64_atomic_value() {
    let mut atomic = new_f64_tracker(0.0);
    add_f64(&mut atomic, 15.3);
    add_f64(&mut atomic, 10.4);

    let value = f64::from_bits(atomic.get_value());

    assert!(f64::abs(25.7 - value) < 0.0001);
}

#[test]
fn can_reset_f64_atomic_value() {
    let mut atomic = new_f64_tracker(0.0);
    add_f64(&mut atomic, 15.5);

    let value = f64::from_bits(atomic.get_and_reset_value());
    let value2 = f64::from_bits(atomic.get_value());

    assert!(f64::abs(15.5 - value) < 0.0001, "Incorrect first value");
    assert!(f64::abs(0.0 - value2) < 0.0001, "Incorrect second value");
}

#[test]
fn additions_wrap_around() {
    let mut unsigned = new_u64_tracker(u64::MAX);
    unsigned.add(2);
    assert_eq!(unsigned.get_value(), 1);

    let mut signed = new_i64_tracker(i64::MAX);
    signed.add(1);
    assert_eq!(signed.get_value(), i64::MIN);
    signed.add(-1);
    assert_eq!(signed.get_value(), i64::MAX);
}

#[test]
fn zero_is_what_a_reset_leaves() {
    assert_eq!(<u64 as AtomicallyUpdate>::zero(), 0);
    assert_eq!(<i64 as AtomicallyUpdate>::zero(), 0);
}

#[test]
fn least_and_greatest_numbers() {
    assert_eq!(<i64 as Number>::min(), i64::MIN);
    assert_eq!(<i64 as Number>::max(), i64::MAX);
    assert_eq!(<u64 as Number>::min(), 0);
    assert_eq!(<u64 as Number>::max(), u64::MAX);
    assert_eq!(<F64Bits as Number>::min().0, f64::MIN.to_bits());
    assert_eq!(<F64Bits as Number>::max().0, f64::MAX.to_bits());
}

fn one_point<T>(value: T) -> MetricData<T> {
    MetricData { data_points: vec![DataPoint { attributes: vec![KeyValue::new("k", "v")], value }] }
}

#[test]
fn metrics_are_found_by_their_kind_of_number() {
    let mut metrics = i64::make_aggregated_metrics(one_point(-3i64));
    assert!(matches!(metrics, AggregatedMetrics::I64(_)));
    assert_eq!(i64::extract_metrics_data_ref(&metrics).unwrap().data_points[0].value, -3);
    assert!(u64::extract_metrics_data_ref(&metrics).is_none());
    assert!(F64Bits::extract_metrics_data_ref(&metrics).is_none());
    assert!(u64::extract_metrics_data_mut(&mut metrics).is_none());
    assert!(F64Bits::extract_metrics_data_mut(&mut metrics).is_none());
    i64::extract_metrics_data_mut(&mut metrics).unwrap().data_points[0].value = 8;
    assert_eq!(i64::extract_metrics_data_ref(&metrics).unwrap().data_points[0].value, 8);

    let mut metrics = u64::make_aggregated_metrics(one_point(3u64));
    assert!(matches!(metrics, AggregatedMetrics::U64(_)));
    assert!(i64::extract_metrics_data_ref(&metrics).is_none());
    assert!(i64::extract_metrics_data_mut(&mut metrics).is_none());
    u64::extract_metrics_data_mut(&mut metrics).unwrap().data_points.clear();
    assert_eq!(u64::extract_metrics_data_ref(&metrics).unwrap().data_points.len(), 0);

    let mut metrics = F64Bits::make_aggregated_metrics(one_point(F64Bits(1.5f64.to_bits())));
    assert!(matches!(metrics, AggregatedMetrics::F64(_)));
    assert!(i64::extract_metrics_data_ref(&metrics).is_none());
    F64Bits::extract_metrics_data_mut(&mut metrics).unwrap().data_points[0].value =
        F64Bits(2.5f64.to_bits());
    let found = F64Bits::extract_metrics_data_ref(&metrics).unwrap();
    assert_eq!(f64::from_bits(found.data_points[0].value.0), 2.5);
    assert_eq!(found.data_points[0].attributes, vec![KeyValue::new("k", "v")]);
}
