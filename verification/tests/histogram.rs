use otel_metrics::histogram::{BoundSyncInstrument, Histogram, SyncInstrument};
use otel_metrics::key_value::KeyValue;
use std::sync::{Arc, Mutex};

type Log = Arc<Mutex<Vec<(i64, Vec<KeyValue>)>>>;

struct Recorder(Log);

struct BoundRecorder {
    log: Log,
    attributes: Vec<KeyValue>,
}

impl SyncInstrument<i64> for Recorder {
    type Bound = BoundRecorder;

    fn measure(&self, measurement: i64, attributes: &[KeyValue]) {
        self.0.lock().unwrap().push((measurement, attributes.to_vec()));
    }

    fn bind(&self, attributes: &[KeyValue]) -> BoundRecorder {
        BoundRecorder { log: self.0.clone(), attributes: attributes.to_vec() }
    }
}

impl BoundSyncInstrument<i64> for BoundRecorder {
    fn measure(&self, measurement: i64) {
        self.log.lock().unwrap().push((measurement, self.attributes.clone()));
    }
}

#[test]
fn a_histogram_hands_values_to_its_instrument() {
    let log: Log = Arc::new(Mutex::new(Vec::new()));
    let histogram = Histogram::new(Arc::new(Recorder(log.clone())));
    histogram.record(3, &[KeyValue::new("k", "v")]);
    histogram.record(4, &[]);
    assert_eq!(*log.lock().unwrap(), vec![(3, vec![KeyValue::new("k", "v")]), (4, vec![])]);
}

#[test]
fn a_clone_hands_values_to_the_same_instrument() {
    let log: Log = Arc::new(Mutex::new(Vec::new()));
    let histogram = Histogram::new(Arc::new(Recorder(log.clone())));
    histogram.clone().record(3, &[]);
    histogram.record(4, &[]);
    assert_eq!(*log.lock().unwrap(), vec![(3, vec![]), (4, vec![])]);
}

#[test]
fn a_bound_histogram_keeps_its_attributes() {
    let log: Log = Arc::new(Mutex::new(Vec::new()));
    let histogram = Histogram::new(Arc::new(Recorder(log.clone())));
    let bound = histogram.bind(&[KeyValue::new("k", 1i64)]);
    bound.record(5);
    bound.record(6);
    let attributes = vec![KeyValue::new("k", 1i64)];
    assert_eq!(*log.lock().unwrap(), vec![(5, attributes.clone()), (6, attributes)]);
}
