//! The numbers that instruments measure, the trackers that hold one, and the metrics that carry them.

use crate::key_value::KeyValue;
use vstd::prelude::*;

verus! {

/// Holds one number. Each operation is a single step on it.
pub trait AtomicTracker<T>: Sized {
    /// The number held.
    spec fn view(&self) -> T;

    /// The number held after `b` is added to `a`.
    spec fn sum(a: T, b: T) -> T;

    /// The number held after a reset.
    spec fn zero() -> T;

    /// Replaces the number.
    fn store(&mut self, value: T)
        ensures
            final(self).view() == value,
    ;

    /// Adds to the number.
    fn add(&mut self, value: T)
        ensures
            final(self).view() == Self::sum(old(self).view(), value),
    ;

    /// Gives the number.
    fn get_value(&self) -> (value: T)
        ensures
            value == self.view(),
    ;

    /// Gives the number and resets it.
    fn get_and_reset_value(&mut self) -> (value: T)
        ensures
            value == old(self).view(),
            final(self).view() == Self::zero(),
    ;
}

/// A number that a tracker can hold.
pub trait AtomicallyUpdate: Sized {
    /// The tracker.
    type AtomicTracker: AtomicTracker<Self>;

    /// Makes a tracker that holds `init`.
    fn new_atomic_tracker(init: Self) -> (tracker: Self::AtomicTracker)
        ensures
            tracker.view() == init,
    ;

    /// The number that a tracker holds after a reset.
    fn zero() -> (zero: Self)
        ensures
            zero == <Self::AtomicTracker as AtomicTracker<Self>>::zero(),
    ;
}

/// A tracker of an unsigned number. Additions wrap around.
#[derive(Debug)]
pub struct U64Tracker {
    value: u64,
}

/// A tracker of a signed number. Additions wrap around.
#[derive(Debug)]
pub struct I64Tracker {
    value: i64,
}

/// A tracker of a floating-point number, which it holds by its bits.
#[derive(Debug)]
pub struct F64AtomicTracker {
    inner: u64,
}

impl AtomicTracker<u64> for U64Tracker {
    closed spec fn view(&self) -> u64 {
        self.value
    }

    open spec fn sum(a: u64, b: u64) -> u64 {
        a.wrapping_add(b)
    }

    open spec fn zero() -> u64 {
        0
    }

    fn store(&mut self, value: u64) {
        self.value = value;
    }

    fn add(&mut self, value: u64) {
        self.value = self.value.wrapping_add(value);
    }

    fn get_value(&self) -> (value: u64) {
        self.value
    }

    fn get_and_reset_value(&mut self) -> (value: u64) {
        let value: u64 = self.value;
        self.value = 0;
        value
    }
}

impl AtomicallyUpdate for u64 {
    type AtomicTracker = U64Tracker;

    fn new_atomic_tracker(init: u64) -> (tracker: U64Tracker) {
        U64Tracker { value: init }
    }

    fn zero() -> (zero: u64) {
        0
    }
}

impl AtomicTracker<i64> for I64Tracker {
    closed spec fn view(&self) -> i64 {
        self.value
    }

    open spec fn sum(a: i64, b: i64) -> i64 {
        a.wrapping_add(b)
    }

    open spec fn zero() -> i64 {
        0
    }

    fn store(&mut self, value: i64) {
        self.value = value;
    }

    fn add(&mut self, value: i64) {
        self.value = self.value.wrapping_add(value);
    }

    fn get_value(&self) -> (value: i64) {
        self.value
    }

    fn get_and_reset_value(&mut self) -> (value: i64) {
        let value: i64 = self.value;
        self.value = 0;
        value
    }
}

impl AtomicallyUpdate for i64 {
    type AtomicTracker = I64Tracker;

    fn new_atomic_tracker(init: i64) -> (tracker: I64Tracker) {
        I64Tracker { value: init }
    }

    fn zero() -> (zero: i64) {
        0
    }
}

impl F64AtomicTracker {
    /// The bits of the number held.
    pub closed spec fn view(&self) -> u64 {
        self.inner
    }

    /// Makes a tracker that holds the number with the bits `init`.
    pub fn new(init: u64) -> (tracker: Self)
        ensures
            tracker@ == init,
    {
        F64AtomicTracker { inner: init }
    }

    /// Replaces the number.
    pub fn store(&mut self, value: u64)
        ensures
            final(self)@ == value,
    {
        self.inner = value;
    }

    /// Replaces the number with what `sum` makes of it. The addition of floating-point numbers,
    /// from bits to bits, is the caller's.
    pub fn add<F: Fn(u64) -> u64>(&mut self, sum: F)
        requires
            sum.requires((old(self)@,)),
        ensures
            sum.ensures((old(self)@,), final(self)@),
    {
        self.inner = sum(self.inner);
    }

    /// Gives the bits of the number.
    pub fn get_value(&self) -> (value: u64)
        ensures
            value == self@,
    {
        self.inner
    }

    /// Gives the bits of the number and resets it to positive zero, whose bits are all clear.
    pub fn get_and_reset_value(&mut self) -> (value: u64)
        ensures
            value == old(self)@,
            final(self)@ == 0,
    {
        let value: u64 = self.inner;
        self.inner = 0;
        value
    }
}

/// A floating-point number, by its bits.
#[derive(Clone, Copy, Debug, PartialEq, Eq, Structural)]
pub struct F64Bits(pub u64);

/// The bits of the least finite floating-point number.
pub const F64_MIN_BITS: u64 = 0xffef_ffff_ffff_ffff;

/// The bits of the greatest finite floating-point number.
pub const F64_MAX_BITS: u64 = 0x7fef_ffff_ffff_ffff;

/// One collected value and the attributes it was measured with.
pub struct DataPoint<T> {
    pub attributes: Vec<KeyValue>,
    pub value: T,
}

/// What was collected of one metric.
pub struct MetricData<T> {
    pub data_points: Vec<DataPoint<T>>,
}

/// What was collected of one metric, of any kind of number.
pub enum AggregatedMetrics {
    F64(MetricData<F64Bits>),
    U64(MetricData<u64>),
    I64(MetricData<i64>),
}

/// A kind of number that metrics can carry.
pub trait AggregatedMetricsAccess: Sized {
    /// `data` as a metric of any kind.
    spec fn wrapped(data: MetricData<Self>) -> AggregatedMetrics;

    /// What `data` carries, where it carries this kind of number.
    spec fn unwrapped(data: AggregatedMetrics) -> Option<MetricData<Self>>;

    /// Gives what `data` carries, where it carries this kind of number.
    fn extract_metrics_data_ref(data: &AggregatedMetrics) -> (found: Option<&MetricData<Self>>)
        ensures
            match found {
                Some(inner) => Self::unwrapped(*data) == Some(*inner),
                None => Self::unwrapped(*data) is None,
            },
    ;

    /// Gives what `data` carries, to be changed in place, where it carries this kind of number.
    fn extract_metrics_data_mut(data: &mut AggregatedMetrics) -> (found: Option<
        &mut MetricData<Self>,
    >)
        ensures
            match found {
                Some(inner) => Self::unwrapped(*old(data)) == Some(*inner) && *final(data)
                    == Self::wrapped(*final(inner)),
                None => Self::unwrapped(*old(data)) is None && *final(data) == *old(data),
            },
    ;

    /// Makes a metric of any kind out of `data`.
    fn make_aggregated_metrics(data: MetricData<Self>) -> (made: AggregatedMetrics)
        ensures
            made == Self::wrapped(data),
    ;
}

/// A kind of number that instruments measure.
pub trait Number: Copy + Send + Sync + AggregatedMetricsAccess {
    /// The least number of this kind.
    spec fn least() -> Self;

    /// The greatest number of this kind.
    spec fn greatest() -> Self;

    /// Gives the least number of this kind.
    fn min() -> (least: Self)
        ensures
            least == Self::least(),
    ;

    /// Gives the greatest number of this kind.
    fn max() -> (greatest: Self)
        ensures
            greatest == Self::greatest(),
    ;
}

impl Number for i64 {
    open spec fn least() -> i64 {
        i64::MIN
    }

    open spec fn greatest() -> i64 {
        i64::MAX
    }

    fn min() -> (least: i64) {
        i64::MIN
    }

    fn max() -> (greatest: i64) {
        i64::MAX
    }
}

impl AggregatedMetricsAccess for i64 {
    open spec fn wrapped(data: MetricData<i64>) -> AggregatedMetrics {
        AggregatedMetrics::I64(data)
    }

    open spec fn unwrapped(data: AggregatedMetrics) -> Option<MetricData<i64>> {
        match data {
            AggregatedMetrics::I64(data) => Some(data),
            _ => None,
        }
    }

    fn extract_metrics_data_ref(data: &AggregatedMetrics) -> (found: Option<&MetricData<i64>>) {
        if let AggregatedMetrics::I64(data) = data {
            Some(data)
        } else {
            None
        }
    }

    fn extract_metrics_data_mut(data: &mut AggregatedMetrics) -> (found: Option<
        &mut MetricData<i64>,
    >) {
        if let AggregatedMetrics::I64(data) = data {
            Some(data)
        } else {
            None
        }
    }

    fn make_aggregated_metrics(data: MetricData<i64>) -> (made: AggregatedMetrics) {
        AggregatedMetrics::I64(data)
    }
}

impl Number for u64 {
    open spec fn least() -> u64 {
        u64::MIN
    }

    open spec fn greatest() -> u64 {
        u64::MAX
    }

    fn min() -> (least: u64) {
        u64::MIN
    }

    fn max() -> (greatest: u64) {
        u64::MAX
    }
}

impl AggregatedMetricsAccess for u64 {
    open spec fn wrapped(data: MetricData<u64>) -> AggregatedMetrics {
        AggregatedMetrics::U64(data)
    }

    open spec fn unwrapped(data: AggregatedMetrics) -> Option<MetricData<u64>> {
        match data {
            AggregatedMetrics::U64(data) => Some(data),
            _ => None,
        }
    }

    fn extract_metrics_data_ref(data: &AggregatedMetrics) -> (found: Option<&MetricData<u64>>) {
        if let AggregatedMetrics::U64(data) = data {
            Some(data)
        } else {
            None
        }
    }

    fn extract_metrics_data_mut(data: &mut AggregatedMetrics) -> (found: Option<
        &mut MetricData<u64>,
    >) {
        if let AggregatedMetrics::U64(data) = data {
            Some(data)
        } else {
            None
        }
    }

    fn make_aggregated_metrics(data: MetricData<u64>) -> (made: AggregatedMetrics) {
        AggregatedMetrics::U64(data)
    }
}

impl Number for F64Bits {
    open spec fn least() -> F64Bits {
        F64Bits(F64_MIN_BITS)
    }

    open spec fn greatest() -> F64Bits {
        F64Bits(F64_MAX_BITS)
    }

    fn min() -> (least: F64Bits) {
        F64Bits(F64_MIN_BITS)
    }

    fn max() -> (greatest: F64Bits) {
        F64Bits(F64_MAX_BITS)
    }
}

impl AggregatedMetricsAccess for F64Bits {
    open spec fn wrapped(data: MetricData<F64Bits>) -> AggregatedMetrics {
        AggregatedMetrics::F64(data)
    }

    open spec fn unwrapped(data: AggregatedMetrics) -> Option<MetricData<F64Bits>> {
        match data {
            AggregatedMetrics::F64(data) => Some(data),
            _ => None,
        }
    }

    fn extract_metrics_data_ref(data: &AggregatedMetrics) -> (found: Option<&MetricData<F64Bits>>) {
        if let AggregatedMetrics::F64(data) = data {
            Some(data)
        } else {
            None
        }
    }

    fn extract_metrics_data_mut(data: &mut AggregatedMetrics) -> (found: Option<
        &mut MetricData<F64Bits>,
    >) {
        if let AggregatedMetrics::F64(data) = data {
            Some(data)
        } else {
            None
        }
    }

    fn make_aggregated_metrics(data: MetricData<F64Bits>) -> (made: AggregatedMetrics) {
        AggregatedMetrics::F64(data)
    }
}

} // verus!
