//! The histogram instrument and its bound form.

use crate::key_value::KeyValue;
use core::marker::PhantomData;
use std::sync::Arc;
use vstd::prelude::*;

verus! {

/// A handle that takes measurements for one attribute set.
pub trait BoundSyncInstrument<T>: Send + Sync {
    /// Takes a measurement.
    fn measure(&self, measurement: T);
}

/// An instrument that takes measurements as they are made.
pub trait SyncInstrument<T>: Send + Sync {
    /// The handle that [`SyncInstrument::bind`] gives.
    type Bound: BoundSyncInstrument<T>;

    /// Takes a measurement with its attributes.
    fn measure(&self, measurement: T, attributes: &[KeyValue]);

    /// Gives a handle for these attributes.
    fn bind(&self, attributes: &[KeyValue]) -> Self::Bound;
}

/// An instrument that records a distribution of values.
///
/// A [`Histogram`] can be cloned to create several handles to the same instrument. Where one needs
/// to be shared, clone it rather than create another for the same metric.
#[non_exhaustive]
pub struct Histogram<T, I: SyncInstrument<T>>(Arc<I>, PhantomData<T>);

/// A histogram bound to one attribute set, which records values without attributes.
pub struct BoundHistogram<T, I: SyncInstrument<T>>(I::Bound, PhantomData<T>);

impl<T, I: SyncInstrument<T>> Histogram<T, I> {
    /// The instrument that the histogram hands its values to.
    pub closed spec fn instrument(&self) -> I {
        *self.0
    }

    /// Creates a histogram over an instrument.
    pub fn new(inner: Arc<I>) -> (histogram: Self)
        ensures
            histogram.instrument() == *inner,
    {
        Histogram(inner, PhantomData)
    }

    /// Adds a value to the distribution: hands it to the instrument, with the attributes.
    pub fn record(&self, value: T, attributes: &[KeyValue])
        ensures
            call_ensures(I::measure, (&self.instrument(), value, attributes), ()),
    {
        self.0.measure(value, attributes)
    }

    /// Gives a bound histogram, over the handle that the instrument gives for these attributes.
    pub fn bind(&self, attributes: &[KeyValue]) -> (bound: BoundHistogram<T, I>)
        ensures
            call_ensures(I::bind, (&self.instrument(), attributes), bound.handle()),
    {
        BoundHistogram(self.0.bind(attributes), PhantomData)
    }
}

impl<T, I: SyncInstrument<T>> Clone for Histogram<T, I> {
    fn clone(&self) -> (copy: Self)
        ensures
            copy.instrument() == self.instrument(),
    {
        Histogram(self.0.clone(), PhantomData)
    }
}

impl<T, I: SyncInstrument<T>> BoundHistogram<T, I> {
    /// The handle that the bound histogram hands its values to.
    pub closed spec fn handle(&self) -> I::Bound {
        self.0
    }

    /// Adds a value to the distribution: hands it to the handle.
    pub fn record(&self, value: T)
        ensures
            call_ensures(<I::Bound as BoundSyncInstrument<T>>::measure, (&self.handle(), value), ()),
    {
        self.0.measure(value)
    }
}

/// What is recorded on a histogram reaches the instrument that it was made over, with its attributes,
/// also through a copy.
pub proof fn law_recorded_value_reaches_instrument<T, I: SyncInstrument<T>>(
    inner: Arc<I>,
    histogram: Histogram<T, I>,
    copy: Histogram<T, I>,
    value: T,
    attributes: &[KeyValue],
)
    requires
        call_ensures(Histogram::<T, I>::new, (inner,), histogram),
        call_ensures(<Histogram<T, I> as Clone>::clone, (&histogram,), copy),
        call_ensures(Histogram::<T, I>::record, (&histogram, value, attributes), ()) || call_ensures(
            Histogram::<T, I>::record,
            (&copy, value, attributes),
            (),
        ),
    ensures
        call_ensures(I::measure, (&*inner, value, attributes), ()),
{
}

/// What is recorded on a bound histogram reaches a handle that the instrument has given for the
/// attributes it was bound with.
pub proof fn law_bound_value_reaches_handle<T, I: SyncInstrument<T>>(
    inner: Arc<I>,
    histogram: Histogram<T, I>,
    attributes: &[KeyValue],
    bound: BoundHistogram<T, I>,
    value: T,
)
    requires
        call_ensures(Histogram::<T, I>::new, (inner,), histogram),
        call_ensures(Histogram::<T, I>::bind, (&histogram, attributes), bound),
        call_ensures(BoundHistogram::<T, I>::record, (&bound, value), ()),
    ensures
        exists|handle: I::Bound|
            #![trigger call_ensures(I::bind, (&*inner, attributes), handle)]
            call_ensures(I::bind, (&*inner, attributes), handle) && call_ensures(
                <I::Bound as BoundSyncInstrument<T>>::measure,
                (&handle, value),
                (),
            ),
{
}

} // verus!
