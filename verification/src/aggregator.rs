//! Aggregators, and the trackers that wrap them.

use crate::number::{AtomicTracker, AtomicallyUpdate};
use vstd::prelude::*;

verus! {

/// Condenses the measurements of one attribute set.
pub trait Aggregator: Sized {
    /// A static configuration that is needed to make the aggregator.
    type InitConfig;

    /// What a measurement is turned into before the aggregator takes it.
    type PreComputedValue;

    /// What the measurements taken so far amount to.
    type State;

    /// What the measurements taken so far amount to.
    spec fn view(&self) -> Self::State;

    /// What no measurement amounts to.
    spec fn initial(init: Self::InitConfig) -> Self::State;

    /// What the measurements behind `state` and one more, `value`, amount to.
    spec fn updated(state: Self::State, value: Self::PreComputedValue) -> Self::State;

    /// Called every time a new attribute set is stored.
    fn create(init: &Self::InitConfig) -> (aggregator: Self)
        ensures
            aggregator.view() == Self::initial(*init),
    ;

    /// Called for each measurement.
    fn update(&mut self, value: Self::PreComputedValue)
        ensures
            final(self).view() == Self::updated(old(self).view(), value),
    ;

    /// Gives an aggregator with the current state, and resets this one.
    fn clone_and_reset(&mut self, init: &Self::InitConfig) -> (taken: Self)
        ensures
            taken.view() == old(self).view(),
            final(self).view() == Self::initial(*init),
    ;
}

/// What a [`TrackerEntry`] holds.
pub struct TrackerView<S> {
    pub aggregator: S,
    pub has_been_updated: bool,
    pub evicted: bool,
}

/// An aggregator with the flags that delta collection needs.
pub struct TrackerEntry<A> {
    /// The aggregator.
    pub aggregator: A,
    /// Whether the tracker has received measurements since the last collection.
    pub has_been_updated: bool,
    /// Whether the tracker was evicted from the map. The holder of a bound handle reads this to
    /// detect that the handle is stale, and falls back to the unbound path.
    pub evicted: bool,
}

impl<A: Aggregator> View for TrackerEntry<A> {
    type V = TrackerView<A::State>;

    open spec fn view(&self) -> TrackerView<A::State> {
        TrackerView {
            aggregator: self.aggregator.view(),
            has_been_updated: self.has_been_updated,
            evicted: self.evicted,
        }
    }
}

/// A tracker as it is when its attribute set is first seen.
pub open spec fn new_tracker<S>(aggregator: S) -> TrackerView<S> {
    TrackerView { aggregator, has_been_updated: true, evicted: false }
}

impl<A: Aggregator> TrackerEntry<A> {
    /// Wraps an aggregator. A new tracker counts as updated.
    pub fn new(aggregator: A) -> (tracker: Self)
        ensures
            tracker@ == new_tracker(aggregator.view()),
            tracker.aggregator == aggregator,
    {
        TrackerEntry { aggregator, has_been_updated: true, evicted: false }
    }

    /// Sets the updated flag and gives back what it was.
    pub fn swap_updated(&mut self, flag: bool) -> (was: bool)
        ensures
            was == old(self).has_been_updated,
            *final(self) == (TrackerEntry { has_been_updated: flag, ..*old(self) }),
    {
        let was: bool = self.has_been_updated;
        self.has_been_updated = flag;
        was
    }
}

/// An aggregator that keeps the last measurement.
pub struct Assign<T: AtomicallyUpdate> {
    /// The last measurement.
    pub value: T::AtomicTracker,
}

impl<T: AtomicallyUpdate> Aggregator for Assign<T> {
    type InitConfig = ();

    type PreComputedValue = T;

    type State = T;

    open spec fn view(&self) -> T {
        self.value.view()
    }

    open spec fn initial(init: ()) -> T {
        <T::AtomicTracker as AtomicTracker<T>>::zero()
    }

    open spec fn updated(state: T, value: T) -> T {
        value
    }

    fn create(_init: &()) -> (aggregator: Self)
        ensures
            aggregator.value.view() == <T::AtomicTracker as AtomicTracker<T>>::zero(),
    {
        Assign { value: T::new_atomic_tracker(T::zero()) }
    }

    fn update(&mut self, value: T)
        ensures
            final(self).value.view() == value,
    {
        self.value.store(value);
    }

    fn clone_and_reset(&mut self, _init: &()) -> (taken: Self)
        ensures
            taken.value.view() == old(self).value.view(),
            final(self).value.view() == <T::AtomicTracker as AtomicTracker<T>>::zero(),
    {
        Assign { value: T::new_atomic_tracker(self.value.get_and_reset_value()) }
    }
}

} // verus!
