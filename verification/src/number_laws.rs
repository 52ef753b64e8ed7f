//! What the trackers and the kinds of number promise, from what goes in to what comes out.

use crate::aggregator::{Aggregator, Assign, TrackerEntry};
use crate::number::{
    AggregatedMetrics, AggregatedMetricsAccess, AtomicTracker, AtomicallyUpdate, F64AtomicTracker,
    F64Bits, I64Tracker, MetricData, Number, U64Tracker,
};
use vstd::prelude::*;

verus! {

/// `sum` is `exact` where that is an unsigned number of 64 bits, and else what is left of it.
pub open spec fn wraps_to_u64(exact: int, sum: u64) -> bool {
    &&& 0 <= exact <= u64::MAX ==> sum == exact
    &&& exact > u64::MAX ==> sum == exact - 0x1_0000_0000_0000_0000
}

/// `sum` is `exact` where that is a signed number of 64 bits, and else what is left of it.
pub open spec fn wraps_to_i64(exact: int, sum: i64) -> bool {
    &&& i64::MIN <= exact <= i64::MAX ==> sum == exact
    &&& exact > i64::MAX ==> sum == exact - 0x1_0000_0000_0000_0000
    &&& exact < i64::MIN ==> sum == exact + 0x1_0000_0000_0000_0000
}

/// A tracker of an unsigned number that was made with `init` and to which `value` was added gives
/// their arithmetic sum, modulo the greatest number and one.
pub proof fn law_u64_add(
    init: u64,
    value: u64,
    made: U64Tracker,
    tracker: &mut U64Tracker,
    sum: u64,
)
    requires
        call_ensures(<u64 as AtomicallyUpdate>::new_atomic_tracker, (init,), made),
        *old(tracker) == made,
        call_ensures(<U64Tracker as AtomicTracker<u64>>::add, (tracker, value), ()),
        call_ensures(<U64Tracker as AtomicTracker<u64>>::get_value, (&*final(tracker),), sum),
    ensures
        wraps_to_u64(init + value, sum),
{
}

/// Adding to a tracker of an unsigned number, whatever it holds.
pub proof fn law_u64_add_again(
    tracker: &mut U64Tracker,
    value: u64,
    before: u64,
    sum: u64,
)
    requires
        call_ensures(<U64Tracker as AtomicTracker<u64>>::get_value, (&*old(tracker),), before),
        call_ensures(<U64Tracker as AtomicTracker<u64>>::add, (tracker, value), ()),
        call_ensures(<U64Tracker as AtomicTracker<u64>>::get_value, (&*final(tracker),), sum),
    ensures
        wraps_to_u64(before + value, sum),
{
}

/// A tracker of a signed number that was made with `init` and to which `value` was added gives their
/// arithmetic sum, modulo the number of values.
pub proof fn law_i64_add(
    init: i64,
    value: i64,
    made: I64Tracker,
    tracker: &mut I64Tracker,
    sum: i64,
)
    requires
        call_ensures(<i64 as AtomicallyUpdate>::new_atomic_tracker, (init,), made),
        *old(tracker) == made,
        call_ensures(<I64Tracker as AtomicTracker<i64>>::add, (tracker, value), ()),
        call_ensures(<I64Tracker as AtomicTracker<i64>>::get_value, (&*final(tracker),), sum),
    ensures
        wraps_to_i64(init + value, sum),
{
}

/// Adding to a tracker of a signed number, whatever it holds.
pub proof fn law_i64_add_again(
    tracker: &mut I64Tracker,
    value: i64,
    before: i64,
    sum: i64,
)
    requires
        call_ensures(<I64Tracker as AtomicTracker<i64>>::get_value, (&*old(tracker),), before),
        call_ensures(<I64Tracker as AtomicTracker<i64>>::add, (tracker, value), ()),
        call_ensures(<I64Tracker as AtomicTracker<i64>>::get_value, (&*final(tracker),), sum),
    ensures
        wraps_to_i64(before + value, sum),
{
}

/// Adding by way of the numbers alone, without the trackers.
pub proof fn law_sums(a: u64, b: u64, c: i64, d: i64)
    ensures
        wraps_to_u64(a + b, <U64Tracker as AtomicTracker<u64>>::sum(a, b)),
        wraps_to_i64(c + d, <I64Tracker as AtomicTracker<i64>>::sum(c, d)),
        <U64Tracker as AtomicTracker<u64>>::zero() == 0,
        <I64Tracker as AtomicTracker<i64>>::zero() == 0,
{
}

/// What was stored is what is read, and a reset reads it once more and leaves zero.
pub proof fn law_u64_store_and_reset(
    stored: &mut U64Tracker,
    reset: &mut U64Tracker,
    value: u64,
    read: u64,
    taken: u64,
    left: u64,
    zero: u64,
)
    requires
        call_ensures(<U64Tracker as AtomicTracker<u64>>::store, (stored, value), ()),
        call_ensures(<U64Tracker as AtomicTracker<u64>>::get_value, (&*final(stored),), read),
        *old(reset) == *final(stored),
        call_ensures(<U64Tracker as AtomicTracker<u64>>::get_and_reset_value, (reset,), taken),
        call_ensures(<U64Tracker as AtomicTracker<u64>>::get_value, (&*final(reset),), left),
        call_ensures(<u64 as AtomicallyUpdate>::zero, (), zero),
    ensures
        read == value,
        taken == value,
        left == 0,
        zero == 0,
{
}

/// What was stored is what is read, and a reset reads it once more and leaves zero.
pub proof fn law_i64_store_and_reset(
    stored: &mut I64Tracker,
    reset: &mut I64Tracker,
    value: i64,
    read: i64,
    taken: i64,
    left: i64,
    zero: i64,
)
    requires
        call_ensures(<I64Tracker as AtomicTracker<i64>>::store, (stored, value), ()),
        call_ensures(<I64Tracker as AtomicTracker<i64>>::get_value, (&*final(stored),), read),
        *old(reset) == *final(stored),
        call_ensures(<I64Tracker as AtomicTracker<i64>>::get_and_reset_value, (reset,), taken),
        call_ensures(<I64Tracker as AtomicTracker<i64>>::get_value, (&*final(reset),), left),
        call_ensures(<i64 as AtomicallyUpdate>::zero, (), zero),
    ensures
        read == value,
        taken == value,
        left == 0,
        zero == 0,
{
}

/// A tracker of a floating-point number gives back the bits that it was made with or that were
/// stored, and a reset gives them once more and leaves those of positive zero.
pub proof fn law_f64_store_and_reset(
    init: u64,
    made: F64AtomicTracker,
    first: u64,
    stored: &mut F64AtomicTracker,
    reset: &mut F64AtomicTracker,
    value: u64,
    read: u64,
    taken: u64,
    left: u64,
)
    requires
        call_ensures(F64AtomicTracker::new, (init,), made),
        call_ensures(F64AtomicTracker::get_value, (&made,), first),
        call_ensures(F64AtomicTracker::store, (stored, value), ()),
        call_ensures(F64AtomicTracker::get_value, (&*final(stored),), read),
        *old(reset) == *final(stored),
        call_ensures(F64AtomicTracker::get_and_reset_value, (reset,), taken),
        call_ensures(F64AtomicTracker::get_value, (&*final(reset),), left),
    ensures
        first == init,
        read == value,
        taken == value,
        left == 0,
{
}

/// Adding to a tracker of a floating-point number hands the bits that it holds to the caller's
/// addition, and holds what that gives.
pub proof fn law_f64_add<F: Fn(u64) -> u64>(
    tracker: &mut F64AtomicTracker,
    sum: F,
    before: u64,
    after: u64,
)
    requires
        call_ensures(F64AtomicTracker::get_value, (&*old(tracker),), before),
        call_ensures(F64AtomicTracker::add::<F>, (tracker, sum), ()),
        call_ensures(F64AtomicTracker::get_value, (&*final(tracker),), after),
    ensures
        sum.ensures((before,), after),
{
}

/// No signed number is below the least or above the greatest.
pub proof fn law_i64_bounds(least: i64, greatest: i64, x: i64)
    requires
        call_ensures(<i64 as Number>::min, (), least),
        call_ensures(<i64 as Number>::max, (), greatest),
    ensures
        least <= x <= greatest,
{
}

/// No unsigned number is below the least or above the greatest.
pub proof fn law_u64_bounds(least: u64, greatest: u64, x: u64)
    requires
        call_ensures(<u64 as Number>::min, (), least),
        call_ensures(<u64 as Number>::max, (), greatest),
    ensures
        least <= x <= greatest,
{
}

/// The bits of the greatest finite number come right before those of infinity, whose exponent is
/// all ones and whose fraction is empty, and the least finite number differs by its sign.
pub proof fn law_f64_bounds(least: F64Bits, greatest: F64Bits)
    requires
        call_ensures(<F64Bits as Number>::min, (), least),
        call_ensures(<F64Bits as Number>::max, (), greatest),
    ensures
        greatest.0 + 1 == 2047 * 0x10_0000_0000_0000,
        least.0 == greatest.0 + 0x8000_0000_0000_0000,
{
}

/// Data that was made into a metric is found by its own kind of number, and by no other.
pub proof fn law_metrics_kind(
    signed: MetricData<i64>,
    unsigned: MetricData<u64>,
    float: MetricData<F64Bits>,
    a: AggregatedMetrics,
    b: AggregatedMetrics,
    c: AggregatedMetrics,
)
    requires
        call_ensures(<i64 as AggregatedMetricsAccess>::make_aggregated_metrics, (signed,), a),
        call_ensures(<u64 as AggregatedMetricsAccess>::make_aggregated_metrics, (unsigned,), b),
        call_ensures(<F64Bits as AggregatedMetricsAccess>::make_aggregated_metrics, (float,), c),
    ensures
        a == AggregatedMetrics::I64(signed),
        b == AggregatedMetrics::U64(unsigned),
        c == AggregatedMetrics::F64(float),
{
}

/// What is found in a metric is what it carries, where it carries that kind of number.
pub proof fn law_metrics_found(
    data: AggregatedMetrics,
    signed: Option<&MetricData<i64>>,
    unsigned: Option<&MetricData<u64>>,
    float: Option<&MetricData<F64Bits>>,
)
    requires
        call_ensures(<i64 as AggregatedMetricsAccess>::extract_metrics_data_ref, (&data,), signed),
        call_ensures(
            <u64 as AggregatedMetricsAccess>::extract_metrics_data_ref,
            (&data,),
            unsigned,
        ),
        call_ensures(
            <F64Bits as AggregatedMetricsAccess>::extract_metrics_data_ref,
            (&data,),
            float,
        ),
    ensures
        signed is Some <==> data is I64,
        unsigned is Some <==> data is U64,
        float is Some <==> data is F64,
        data matches AggregatedMetrics::I64(d) ==> *signed->0 == d,
        data matches AggregatedMetrics::U64(d) ==> *unsigned->0 == d,
        data matches AggregatedMetrics::F64(d) ==> *float->0 == d,
{
}

/// Changing what was found in a metric changes what the metric carries. Where nothing was found, the
/// metric stays as it is.
pub proof fn law_metrics_changed(
    a: &mut AggregatedMetrics,
    b: &mut AggregatedMetrics,
    c: &mut AggregatedMetrics,
    signed: Option<&mut MetricData<i64>>,
    unsigned: Option<&mut MetricData<u64>>,
    float: Option<&mut MetricData<F64Bits>>,
)
    requires
        call_ensures(<i64 as AggregatedMetricsAccess>::extract_metrics_data_mut, (a,), signed),
        call_ensures(<u64 as AggregatedMetricsAccess>::extract_metrics_data_mut, (b,), unsigned),
        call_ensures(<F64Bits as AggregatedMetricsAccess>::extract_metrics_data_mut, (c,), float),
    ensures
        match signed {
            Some(data) => *old(a) == AggregatedMetrics::I64(*data) && *final(a)
                == AggregatedMetrics::I64(*final(data)),
            None => !(*old(a) is I64) && *final(a) == *old(a),
        },
        match unsigned {
            Some(data) => *old(b) == AggregatedMetrics::U64(*data) && *final(b)
                == AggregatedMetrics::U64(*final(data)),
            None => !(*old(b) is U64) && *final(b) == *old(b),
        },
        match float {
            Some(data) => *old(c) == AggregatedMetrics::F64(*data) && *final(c)
                == AggregatedMetrics::F64(*final(data)),
            None => !(*old(c) is F64) && *final(c) == *old(c),
        },
{
}

/// An aggregator that keeps the last measurement starts at zero, holds what it was given last, and
/// a reset hands that over and leaves zero.
pub proof fn law_assign<T: AtomicallyUpdate>(
    made: Assign<T>,
    updated: &mut Assign<T>,
    reset: &mut Assign<T>,
    value: T,
    taken: Assign<T>,
    zero: T,
)
    requires
        call_ensures(<Assign<T> as Aggregator>::create, (&(),), made),
        call_ensures(<Assign<T> as Aggregator>::update, (updated, value), ()),
        call_ensures(<Assign<T> as Aggregator>::clone_and_reset, (reset, &()), taken),
        call_ensures(<T as AtomicallyUpdate>::zero, (), zero),
    ensures
        made.value.view() == zero,
        (*final(updated)).value.view() == value,
        taken.value.view() == (*old(reset)).value.view(),
        (*final(reset)).value.view() == zero,
        made.view() == made.value.view(),
        <Assign<T> as Aggregator>::initial(()) == zero,
        <Assign<T> as Aggregator>::updated(made.view(), value) == value,
{
}

/// A new tracker holds its aggregator, counts as updated, and is not evicted. Swapping the updated
/// flag gives the old one, sets the new one, and changes nothing else.
pub proof fn law_tracker_entry<A: Aggregator>(
    aggregator: A,
    made: TrackerEntry<A>,
    swapped: &mut TrackerEntry<A>,
    flag: bool,
    was: bool,
)
    requires
        call_ensures(TrackerEntry::<A>::new, (aggregator,), made),
        call_ensures(TrackerEntry::<A>::swap_updated, (swapped, flag), was),
    ensures
        made.aggregator == aggregator,
        made.has_been_updated,
        !made.evicted,
        made@.aggregator == aggregator.view(),
        made@.has_been_updated == made.has_been_updated,
        made@.evicted == made.evicted,
        was == old(swapped).has_been_updated,
        final(swapped).has_been_updated == flag,
        final(swapped).evicted == old(swapped).evicted,
        final(swapped).aggregator == old(swapped).aggregator,
{
}

} // verus!
