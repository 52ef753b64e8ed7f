//! What calls on a [`ValueMap`], one after the other, bring about.

use crate::aggregator::{Aggregator, TrackerEntry, TrackerView};
use crate::collection_laws::{
    has_point_of, is_point_of, is_wanted_point, law_delta_collection, law_delta_collection_leaves,
    law_draining_collection, law_draining_collection_leaves, law_read_collection,
    law_updated_collection, reports,
};
use crate::hashed_attributes::{HashedAttributes, HashedView};
use crate::key_value::{attr_views, KeyValue, KeyValueView};
use crate::laws::law_points_within_limit;
use crate::operation_laws::{
    is_overflow_set, is_set_of, law_binding, law_measurement, law_measurement_through_stale_handle,
    law_measurement_without_attributes,
};
use crate::sharded_map::BoundTracker;
use crate::value_map::{counted_sets, value_map_wf, ValueMap, ValueMapView};
use vstd::prelude::*;

verus! {

/// Where nothing was measured, no collection reports anything.
pub proof fn law_nothing_measured<
    A: Aggregator,
    Res,
    Read: FnMut(Vec<KeyValue>, &A) -> Res,
    Delta: FnMut(Vec<KeyValue>, &mut A) -> Res,
    Drain: FnMut(Vec<KeyValue>, A) -> Res,
>(
    config: A::InitConfig,
    limit: usize,
    made: ValueMap<A>,
    m: &mut ValueMap<A>,
    n: &mut ValueMap<A>,
    a: &mut Vec<Res>,
    b: &mut Vec<Res>,
    c: &mut Vec<Res>,
    read: Read,
    delta: Delta,
    drain: Drain,
)
    requires
        call_ensures(ValueMap::<A>::new, (config, limit), made),
        *old(m) == made,
        *old(n) == made,
        call_ensures(ValueMap::<A>::collect_readonly::<Res, Read>, (&made, a, read), ()),
        call_ensures(ValueMap::<A>::collect_and_reset::<Res, Delta>, (m, b, delta), ()),
        call_ensures(ValueMap::<A>::drain_and_reset::<Res, Drain>, (n, c, drain), ()),
    ensures
        final(a)@.len() == 0,
        final(b)@.len() == 0,
        final(c)@.len() == 0,
{
    reveal(Seq::filter);
}

/// The points are one point, which says this.
pub open spec fn is_only_point<S, Res>(
    points: Seq<Res>,
    attrs: spec_fn(Res) -> Seq<KeyValueView>,
    state: spec_fn(Res) -> S,
    list: Seq<KeyValueView>,
    value: S,
) -> bool {
    &&& points.len() == 1
    &&& attrs(points[0]) == list
    &&& state(points[0]) == value
}

/// Where a map holds one set and nothing was measured without attributes, what is reported is the point
/// of this set.
proof fn lemma_only_set<S, C, Res>(
    v: ValueMapView<S, C>,
    wanted: spec_fn(TrackerView<S>) -> bool,
    points: Seq<Res>,
    attrs: spec_fn(Res) -> Seq<KeyValueView>,
    state: spec_fn(Res) -> S,
    set: HashedView,
)
    requires
        reports(v, wanted, points, attrs, state),
        !v.has_no_attribute_value,
        v.map.attached.contains_key(set),
        wanted(v.map.pool[v.map.attached[set]].tracker),
        forall|other: HashedView| #[trigger] v.map.attached.contains_key(other) ==> other == set,
    ensures
        is_only_point(
            points,
            attrs,
            state,
            set.attrs,
            v.map.pool[v.map.attached[set]].tracker.aggregator,
        ),
{
    assert(has_point_of(v, set, points, attrs, state));
    assert forall|i: int| 0 <= i < points.len() implies is_point_of(
        v,
        set,
        attrs(#[trigger] points[i]),
        state(points[i]),
    ) by {
        assert(is_wanted_point(v, wanted, attrs(points[i]), state(points[i])));
    }
    if points.len() > 1 {
        assert(attrs(points[0]) != attrs(points[1]));
    }
}

/// The first measurement is reported by the next collection, of each kind, as one point: it has the
/// attributes of the measurement, as a set holds them, and the state that has taken in its value alone.
pub proof fn law_first_measurement_is_reported<
    A: Aggregator,
    Res,
    Read: FnMut(Vec<KeyValue>, &A) -> Res,
    Delta: FnMut(Vec<KeyValue>, &mut A) -> Res,
    Drain: FnMut(Vec<KeyValue>, A) -> Res,
>(
    config: A::InitConfig,
    limit: usize,
    made: ValueMap<A>,
    measured: &mut ValueMap<A>,
    value: A::PreComputedValue,
    attributes: &[KeyValue],
    own: HashedAttributes,
    overflow: HashedAttributes,
    m: &mut ValueMap<A>,
    n: &mut ValueMap<A>,
    a: &mut Vec<Res>,
    b: &mut Vec<Res>,
    c: &mut Vec<Res>,
    read: Read,
    delta: Delta,
    drain: Drain,
    attrs: spec_fn(Res) -> Seq<KeyValueView>,
    state: spec_fn(Res) -> A::State,
)
    requires
        call_ensures(ValueMap::<A>::new, (config, limit), made),
        limit > 0,
        *old(measured) == made,
        attributes@.len() > 0,
        is_set_of(attributes, own),
        is_overflow_set(overflow),
        call_ensures(ValueMap::<A>::measure, (measured, value, attributes), ()),
        *old(m) == *final(measured),
        *old(n) == *final(measured),
        forall|list: Vec<KeyValue>, aggregator: &A, point: Res| #[trigger]
            read.ensures((list, aggregator), point) ==> attrs(point) == attr_views(list@) && state(
                point,
            ) == aggregator.view(),
        forall|list: Vec<KeyValue>, aggregator: &mut A, point: Res| #[trigger]
            delta.ensures((list, aggregator), point) ==> attrs(point) == attr_views(list@)
                && state(point) == (*aggregator).view(),
        forall|list: Vec<KeyValue>, aggregator: A, point: Res| #[trigger]
            drain.ensures((list, aggregator), point) ==> attrs(point) == attr_views(list@)
                && state(point) == aggregator.view(),
        call_ensures(
            ValueMap::<A>::collect_readonly::<Res, Read>,
            (&*final(measured), a, read),
            (),
        ),
        call_ensures(ValueMap::<A>::collect_and_reset::<Res, Delta>, (m, b, delta), ()),
        call_ensures(ValueMap::<A>::drain_and_reset::<Res, Drain>, (n, c, drain), ()),
    ensures
        ({
            let list = attr_views(own.attrs@);
            let taken = A::updated(A::initial(config), value);
            &&& is_only_point(final(a)@, attrs, state, list, taken)
            &&& is_only_point(final(b)@, attrs, state, list, taken)
            &&& is_only_point(final(c)@, attrs, state, list, taken)
        }),
{
    law_measurement::<A>(measured, value, attributes, own, overflow);
    let v = (*final(measured))@;
    let all = |tracker: TrackerView<A::State>| true;
    let updated = |tracker: TrackerView<A::State>| tracker.has_been_updated;
    law_read_collection::<A, Res, Read>(*final(measured), a, read, attrs, state);
    law_delta_collection::<A, Res, Delta>(m, b, delta, attrs, state);
    law_draining_collection::<A, Res, Drain>(n, c, drain, attrs, state);
    lemma_only_set(v, all, (*final(a))@, attrs, state, own@);
    lemma_only_set(v, updated, (*final(b))@, attrs, state, own@);
    lemma_only_set(v, all, (*final(c))@, attrs, state, own@);
}

/// One of the points says this.
pub open spec fn has_point<S, Res>(
    points: Seq<Res>,
    attrs: spec_fn(Res) -> Seq<KeyValueView>,
    state: spec_fn(Res) -> S,
    list: Seq<KeyValueView>,
    value: S,
) -> bool {
    exists|i: int|
        0 <= i < points.len() && attrs(#[trigger] points[i]) == list && state(points[i]) == value
}

proof fn lemma_has_point<S, C, Res>(
    v: ValueMapView<S, C>,
    points: Seq<Res>,
    attrs: spec_fn(Res) -> Seq<KeyValueView>,
    state: spec_fn(Res) -> S,
    set: HashedView,
)
    requires
        reports(
            v,
            |tracker: TrackerView<S>| tracker.has_been_updated,
            points,
            attrs,
            state,
        ),
        v.map.attached.contains_key(set),
        v.map.pool[v.map.attached[set]].tracker.has_been_updated,
    ensures
        has_point(
            points,
            attrs,
            state,
            set.attrs,
            v.map.pool[v.map.attached[set]].tracker.aggregator,
        ),
{
    assert(has_point_of(v, set, points, attrs, state));
    let i = choose|i: int|
        0 <= i < points.len() && is_point_of(v, set, attrs(#[trigger] points[i]), state(points[i]));
    assert(attrs(points[i]) == set.attrs);
}

/// The state of the tracker of `set`, where it has one, and else that of a tracker which has taken in
/// nothing.
pub open spec fn state_before<A: Aggregator>(
    v: ValueMapView<A::State, A::InitConfig>,
    set: HashedView,
) -> A::State {
    if v.map.attached.contains_key(set) {
        v.map.pool[v.map.attached[set]].tracker.aggregator
    } else {
        A::initial(v.config)
    }
}

/// A measurement is reported by the next delta collection, on top of what its tracker held: under its
/// own attributes where they are in the map or there is room for them, and else under the overflow
/// attributes.
pub proof fn law_measurement_is_reported<
    A: Aggregator,
    Res,
    Delta: FnMut(Vec<KeyValue>, &mut A) -> Res,
>(
    measured: &mut ValueMap<A>,
    value: A::PreComputedValue,
    attributes: &[KeyValue],
    own: HashedAttributes,
    overflow: HashedAttributes,
    m: &mut ValueMap<A>,
    dest: &mut Vec<Res>,
    delta: Delta,
    attrs: spec_fn(Res) -> Seq<KeyValueView>,
    state: spec_fn(Res) -> A::State,
)
    requires
        old(measured).wf(),
        attributes@.len() > 0,
        is_set_of(attributes, own),
        is_overflow_set(overflow),
        call_ensures(ValueMap::<A>::measure, (measured, value, attributes), ()),
        *old(m) == *final(measured),
        forall|list: Vec<KeyValue>, aggregator: &mut A, point: Res| #[trigger]
            delta.ensures((list, aggregator), point) ==> attrs(point) == attr_views(list@)
                && state(point) == (*aggregator).view(),
        call_ensures(ValueMap::<A>::collect_and_reset::<Res, Delta>, (m, dest, delta), ()),
    ensures
        old(measured)@.map.attached.contains_key(own@) || old(measured)@.count < old(
            measured,
        )@.limit ==> has_point(
            final(dest)@,
            attrs,
            state,
            attr_views(own.attrs@),
            A::updated(state_before::<A>(old(measured)@, own@), value),
        ),
        !old(measured)@.map.attached.contains_key(own@) && old(measured)@.count >= old(
            measured,
        )@.limit ==> has_point(
            final(dest)@,
            attrs,
            state,
            attr_views(overflow.attrs@),
            A::updated(state_before::<A>(old(measured)@, overflow@), value),
        ),
{
    let before = (*measured)@;
    let v = (*final(measured))@;
    law_measurement::<A>(measured, value, attributes, own, overflow);
    law_delta_collection::<A, Res, Delta>(m, dest, delta, attrs, state);
    if before.map.attached.contains_key(own@) || before.count < before.limit {
        lemma_has_point(v, (*final(dest))@, attrs, state, own@);
    } else {
        lemma_has_point(v, (*final(dest))@, attrs, state, overflow@);
    }
}

/// A measurement without attributes is reported by the next delta collection, before all else and
/// without attributes, on top of what was measured so before.
pub proof fn law_measurement_without_attributes_is_reported<
    A: Aggregator,
    Res,
    Delta: FnMut(Vec<KeyValue>, &mut A) -> Res,
>(
    measured: &mut ValueMap<A>,
    value: A::PreComputedValue,
    attributes: &[KeyValue],
    m: &mut ValueMap<A>,
    dest: &mut Vec<Res>,
    delta: Delta,
    attrs: spec_fn(Res) -> Seq<KeyValueView>,
    state: spec_fn(Res) -> A::State,
)
    requires
        old(measured).wf(),
        attributes@.len() == 0,
        call_ensures(ValueMap::<A>::measure, (measured, value, attributes), ()),
        *old(m) == *final(measured),
        forall|list: Vec<KeyValue>, aggregator: &mut A, point: Res| #[trigger]
            delta.ensures((list, aggregator), point) ==> attrs(point) == attr_views(list@)
                && state(point) == (*aggregator).view(),
        call_ensures(ValueMap::<A>::collect_and_reset::<Res, Delta>, (m, dest, delta), ()),
    ensures
        final(dest)@.len() > 0,
        attrs(final(dest)@[0]).len() == 0,
        state(final(dest)@[0]) == A::updated(old(measured)@.no_attribute.aggregator, value),
{
    let v = (*final(measured))@;
    let points = (*final(dest))@;
    let updated = |tracker: TrackerView<A::State>| tracker.has_been_updated;
    law_measurement_without_attributes::<A>(measured, value, attributes);
    law_delta_collection::<A, Res, Delta>(m, dest, delta, attrs, state);
    assert(is_wanted_point(v, updated, attrs(points[0]), state(points[0])));
    m.lemma_wf();
}

/// Where nothing was measured without attributes, no collection reports a point without attributes.
pub proof fn law_no_point_without_attributes<
    A: Aggregator,
    Res,
    Read: FnMut(Vec<KeyValue>, &A) -> Res,
    Delta: FnMut(Vec<KeyValue>, &mut A) -> Res,
    Drain: FnMut(Vec<KeyValue>, A) -> Res,
>(
    m: &mut ValueMap<A>,
    n: &mut ValueMap<A>,
    o: &mut ValueMap<A>,
    a: &mut Vec<Res>,
    b: &mut Vec<Res>,
    c: &mut Vec<Res>,
    d: &mut Vec<Res>,
    read: Read,
    delta: Delta,
    drain: Drain,
    attrs: spec_fn(Res) -> Seq<KeyValueView>,
    state: spec_fn(Res) -> A::State,
    i: int,
)
    requires
        old(m).wf(),
        !old(m)@.has_no_attribute_value,
        *old(n) == *old(m),
        *old(o) == *old(m),
        forall|list: Vec<KeyValue>, aggregator: &A, point: Res| #[trigger]
            read.ensures((list, aggregator), point) ==> attrs(point) == attr_views(list@) && state(
                point,
            ) == aggregator.view(),
        forall|list: Vec<KeyValue>, aggregator: &mut A, point: Res| #[trigger]
            delta.ensures((list, aggregator), point) ==> attrs(point) == attr_views(list@)
                && state(point) == (*aggregator).view(),
        forall|list: Vec<KeyValue>, aggregator: A, point: Res| #[trigger]
            drain.ensures((list, aggregator), point) ==> attrs(point) == attr_views(list@)
                && state(point) == aggregator.view(),
        call_ensures(ValueMap::<A>::collect_readonly::<Res, Read>, (&*old(m), a, read), ()),
        call_ensures(ValueMap::<A>::collect_updated::<Res, Delta>, (m, b, delta), ()),
        call_ensures(ValueMap::<A>::collect_and_reset::<Res, Delta>, (n, c, delta), ()),
        call_ensures(ValueMap::<A>::drain_and_reset::<Res, Drain>, (o, d, drain), ()),
    ensures
        0 <= i < final(a)@.len() ==> attrs(final(a)@[i]).len() > 0,
        0 <= i < final(b)@.len() ==> attrs(final(b)@[i]).len() > 0,
        0 <= i < final(c)@.len() ==> attrs(final(c)@[i]).len() > 0,
        0 <= i < final(d)@.len() ==> attrs(final(d)@[i]).len() > 0,
{
    let v = (*m)@;
    let all = |tracker: TrackerView<A::State>| true;
    let updated = |tracker: TrackerView<A::State>| tracker.has_been_updated;
    m.lemma_wf();
    law_read_collection::<A, Res, Read>(*m, a, read, attrs, state);
    law_updated_collection::<A, Res, Delta>(m, b, delta, attrs, state);
    law_delta_collection::<A, Res, Delta>(n, c, delta, attrs, state);
    law_draining_collection::<A, Res, Drain>(o, d, drain, attrs, state);
    lemma_with_attributes(v, all, (*final(a))@, attrs, state, i);
    lemma_with_attributes(v, updated, (*final(b))@, attrs, state, i);
    lemma_with_attributes(v, updated, (*final(c))@, attrs, state, i);
    lemma_with_attributes(v, all, (*final(d))@, attrs, state, i);
}

proof fn lemma_with_attributes<S, C, Res>(
    v: ValueMapView<S, C>,
    wanted: spec_fn(TrackerView<S>) -> bool,
    points: Seq<Res>,
    attrs: spec_fn(Res) -> Seq<KeyValueView>,
    state: spec_fn(Res) -> S,
    i: int,
)
    requires
        value_map_wf(v),
        reports(v, wanted, points, attrs, state),
        !v.has_no_attribute_value,
    ensures
        0 <= i < points.len() ==> attrs(points[i]).len() > 0,
{
    if 0 <= i < points.len() {
        assert(is_wanted_point(v, wanted, attrs(points[i]), state(points[i])));
    }
}

/// Binding for a set that is not in the map makes the next delta collection report the set, in a state
/// that has taken in nothing, and keep it in the map, so that the handle goes on to lead to it.
pub proof fn law_new_binding_is_reported<
    A: Aggregator,
    Res,
    Delta: FnMut(Vec<KeyValue>, &mut A) -> Res,
>(
    bound: &mut ValueMap<A>,
    attributes: &[KeyValue],
    handle: BoundTracker,
    own: HashedAttributes,
    overflow: HashedAttributes,
    m: &mut ValueMap<A>,
    dest: &mut Vec<Res>,
    delta: Delta,
    attrs: spec_fn(Res) -> Seq<KeyValueView>,
    state: spec_fn(Res) -> A::State,
    left: spec_fn(A::State) -> A::State,
    found: Option<&TrackerEntry<A>>,
)
    requires
        old(bound).wf(),
        attributes@.len() > 0,
        is_set_of(attributes, own),
        is_overflow_set(overflow),
        !old(bound)@.map.attached.contains_key(own@),
        old(bound)@.count < old(bound)@.limit,
        call_ensures(ValueMap::<A>::bind, (bound, attributes), handle),
        *old(m) == *final(bound),
        forall|list: Vec<KeyValue>, aggregator: &mut A, point: Res| #[trigger]
            delta.ensures((list, aggregator), point) ==> attrs(point) == attr_views(list@)
                && state(point) == (*aggregator).view() && (*final(aggregator)).view() == left(
                (*aggregator).view(),
            ),
        call_ensures(ValueMap::<A>::collect_and_reset::<Res, Delta>, (m, dest, delta), ()),
        call_ensures(ValueMap::<A>::tracker, (&*final(m), &handle), found),
    ensures
        has_point(
            final(dest)@,
            attrs,
            state,
            attr_views(own.attrs@),
            A::initial(old(bound)@.config),
        ),
        final(m)@.map.attached.contains_key(own@),
        final(m)@.map.attached[own@] == handle.id(),
        found matches Some(tracker) && {
            &&& !tracker.evicted
            &&& !tracker.has_been_updated
            &&& tracker.aggregator.view() == left(A::initial(old(bound)@.config))
        },
{
    let v = (*final(bound))@;
    law_binding::<A>(bound, attributes, handle, own, overflow);
    law_delta_collection::<A, Res, Delta>(m, dest, delta, attrs, state);
    law_delta_collection_leaves::<A, Res, Delta>(m, dest, delta, left, overflow);
    lemma_has_point(v, (*final(dest))@, attrs, state, own@);
    assert(v.map.attached.contains_key(own@));
}

/// A measurement through a handle whose tracker has left the map is reported by the next delta
/// collection under the attributes that it was made with, where they are in the map or there is room for
/// them.
pub proof fn law_stale_handle_is_reported<
    A: Aggregator,
    Res,
    Delta: FnMut(Vec<KeyValue>, &mut A) -> Res,
>(
    measured: &mut ValueMap<A>,
    handle: BoundTracker,
    found: Option<&TrackerEntry<A>>,
    value: A::PreComputedValue,
    attributes: &[KeyValue],
    own: HashedAttributes,
    overflow: HashedAttributes,
    m: &mut ValueMap<A>,
    dest: &mut Vec<Res>,
    delta: Delta,
    attrs: spec_fn(Res) -> Seq<KeyValueView>,
    state: spec_fn(Res) -> A::State,
)
    requires
        old(measured).wf(),
        attributes@.len() > 0,
        is_set_of(attributes, own),
        is_overflow_set(overflow),
        call_ensures(ValueMap::<A>::tracker, (&*old(measured), &handle), found),
        found matches Some(tracker) ==> tracker.evicted,
        old(measured)@.map.attached.contains_key(own@) || old(measured)@.count < old(
            measured,
        )@.limit,
        call_ensures(ValueMap::<A>::measure_bound, (measured, &handle, value, attributes), ()),
        *old(m) == *final(measured),
        forall|list: Vec<KeyValue>, aggregator: &mut A, point: Res| #[trigger]
            delta.ensures((list, aggregator), point) ==> attrs(point) == attr_views(list@)
                && state(point) == (*aggregator).view(),
        call_ensures(ValueMap::<A>::collect_and_reset::<Res, Delta>, (m, dest, delta), ()),
    ensures
        has_point(
            final(dest)@,
            attrs,
            state,
            attr_views(own.attrs@),
            A::updated(state_before::<A>(old(measured)@, own@), value),
        ),
{
    let v = (*final(measured))@;
    law_measurement_through_stale_handle::<A>(
        measured,
        handle,
        value,
        attributes,
        own,
        overflow,
    );
    law_delta_collection::<A, Res, Delta>(m, dest, delta, attrs, state);
    lemma_has_point(v, (*final(dest))@, attrs, state, own@);
}

/// Of two delta collections with nothing between them the second reports nothing, and leaves no
/// attribute set in the map.
pub proof fn law_second_collection_reports_nothing<
    A: Aggregator,
    Res,
    Delta: FnMut(Vec<KeyValue>, &mut A) -> Res,
>(
    m: &mut ValueMap<A>,
    n: &mut ValueMap<A>,
    a: &mut Vec<Res>,
    b: &mut Vec<Res>,
    delta: Delta,
    attrs: spec_fn(Res) -> Seq<KeyValueView>,
    state: spec_fn(Res) -> A::State,
    left: spec_fn(A::State) -> A::State,
    overflow: HashedAttributes,
)
    requires
        old(m).wf(),
        is_overflow_set(overflow),
        forall|list: Vec<KeyValue>, aggregator: &mut A, point: Res| #[trigger]
            delta.ensures((list, aggregator), point) ==> attrs(point) == attr_views(list@)
                && state(point) == (*aggregator).view() && (*final(aggregator)).view() == left(
                (*aggregator).view(),
            ),
        call_ensures(ValueMap::<A>::collect_and_reset::<Res, Delta>, (m, a, delta), ()),
        *old(n) == *final(m),
        call_ensures(ValueMap::<A>::collect_and_reset::<Res, Delta>, (n, b, delta), ()),
    ensures
        final(b)@.len() == 0,
        final(n)@.map.attached.dom() == Set::<HashedView>::empty(),
        final(n)@.count == 0,
{
    let v = (*final(m))@;
    let points = (*final(b))@;
    let updated = |tracker: TrackerView<A::State>| tracker.has_been_updated;
    law_delta_collection_leaves::<A, Res, Delta>(m, a, delta, left, overflow);
    law_delta_collection_leaves::<A, Res, Delta>(n, b, delta, left, overflow);
    law_delta_collection::<A, Res, Delta>(n, b, delta, attrs, state);
    let after = (*final(n))@;
    assert forall|set: HashedView| !#[trigger] after.map.attached.contains_key(set) by {
        if v.map.attached.contains_key(set) {
            assert((*m)@.map.attached.contains_key(set));
        }
    }
    assert(after.map.attached.dom() =~= Set::empty());
    final(n).lemma_wf();
    assert(counted_sets(after.map) =~= Set::empty());
    if points.len() > 0 {
        assert(is_wanted_point(v, updated, attrs(points[0]), state(points[0])));
        if !(v.has_no_attribute_value && v.no_attribute.has_been_updated) {
            let set = choose|set: HashedView| #[trigger]
                is_point_of(v, set, attrs(points[0]), state(points[0])) && updated(
                    v.map.pool[v.map.attached[set]].tracker,
                );
            assert(v.map.attached.contains_key(set));
            assert((*m)@.map.attached.contains_key(set));
        }
    }
}

/// After a collection that drains the map there is nothing to report.
pub proof fn law_drained_map_reports_nothing<
    A: Aggregator,
    Res,
    Read: FnMut(Vec<KeyValue>, &A) -> Res,
    Drain: FnMut(Vec<KeyValue>, A) -> Res,
>(
    m: &mut ValueMap<A>,
    a: &mut Vec<Res>,
    b: &mut Vec<Res>,
    read: Read,
    drain: Drain,
    attrs: spec_fn(Res) -> Seq<KeyValueView>,
    state: spec_fn(Res) -> A::State,
)
    requires
        old(m).wf(),
        forall|list: Vec<KeyValue>, aggregator: &A, point: Res| #[trigger]
            read.ensures((list, aggregator), point) ==> attrs(point) == attr_views(list@) && state(
                point,
            ) == aggregator.view(),
        call_ensures(ValueMap::<A>::drain_and_reset::<Res, Drain>, (m, a, drain), ()),
        call_ensures(ValueMap::<A>::collect_readonly::<Res, Read>, (&*final(m), b, read), ()),
    ensures
        final(b)@.len() == 0,
{
    let v = (*final(m))@;
    let points = (*final(b))@;
    let all = |tracker: TrackerView<A::State>| true;
    law_draining_collection_leaves::<A, Res, Drain>(m, a, drain);
    law_read_collection::<A, Res, Read>(*final(m), b, read, attrs, state);
    if points.len() > 0 {
        assert(is_wanted_point(v, all, attrs(points[0]), state(points[0])));
    }
}

/// Two measurements whose attributes make the same set add up in one tracker, whatever the order of the
/// attributes.
pub proof fn law_measurements_meet<A: Aggregator>(
    m: &mut ValueMap<A>,
    n: &mut ValueMap<A>,
    x: A::PreComputedValue,
    y: A::PreComputedValue,
    a: &[KeyValue],
    b: &[KeyValue],
    own: HashedAttributes,
    other: HashedAttributes,
    overflow: HashedAttributes,
)
    requires
        old(m).wf(),
        a@.len() > 0,
        b@.len() > 0,
        is_set_of(a, own),
        is_set_of(b, other),
        own@ == other@,
        is_overflow_set(overflow),
        old(m)@.map.attached.contains_key(own@) || old(m)@.count < old(m)@.limit,
        call_ensures(ValueMap::<A>::measure, (m, x, a), ()),
        *old(n) == *final(m),
        call_ensures(ValueMap::<A>::measure, (n, y, b), ()),
    ensures
        final(n)@.map.attached.contains_key(own@),
        final(n)@.map.pool[final(n)@.map.attached[own@]].tracker.aggregator == A::updated(
            A::updated(state_before::<A>(old(m)@, own@), x),
            y,
        ),
        final(n)@.map.attached[own@] == final(m)@.map.attached[own@],
        final(n)@.count == final(m)@.count,
{
    law_measurement::<A>(m, x, a, own, overflow);
    law_measurement::<A>(n, y, b, other, overflow);
}

/// No collection reports more points than the limit allows sets, one for the overflow set, and one for
/// measurements without attributes.
pub proof fn law_collections_keep_to_the_limit<
    A: Aggregator,
    Res,
    Read: FnMut(Vec<KeyValue>, &A) -> Res,
    Drain: FnMut(Vec<KeyValue>, A) -> Res,
>(
    m: &mut ValueMap<A>,
    a: &mut Vec<Res>,
    b: &mut Vec<Res>,
    read: Read,
    drain: Drain,
)
    requires
        old(m).wf(),
        call_ensures(ValueMap::<A>::collect_readonly::<Res, Read>, (&*old(m), a, read), ()),
        call_ensures(ValueMap::<A>::drain_and_reset::<Res, Drain>, (m, b, drain), ()),
    ensures
        final(a)@.len() <= old(m)@.limit + 2,
        final(b)@.len() == final(a)@.len(),
{
    law_points_within_limit(&*m);
}

} // verus!
