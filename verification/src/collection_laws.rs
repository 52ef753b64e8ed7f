//! What each collection from a [`ValueMap`] reports, and what it leaves in the map.

use crate::aggregator::{Aggregator, TrackerView};
use crate::collect::{due_slots, is_due, read_point, taken_point};
use crate::hashed_attributes::{HashedAttributes, HashedView};
use crate::key_value::{attr_views, KeyValue, KeyValueView};
use crate::laws::{distinct_attrs, law_attributes_once};
use crate::map_view::{is_attached, leaves, lemma_leaves_one_more, without_sets, MapView};
use crate::operation_laws::is_overflow_set;
use crate::shard::{has_set, SlotView};
use crate::value_map::{
    due_without_attributes, points_without_attributes, stale_sets, value_map_wf, ValueMap,
    ValueMapView,
};
use vstd::prelude::*;

verus! {

/// The point is about the attribute set `set`, which is in the map, and about the state of its tracker.
pub open spec fn is_point_of<S, C>(
    v: ValueMapView<S, C>,
    set: HashedView,
    attrs: Seq<KeyValueView>,
    state: S,
) -> bool {
    &&& v.map.attached.contains_key(set)
    &&& attrs == set.attrs
    &&& state == v.map.pool[v.map.attached[set]].tracker.aggregator
}

/// A point that says this is about measurements without attributes, or about an attribute set, whose
/// tracker is `wanted`.
pub open spec fn is_wanted_point<S, C>(
    v: ValueMapView<S, C>,
    wanted: spec_fn(TrackerView<S>) -> bool,
    attrs: Seq<KeyValueView>,
    state: S,
) -> bool {
    ||| {
        &&& attrs.len() == 0
        &&& v.has_no_attribute_value
        &&& wanted(v.no_attribute)
        &&& state == v.no_attribute.aggregator
    }
    ||| exists|set: HashedView| #[trigger]
        is_point_of(v, set, attrs, state) && wanted(v.map.pool[v.map.attached[set]].tracker)
}

/// One of the points is about this attribute set.
pub open spec fn has_point_of<S, C, Res>(
    v: ValueMapView<S, C>,
    set: HashedView,
    points: Seq<Res>,
    attrs: spec_fn(Res) -> Seq<KeyValueView>,
    state: spec_fn(Res) -> S,
) -> bool {
    exists|i: int|
        0 <= i < points.len() && is_point_of(v, set, attrs(#[trigger] points[i]), state(points[i]))
}

/// What the points say of a map, where `attrs` and `state` tell what a point says. There is one point
/// for each attribute set whose tracker is `wanted`, with its attributes and its state, and before these
/// one without attributes, where there was a measurement without them and its tracker is `wanted`. No
/// other point is there, and no two of them are about the same attributes.
pub open spec fn reports<S, C, Res>(
    v: ValueMapView<S, C>,
    wanted: spec_fn(TrackerView<S>) -> bool,
    points: Seq<Res>,
    attrs: spec_fn(Res) -> Seq<KeyValueView>,
    state: spec_fn(Res) -> S,
) -> bool {
    &&& forall|i: int|
        0 <= i < points.len() ==> is_wanted_point(
            v,
            wanted,
            attrs(#[trigger] points[i]),
            state(points[i]),
        )
    &&& v.has_no_attribute_value && wanted(v.no_attribute) ==> points.len() > 0 && attrs(
        points[0],
    ).len() == 0
    &&& forall|set: HashedView| #[trigger]
        v.map.attached.contains_key(set) && wanted(v.map.pool[v.map.attached[set]].tracker)
            ==> has_point_of(v, set, points, attrs, state)
    &&& forall|i: int, j: int|
        0 <= i < j < points.len() ==> attrs(#[trigger] points[i]) != attrs(#[trigger] points[j])
}

/// Slots that list the sets with wanted trackers, each once and with its own attributes, and a point
/// for each of them behind the one without attributes, make up what [`reports`] says.
proof fn lemma_reports<A: Aggregator, Res>(
    m: ValueMap<A>,
    wanted: spec_fn(TrackerView<A::State>) -> bool,
    listed: Seq<SlotView>,
    first: nat,
    points: Seq<Res>,
    attrs: spec_fn(Res) -> Seq<KeyValueView>,
    state: spec_fn(Res) -> A::State,
)
    requires
        m.wf(),
        first == if m@.has_no_attribute_value && wanted(m@.no_attribute) {
            1nat
        } else {
            0
        },
        points.len() == first + listed.len(),
        forall|slot: SlotView| #[trigger]
            listed.contains(slot) <==> m.slots().contains(slot) && wanted(
                m@.map.pool[slot.tracker].tracker,
            ),
        distinct_attrs(listed),
        first == 1 ==> attrs(points[0]).len() == 0 && state(points[0])
            == m@.no_attribute.aggregator,
        forall|i: int|
            0 <= i < listed.len() ==> {
                &&& attrs(points.skip(first as int)[i]) == (#[trigger] listed[i]).set.attrs
                &&& state(points.skip(first as int)[i])
                    == m@.map.pool[listed[i].tracker].tracker.aggregator
            },
    ensures
        reports(m@, wanted, points, attrs, state),
{
    let v = m@;
    m.lemma_slots();
    law_attributes_once(&m);
    assert forall|i: int| first <= i < points.len() implies {
        let slot = listed[i - first];
        &&& is_point_of(v, slot.set, attrs(#[trigger] points[i]), state(points[i]))
        &&& wanted(v.map.pool[v.map.attached[slot.set]].tracker)
        &&& attrs(points[i]) == slot.set.attrs
        &&& slot.set.attrs.len() > 0
    } by {
        let slot = listed[i - first];
        assert(points.skip(first as int)[i - first] == points[i]);
        assert(listed.contains(slot));
        let k = m.slots().index_of(slot);
        assert(m.slots()[k] == slot);
    }
    assert forall|set: HashedView| #[trigger]
        v.map.attached.contains_key(set) && wanted(
            v.map.pool[v.map.attached[set]].tracker,
        ) implies has_point_of(v, set, points, attrs, state) by {
        assert(has_set(m.slots(), set));
        let k = choose|k: int| 0 <= k < m.slots().len() && (#[trigger] m.slots()[k]).set == set;
        let slot = m.slots()[k];
        assert(m.slots().contains(slot));
        assert(listed.contains(slot));
        let j = listed.index_of(slot);
        assert(listed[j] == slot);
        let i = j + first;
        assert(is_point_of(v, listed[i - first].set, attrs(points[i]), state(points[i])));
    }
    assert forall|i: int, j: int| 0 <= i < j < points.len() implies attrs(#[trigger] points[i])
        != attrs(#[trigger] points[j]) by {
        assert(attrs(points[j]) == listed[j - first].set.attrs);
        if i >= first {
            assert(attrs(points[i]) == listed[i - first].set.attrs);
            assert(listed[i - first].set.attrs != listed[j - first].set.attrs);
        }
    }
    assert forall|i: int| 0 <= i < points.len() implies is_wanted_point(
        v,
        wanted,
        attrs(#[trigger] points[i]),
        state(points[i]),
    ) by {
        if i >= first {
            assert(is_point_of(
                v,
                listed[i - first].set,
                attrs(points[i]),
                state(points[i]),
            ));
        }
    }
}

/// The slots that are due are those of the trackers that were updated.
proof fn lemma_due_listed<A: Aggregator>(m: ValueMap<A>)
    requires
        m.wf(),
    ensures
        forall|slot: SlotView| #[trigger]
            due_slots(m.slots(), m@.map.pool).contains(slot) <==> m.slots().contains(slot)
                && m@.map.pool[slot.tracker].tracker.has_been_updated,
        distinct_attrs(due_slots(m.slots(), m@.map.pool)),
{
    let slots = m.slots();
    let pool = m@.map.pool;
    let due = |slot: SlotView| is_due(pool[slot.tracker].tracker);
    m.lemma_wf();
    m.lemma_slots();
    law_attributes_once(&m);
    assert(due_slots(slots, pool) == slots.filter(due));
    assert forall|slot: SlotView| #[trigger]
        due_slots(slots, pool).contains(slot) <==> slots.contains(slot)
            && pool[slot.tracker].tracker.has_been_updated by {
        if slots.contains(slot) {
            let k = slots.index_of(slot);
            assert(m@.map.attached.contains_key(slots[k].set));
            if due(slot) {
                slots.lemma_filter_contains(due, k);
            }
        }
        if slots.filter(due).contains(slot) {
            slots.lemma_filter_contains_rev(due, slot);
            slots.lemma_filter_pred(due, slots.filter(due).index_of(slot));
        }
    }
}

/// A collection that only reads reports every attribute set, and the measurements without attributes
/// where there are any.
pub proof fn law_read_collection<A: Aggregator, Res, MapFn: FnMut(Vec<KeyValue>, &A) -> Res>(
    m: ValueMap<A>,
    dest: &mut Vec<Res>,
    map_fn: MapFn,
    attrs: spec_fn(Res) -> Seq<KeyValueView>,
    state: spec_fn(Res) -> A::State,
)
    requires
        m.wf(),
        forall|list: Vec<KeyValue>, aggregator: &A, point: Res| #[trigger]
            map_fn.ensures((list, aggregator), point) ==> attrs(point) == attr_views(list@)
                && state(point) == aggregator.view(),
        call_ensures(ValueMap::<A>::collect_readonly::<Res, MapFn>, (&m, dest, map_fn), ()),
    ensures
        reports(m@, |tracker: TrackerView<A::State>| true, final(dest)@, attrs, state),
{
    let points = (*final(dest))@;
    let listed = m.slots();
    let first = points_without_attributes(m@);
    let all = |tracker: TrackerView<A::State>| true;
    law_attributes_once(&m);
    assert forall|i: int| 0 <= i < listed.len() implies {
        &&& attrs(points.skip(first as int)[i]) == (#[trigger] listed[i]).set.attrs
        &&& state(points.skip(first as int)[i])
            == m@.map.pool[listed[i].tracker].tracker.aggregator
    } by {
        assert(points.skip(first as int)[i] == points[first + i]);
        assert(read_point(
            map_fn,
            listed[i].set.attrs,
            m@.map.pool[listed[i].tracker].tracker.aggregator,
            points[first + i],
        ));
    }
    lemma_reports(m, all, listed, first, points, attrs, state);
}

/// A collection of what was updated reports the attribute sets that were updated since the last one,
/// and the measurements without attributes where there are any since then.
pub proof fn law_updated_collection<
    A: Aggregator,
    Res,
    MapFn: FnMut(Vec<KeyValue>, &mut A) -> Res,
>(
    m: &mut ValueMap<A>,
    dest: &mut Vec<Res>,
    map_fn: MapFn,
    attrs: spec_fn(Res) -> Seq<KeyValueView>,
    state: spec_fn(Res) -> A::State,
)
    requires
        old(m).wf(),
        forall|list: Vec<KeyValue>, aggregator: &mut A, point: Res| #[trigger]
            map_fn.ensures((list, aggregator), point) ==> attrs(point) == attr_views(list@)
                && state(point) == (*aggregator).view(),
        call_ensures(ValueMap::<A>::collect_updated::<Res, MapFn>, (m, dest, map_fn), ()),
    ensures
        reports(
            old(m)@,
            |tracker: TrackerView<A::State>| tracker.has_been_updated,
            final(dest)@,
            attrs,
            state,
        ),
{
    let before = *m;
    let points = (*final(dest))@;
    let listed = due_slots(before.slots(), before@.map.pool);
    let first = due_without_attributes(before@);
    let updated = |tracker: TrackerView<A::State>| tracker.has_been_updated;
    lemma_due_listed(before);
    assert forall|i: int| 0 <= i < listed.len() implies {
        &&& attrs(points.skip(first as int)[i]) == (#[trigger] listed[i]).set.attrs
        &&& state(points.skip(first as int)[i])
            == before@.map.pool[listed[i].tracker].tracker.aggregator
    } by {
        assert(before@.map.attached.contains_key(listed[i].set));
    }
    lemma_reports(before, updated, listed, first, points, attrs, state);
}

/// A delta collection reports the attribute sets that were updated since the last one, and the
/// measurements without attributes where there are any since then.
pub proof fn law_delta_collection<
    A: Aggregator,
    Res,
    MapFn: FnMut(Vec<KeyValue>, &mut A) -> Res,
>(
    m: &mut ValueMap<A>,
    dest: &mut Vec<Res>,
    map_fn: MapFn,
    attrs: spec_fn(Res) -> Seq<KeyValueView>,
    state: spec_fn(Res) -> A::State,
)
    requires
        old(m).wf(),
        forall|list: Vec<KeyValue>, aggregator: &mut A, point: Res| #[trigger]
            map_fn.ensures((list, aggregator), point) ==> attrs(point) == attr_views(list@)
                && state(point) == (*aggregator).view(),
        call_ensures(ValueMap::<A>::collect_and_reset::<Res, MapFn>, (m, dest, map_fn), ()),
    ensures
        reports(
            old(m)@,
            |tracker: TrackerView<A::State>| tracker.has_been_updated,
            final(dest)@,
            attrs,
            state,
        ),
{
    let before = *m;
    let points = (*final(dest))@;
    let listed = due_slots(before.slots(), before@.map.pool);
    let first = due_without_attributes(before@);
    let updated = |tracker: TrackerView<A::State>| tracker.has_been_updated;
    lemma_due_listed(before);
    assert forall|i: int| 0 <= i < listed.len() implies {
        &&& attrs(points.skip(first as int)[i]) == (#[trigger] listed[i]).set.attrs
        &&& state(points.skip(first as int)[i])
            == before@.map.pool[listed[i].tracker].tracker.aggregator
    } by {
        assert(before@.map.attached.contains_key(listed[i].set));
    }
    lemma_reports(before, updated, listed, first, points, attrs, state);
}

/// A collection that drains the map reports every attribute set, and the measurements without
/// attributes where there are any.
pub proof fn law_draining_collection<A: Aggregator, Res, MapFn: FnMut(Vec<KeyValue>, A) -> Res>(
    m: &mut ValueMap<A>,
    dest: &mut Vec<Res>,
    map_fn: MapFn,
    attrs: spec_fn(Res) -> Seq<KeyValueView>,
    state: spec_fn(Res) -> A::State,
)
    requires
        old(m).wf(),
        forall|list: Vec<KeyValue>, aggregator: A, point: Res| #[trigger]
            map_fn.ensures((list, aggregator), point) ==> attrs(point) == attr_views(list@)
                && state(point) == aggregator.view(),
        call_ensures(ValueMap::<A>::drain_and_reset::<Res, MapFn>, (m, dest, map_fn), ()),
    ensures
        reports(old(m)@, |tracker: TrackerView<A::State>| true, final(dest)@, attrs, state),
{
    let before = *m;
    let points = (*final(dest))@;
    let listed = before.slots();
    let first = points_without_attributes(before@);
    let all = |tracker: TrackerView<A::State>| true;
    law_attributes_once(&before);
    assert forall|i: int| 0 <= i < listed.len() implies {
        &&& attrs(points.skip(first as int)[i]) == (#[trigger] listed[i]).set.attrs
        &&& state(points.skip(first as int)[i])
            == before@.map.pool[listed[i].tracker].tracker.aggregator
    } by {
        assert(points.skip(first as int)[i] == points[first + i]);
        assert(taken_point(
            map_fn,
            listed[i].set.attrs,
            before@.map.pool[listed[i].tracker].tracker.aggregator,
            points[first + i],
        ));
    }
    lemma_reports(before, all, listed, first, points, attrs, state);
}

/// The tracker of a set that has left the map: it stays exactly where something else holds it, is marked
/// as evicted, and has lost the hold of the map. Its state is `state`.
pub open spec fn has_left<S>(before: MapView<S>, after: MapView<S>, id: usize, state: S) -> bool {
    &&& after.pool.contains_key(id) <==> before.pool[id].holders >= 2
    &&& before.pool[id].holders >= 2 ==> {
        &&& after.pool[id].tracker.evicted
        &&& after.pool[id].tracker.aggregator == state
        &&& after.pool[id].tracker.has_been_updated == before.pool[id].tracker.has_been_updated
        &&& before.pool[id].holders < usize::MAX ==> after.pool[id].holders
            == before.pool[id].holders - 1
        &&& before.pool[id].holders >= usize::MAX ==> after.pool[id].holders
            == before.pool[id].holders
    }
}

/// A tracker that a point was made of: its state is `state`, it counts as not updated, and its mark and
/// its holders are as before.
pub open spec fn was_reported<S>(before: MapView<S>, after: MapView<S>, id: usize, state: S) -> bool {
    &&& after.pool.contains_key(id)
    &&& after.pool[id].tracker.aggregator == state
    &&& !after.pool[id].tracker.has_been_updated
    &&& after.pool[id].tracker.evicted == before.pool[id].tracker.evicted
    &&& after.pool[id].holders == before.pool[id].holders
}

/// The trackers that belong to no set are the same.
pub open spec fn same_detached<S>(before: MapView<S>, after: MapView<S>) -> bool {
    forall|id: usize|
        !is_attached(before, id) ==> {
            &&& #[trigger] after.pool.contains_key(id) <==> before.pool.contains_key(id)
            &&& before.pool.contains_key(id) ==> after.pool[id] == before.pool[id]
        }
}

/// The tracker without attributes after a delta collection: where a point was made of it, its state is
/// what making the point has left, and it counts as not updated. Else it is the same.
pub open spec fn left_without_attributes<S, C>(
    before: ValueMapView<S, C>,
    after: ValueMapView<S, C>,
    left: spec_fn(S) -> S,
) -> bool {
    if before.has_no_attribute_value && before.no_attribute.has_been_updated {
        &&& after.no_attribute.aggregator == left(before.no_attribute.aggregator)
        &&& !after.no_attribute.has_been_updated
        &&& after.no_attribute.evicted == before.no_attribute.evicted
    } else {
        after.no_attribute == before.no_attribute
    }
}

/// What evicting stale sets leaves. The sets that were not updated since the last collection leave, with
/// their trackers marked. The others stay as they are. The count goes down by the sets that left, apart
/// from the overflow set.
pub proof fn law_eviction<A: Aggregator>(m: &mut ValueMap<A>, overflow: HashedAttributes)
    requires
        old(m).wf(),
        is_overflow_set(overflow),
        call_ensures(ValueMap::<A>::evict_stale, (m,), ()),
    ensures
        ({
            let (before, after) = (old(m)@, final(m)@);
            let gone = before.map.attached.dom().difference(after.map.attached.dom());
            &&& forall|set: HashedView| #[trigger]
                before.map.attached.contains_key(set) ==> {
                    let id = before.map.attached[set];
                    if before.map.pool[id].tracker.has_been_updated {
                        &&& after.map.attached.contains_key(set)
                        &&& after.map.attached[set] == id
                        &&& after.map.pool.contains_key(id)
                        &&& after.map.pool[id] == before.map.pool[id]
                    } else {
                        &&& !after.map.attached.contains_key(set)
                        &&& has_left(
                            before.map,
                            after.map,
                            id,
                            before.map.pool[id].tracker.aggregator,
                        )
                    }
                }
            &&& forall|set: HashedView| #[trigger]
                after.map.attached.contains_key(set) ==> before.map.attached.contains_key(set)
            &&& same_detached(before.map, after.map)
            &&& after.count == before.count - gone.remove(overflow@).len()
            &&& after.has_no_attribute_value == before.has_no_attribute_value
            &&& after.no_attribute == before.no_attribute
            &&& after.config == before.config
            &&& after.limit == before.limit
        }),
        final(m).wf(),
{
    m.lemma_wf();
    let (before, after) = ((*m)@, (*final(m))@);
    lemma_after_eviction(before, after.map);
    let gone = before.map.attached.dom().difference(after.map.attached.dom());
    assert(gone =~= stale_sets(before.map));
}

/// The sets and trackers after an eviction.
proof fn lemma_after_eviction<S, C>(before: ValueMapView<S, C>, after: MapView<S>)
    requires
        value_map_wf(before),
        after == without_sets(before.map, stale_sets(before.map)),
    ensures
        forall|set: HashedView| #[trigger]
            before.map.attached.contains_key(set) ==> {
                let id = before.map.attached[set];
                &&& before.map.pool.contains_key(id)
                &&& is_attached(before.map, id)
                &&& if before.map.pool[id].tracker.has_been_updated {
                    &&& after.attached.contains_key(set)
                    &&& after.attached[set] == id
                    &&& after.pool.contains_key(id)
                    &&& after.pool[id] == before.map.pool[id]
                } else {
                    &&& !after.attached.contains_key(set)
                    &&& has_left(before.map, after, id, before.map.pool[id].tracker.aggregator)
                }
            },
        same_detached(before.map, after),
{
    let m = before.map;
    let stale = stale_sets(m);
    assert forall|set: HashedView| #[trigger] m.attached.contains_key(set) implies {
        let id = m.attached[set];
        &&& m.pool.contains_key(id)
        &&& is_attached(m, id)
        &&& if m.pool[id].tracker.has_been_updated {
            &&& after.attached.contains_key(set)
            &&& after.attached[set] == id
            &&& after.pool.contains_key(id)
            &&& after.pool[id] == m.pool[id]
        } else {
            &&& !after.attached.contains_key(set)
            &&& has_left(m, after, id, m.pool[id].tracker.aggregator)
        }
    } by {
        let id = m.attached[set];
        if m.pool[id].tracker.has_been_updated {
            lemma_leaves_one_more(m, stale, set);
        } else {
            assert(stale.contains(set));
            assert(leaves(m, stale, id));
        }
    }
    assert forall|id: usize| !is_attached(m, id) implies {
        &&& #[trigger] after.pool.contains_key(id) <==> m.pool.contains_key(id)
        &&& m.pool.contains_key(id) ==> after.pool[id] == m.pool[id]
    } by {
        assert(!leaves(m, stale, id));
    }
}

/// What a delta collection leaves. The sets that were updated since the last one stay with their
/// trackers, which count as not updated, in the state that making their points has left. The others
/// leave, with their trackers marked. The count goes down by the sets that left, apart from the overflow
/// set.
pub proof fn law_delta_collection_leaves<
    A: Aggregator,
    Res,
    MapFn: FnMut(Vec<KeyValue>, &mut A) -> Res,
>(
    m: &mut ValueMap<A>,
    dest: &mut Vec<Res>,
    map_fn: MapFn,
    left: spec_fn(A::State) -> A::State,
    overflow: HashedAttributes,
)
    requires
        old(m).wf(),
        is_overflow_set(overflow),
        forall|list: Vec<KeyValue>, aggregator: &mut A, point: Res| #[trigger]
            map_fn.ensures((list, aggregator), point) ==> (*final(aggregator)).view() == left(
                (*aggregator).view(),
            ),
        call_ensures(ValueMap::<A>::collect_and_reset::<Res, MapFn>, (m, dest, map_fn), ()),
    ensures
        ({
            let (before, after) = (old(m)@, final(m)@);
            let gone = before.map.attached.dom().difference(after.map.attached.dom());
            &&& forall|set: HashedView| #[trigger]
                before.map.attached.contains_key(set) ==> {
                    let id = before.map.attached[set];
                    let state = before.map.pool[id].tracker.aggregator;
                    if before.map.pool[id].tracker.has_been_updated {
                        &&& after.map.attached.contains_key(set)
                        &&& after.map.attached[set] == id
                        &&& was_reported(before.map, after.map, id, left(state))
                    } else {
                        &&& !after.map.attached.contains_key(set)
                        &&& has_left(before.map, after.map, id, state)
                    }
                }
            &&& forall|set: HashedView| #[trigger]
                after.map.attached.contains_key(set) ==> before.map.attached.contains_key(set)
            &&& same_detached(before.map, after.map)
            &&& after.count == before.count - gone.remove(overflow@).len()
            &&& after.has_no_attribute_value == before.has_no_attribute_value
            &&& left_without_attributes(before, after, left)
            &&& after.config == before.config
            &&& after.limit == before.limit
        }),
        final(m).wf(),
{
    m.lemma_wf();
    m.lemma_slots();
    let old_map = *m;
    let (before, after) = ((*m)@, (*final(m))@);
    let stale = stale_sets(before.map);
    let mid = without_sets(before.map, stale);
    let due = due_slots(old_map.slots(), before.map.pool);
    lemma_due_listed(old_map);
    lemma_after_eviction(before, mid);
    let gone = before.map.attached.dom().difference(after.map.attached.dom());
    assert(gone =~= stale);
    assert forall|set: HashedView| #[trigger]
        before.map.attached.contains_key(set) implies {
        let id = before.map.attached[set];
        let state = before.map.pool[id].tracker.aggregator;
        if before.map.pool[id].tracker.has_been_updated {
            &&& after.map.attached.contains_key(set)
            &&& after.map.attached[set] == id
            &&& was_reported(before.map, after.map, id, left(state))
        } else {
            &&& !after.map.attached.contains_key(set)
            &&& has_left(before.map, after.map, id, state)
        }
    } by {
        let id = before.map.attached[set];
        assert(mid.pool.dom().contains(id) <==> after.map.pool.dom().contains(id));
        if before.map.pool[id].tracker.has_been_updated {
            let k = choose|k: int|
                0 <= k < old_map.slots().len() && (#[trigger] old_map.slots()[k]).set == set;
            let slot = old_map.slots()[k];
            assert(old_map.slots().contains(slot));
            assert(due.contains(slot));
            let i = due.index_of(slot);
            assert(due[i] == slot);
            assert(before.map.attached.contains_key(due[i].set));
            assert(after.map.pool.contains_key(id));
        } else {
            assert(after.map.pool.contains_key(id) ==> !is_due(mid.pool[id].tracker));
        }
    }
    assert forall|id: usize| !is_attached(before.map, id) implies {
        &&& #[trigger] after.map.pool.contains_key(id) <==> before.map.pool.contains_key(id)
        &&& before.map.pool.contains_key(id) ==> after.map.pool[id] == before.map.pool[id]
    } by {
        assert(mid.pool.contains_key(id) <==> before.map.pool.contains_key(id));
        assert(mid.pool.dom().contains(id) <==> after.map.pool.dom().contains(id));
    }
}

/// What a collection of what was updated leaves: all sets stay with their trackers, and those that were
/// updated count as not updated, in the state that making their points has left.
pub proof fn law_updated_collection_leaves<
    A: Aggregator,
    Res,
    MapFn: FnMut(Vec<KeyValue>, &mut A) -> Res,
>(
    m: &mut ValueMap<A>,
    dest: &mut Vec<Res>,
    map_fn: MapFn,
    left: spec_fn(A::State) -> A::State,
)
    requires
        old(m).wf(),
        forall|list: Vec<KeyValue>, aggregator: &mut A, point: Res| #[trigger]
            map_fn.ensures((list, aggregator), point) ==> (*final(aggregator)).view() == left(
                (*aggregator).view(),
            ),
        call_ensures(ValueMap::<A>::collect_updated::<Res, MapFn>, (m, dest, map_fn), ()),
    ensures
        ({
            let (before, after) = (old(m)@, final(m)@);
            &&& forall|set: HashedView| #[trigger]
                before.map.attached.contains_key(set) ==> {
                    let id = before.map.attached[set];
                    if before.map.pool[id].tracker.has_been_updated {
                        was_reported(
                            before.map,
                            after.map,
                            id,
                            left(before.map.pool[id].tracker.aggregator),
                        )
                    } else {
                        after.map.pool.contains_key(id) && after.map.pool[id]
                            == before.map.pool[id]
                    }
                }
            &&& after.map.attached == before.map.attached
            &&& same_detached(before.map, after.map)
            &&& after.count == before.count
            &&& after.has_no_attribute_value == before.has_no_attribute_value
            &&& left_without_attributes(before, after, left)
            &&& after.config == before.config
            &&& after.limit == before.limit
        }),
        final(m).wf(),
{
    m.lemma_wf();
    m.lemma_slots();
    let old_map = *m;
    let (before, after) = ((*m)@, (*final(m))@);
    let due = due_slots(old_map.slots(), before.map.pool);
    lemma_due_listed(old_map);
    assert forall|set: HashedView| #[trigger]
        before.map.attached.contains_key(set) implies {
        let id = before.map.attached[set];
        if before.map.pool[id].tracker.has_been_updated {
            was_reported(
                before.map,
                after.map,
                id,
                left(before.map.pool[id].tracker.aggregator),
            )
        } else {
            after.map.pool.contains_key(id) && after.map.pool[id] == before.map.pool[id]
        }
    } by {
        let id = before.map.attached[set];
        assert(before.map.pool.dom().contains(id));
        assert(after.map.pool.contains_key(id));
        if before.map.pool[id].tracker.has_been_updated {
            let k = choose|k: int|
                0 <= k < old_map.slots().len() && (#[trigger] old_map.slots()[k]).set == set;
            let slot = old_map.slots()[k];
            assert(old_map.slots().contains(slot));
            assert(due.contains(slot));
            let i = due.index_of(slot);
            assert(due[i] == slot);
            assert(before.map.attached.contains_key(due[i].set));
        }
    }
    assert forall|id: usize| !is_attached(before.map, id) implies {
        &&& #[trigger] after.map.pool.contains_key(id) <==> before.map.pool.contains_key(id)
        &&& before.map.pool.contains_key(id) ==> after.map.pool[id] == before.map.pool[id]
    } by {
        assert(before.map.pool.dom().contains(id) <==> after.map.pool.dom().contains(id));
    }
}

/// What a collection that drains the map leaves: no sets, a count of zero, and no measurement without
/// attributes. The trackers that handles hold are reset and marked, and that without attributes is
/// reset where there was a measurement.
pub proof fn law_draining_collection_leaves<
    A: Aggregator,
    Res,
    MapFn: FnMut(Vec<KeyValue>, A) -> Res,
>(m: &mut ValueMap<A>, dest: &mut Vec<Res>, map_fn: MapFn)
    requires
        old(m).wf(),
        call_ensures(ValueMap::<A>::drain_and_reset::<Res, MapFn>, (m, dest, map_fn), ()),
    ensures
        ({
            let (before, after) = (old(m)@, final(m)@);
            let initial = A::initial(before.config);
            &&& forall|set: HashedView| !#[trigger] after.map.attached.contains_key(set)
            &&& forall|set: HashedView| #[trigger]
                before.map.attached.contains_key(set) ==> has_left(
                    before.map,
                    after.map,
                    before.map.attached[set],
                    initial,
                )
            &&& same_detached(before.map, after.map)
            &&& after.count == 0
            &&& !after.has_no_attribute_value
            &&& before.has_no_attribute_value ==> {
                &&& after.no_attribute.aggregator == initial
                &&& after.no_attribute.has_been_updated == before.no_attribute.has_been_updated
                &&& after.no_attribute.evicted == before.no_attribute.evicted
            }
            &&& !before.has_no_attribute_value ==> after.no_attribute == before.no_attribute
            &&& after.config == before.config
            &&& after.limit == before.limit
        }),
        final(m).wf(),
{
    m.lemma_wf();
    let before = (*m)@;
    assert forall|id: usize| before.map.pool.contains_key(id) && !is_attached(
        before.map,
        id,
    ) implies (#[trigger] before.map.pool[id]).tracker.evicted by {
        assert(before.map.pool.contains_key(id));
    }
}

} // verus!
