//! What each operation on a [`ValueMap`] does, told by what the map holds before and after it.

use crate::aggregator::{Aggregator, TrackerEntry};
use crate::hashed_attributes::{stream_overflow_attributes, HashedAttributes, HashedView};
use crate::key_value::{attr_views, KeyValue};
use crate::map_view::is_attached;
use crate::sharded_map::BoundTracker;
use crate::value_map::{
    capacity_per_shard, counted_sets, ValueMap, ValueMapView, DEFAULT_CARDINALITY_LIMIT,
};
use vstd::prelude::*;

verus! {

/// `overflow` is the set under which measurements beyond the limit are counted.
pub open spec fn is_overflow_set(overflow: HashedAttributes) -> bool {
    exists|list: Vec<KeyValue>|
        call_ensures(stream_overflow_attributes, (), list) && #[trigger] call_ensures(
            HashedAttributes::from_sorted,
            (list,),
            overflow,
        )
}

/// `own` is the set of these attributes.
pub open spec fn is_set_of(attributes: &[KeyValue], own: HashedAttributes) -> bool {
    call_ensures(HashedAttributes::from_raw, (attributes,), own)
}

/// Apart from the count, the maps differ at most in the set `set` and in its tracker, which is at
/// `id` afterwards.
pub open spec fn same_elsewhere<S, C>(
    before: ValueMapView<S, C>,
    after: ValueMapView<S, C>,
    set: HashedView,
    id: usize,
) -> bool {
    &&& after.has_no_attribute_value == before.has_no_attribute_value
    &&& after.no_attribute == before.no_attribute
    &&& after.config == before.config
    &&& after.limit == before.limit
    &&& after.map.attached.contains_key(set)
    &&& after.map.attached[set] == id
    &&& after.map.pool.contains_key(id)
    &&& forall|other: HashedView|
        other != set ==> {
            &&& #[trigger] after.map.attached.contains_key(other)
                <==> before.map.attached.contains_key(other)
            &&& before.map.attached.contains_key(other) ==> after.map.attached[other]
                == before.map.attached[other]
        }
    &&& forall|i: usize|
        i != id ==> {
            &&& #[trigger] after.map.pool.contains_key(i) <==> before.map.pool.contains_key(i)
            &&& before.map.pool.contains_key(i) ==> after.map.pool[i] == before.map.pool[i]
        }
}

/// A measurement of `value` has reached the tracker of `set`. Where the set had none, it has one now,
/// which nothing but the map holds and which has taken in this value alone.
pub open spec fn value_reaches<A: Aggregator>(
    before: ValueMapView<A::State, A::InitConfig>,
    after: ValueMapView<A::State, A::InitConfig>,
    set: HashedView,
    value: A::PreComputedValue,
) -> bool {
    let id = after.map.attached[set];
    let cell = after.map.pool[id];
    &&& same_elsewhere(before, after, set, id)
    &&& cell.tracker.has_been_updated
    &&& !cell.tracker.evicted
    &&& before.map.attached.contains_key(set) ==> {
        &&& before.map.attached[set] == id
        &&& cell.holders == before.map.pool[id].holders
        &&& cell.tracker.aggregator == A::updated(before.map.pool[id].tracker.aggregator, value)
    }
    &&& !before.map.attached.contains_key(set) ==> {
        &&& !before.map.pool.contains_key(id)
        &&& cell.holders == 1
        &&& cell.tracker.aggregator == A::updated(A::initial(before.config), value)
    }
}

/// The count after `own` was looked up: one more exactly where the set is new, there is room for it,
/// and it is not the overflow set.
pub open spec fn count_grows<S, C>(
    before: ValueMapView<S, C>,
    after: ValueMapView<S, C>,
    own: HashedView,
    overflow: HashedView,
) -> bool {
    if before.map.attached.contains_key(own) || before.count >= before.limit || own == overflow {
        after.count == before.count
    } else {
        after.count == before.count + 1
    }
}

/// What a measurement with attributes does. It reaches the tracker of its own set, where that is in
/// the map or there is room for it, and else the tracker of the overflow set. Nothing else changes.
pub proof fn law_measurement<A: Aggregator>(
    m: &mut ValueMap<A>,
    value: A::PreComputedValue,
    attributes: &[KeyValue],
    own: HashedAttributes,
    overflow: HashedAttributes,
)
    requires
        old(m).wf(),
        attributes@.len() > 0,
        is_set_of(attributes, own),
        is_overflow_set(overflow),
        call_ensures(ValueMap::<A>::measure, (m, value, attributes), ()),
    ensures
        old(m)@.map.attached.contains_key(own@) || old(m)@.count < old(m)@.limit
            ==> value_reaches::<A>(old(m)@, final(m)@, own@, value),
        !old(m)@.map.attached.contains_key(own@) && old(m)@.count >= old(m)@.limit
            ==> value_reaches::<A>(old(m)@, final(m)@, overflow@, value),
        count_grows(old(m)@, final(m)@, own@, overflow@),
        final(m).wf(),
{
    m.lemma_wf();
    assert(attr_views(attributes@).len() == attributes@.len());
}

/// What a measurement without attributes does. It reaches the tracker that is kept for these, which
/// counts as updated and from then on as measured. Nothing else changes.
pub proof fn law_measurement_without_attributes<A: Aggregator>(
    m: &mut ValueMap<A>,
    value: A::PreComputedValue,
    attributes: &[KeyValue],
)
    requires
        old(m).wf(),
        attributes@.len() == 0,
        call_ensures(ValueMap::<A>::measure, (m, value, attributes), ()),
    ensures
        final(m)@.has_no_attribute_value,
        final(m)@.no_attribute.has_been_updated,
        final(m)@.no_attribute.evicted == old(m)@.no_attribute.evicted,
        final(m)@.no_attribute.aggregator == A::updated(old(m)@.no_attribute.aggregator, value),
        final(m)@.map == old(m)@.map,
        final(m)@.count == old(m)@.count,
        final(m)@.config == old(m)@.config,
        final(m)@.limit == old(m)@.limit,
        final(m).wf(),
{
    assert(attr_views(attributes@).len() == attributes@.len());
}

/// A handle to the tracker of `set` was given out. A tracker that was there stays as it is, with one
/// holder more. A new one has taken in no value, is due at the next collection, and is held by the map
/// and the handle.
pub open spec fn handle_reaches<A: Aggregator>(
    before: ValueMapView<A::State, A::InitConfig>,
    after: ValueMapView<A::State, A::InitConfig>,
    set: HashedView,
    id: usize,
) -> bool {
    let cell = after.map.pool[id];
    &&& same_elsewhere(before, after, set, id)
    &&& !cell.tracker.evicted
    &&& before.map.attached.contains_key(set) ==> {
        &&& before.map.attached[set] == id
        &&& cell.tracker == before.map.pool[id].tracker
        &&& before.map.pool[id].holders < usize::MAX ==> cell.holders
            == before.map.pool[id].holders + 1
        &&& before.map.pool[id].holders >= usize::MAX ==> cell.holders
            == before.map.pool[id].holders
    }
    &&& !before.map.attached.contains_key(set) ==> {
        &&& !before.map.pool.contains_key(id)
        &&& cell.holders == 2
        &&& cell.tracker.has_been_updated
        &&& cell.tracker.aggregator == A::initial(before.config)
    }
}

/// What giving out a handle does. It reaches the tracker that a measurement with these attributes
/// would reach. A set that is new counts as updated at once, so that the next delta collection reports
/// it and keeps it. Nothing else changes.
pub proof fn law_binding<A: Aggregator>(
    m: &mut ValueMap<A>,
    attributes: &[KeyValue],
    handle: BoundTracker,
    own: HashedAttributes,
    overflow: HashedAttributes,
)
    requires
        old(m).wf(),
        attributes@.len() > 0,
        is_set_of(attributes, own),
        is_overflow_set(overflow),
        call_ensures(ValueMap::<A>::bind, (m, attributes), handle),
    ensures
        old(m)@.map.attached.contains_key(own@) || old(m)@.count < old(m)@.limit
            ==> handle_reaches::<A>(old(m)@, final(m)@, own@, handle.id()),
        !old(m)@.map.attached.contains_key(own@) && old(m)@.count >= old(m)@.limit
            ==> handle_reaches::<A>(old(m)@, final(m)@, overflow@, handle.id()),
        count_grows(old(m)@, final(m)@, own@, overflow@),
        final(m).wf(),
{
    m.lemma_wf();
    assert(attr_views(attributes@).len() == attributes@.len());
}

/// What a measurement through a handle does whose tracker is in the map: it reaches that tracker, and
/// nothing else changes. The attributes play no part.
pub proof fn law_measurement_through_handle<A: Aggregator>(
    m: &mut ValueMap<A>,
    handle: BoundTracker,
    value: A::PreComputedValue,
    attributes: &[KeyValue],
)
    requires
        old(m).wf(),
        old(m)@.map.pool.contains_key(handle.id()),
        !old(m)@.map.pool[handle.id()].tracker.evicted,
        call_ensures(ValueMap::<A>::measure_bound, (m, &handle, value, attributes), ()),
    ensures
        exists|set: HashedView|
            {
                &&& #[trigger] old(m)@.map.attached.contains_key(set)
                &&& old(m)@.map.attached[set] == handle.id()
                &&& value_reaches::<A>(old(m)@, final(m)@, set, value)
            },
        final(m)@.count == old(m)@.count,
        final(m).wf(),
{
    m.lemma_wf();
    let v = (*m)@;
    assert(is_attached(v.map, handle.id()));
    let set = choose|set: HashedView|
        v.map.attached.contains_key(set) && #[trigger] v.map.attached[set] == handle.id();
    assert(v.map.attached.contains_key(set));
    assert(value_reaches::<A>(v, (*final(m))@, set, value));
}

/// What a measurement through a handle does whose tracker has left the map: the same as a measurement
/// with the attributes that the handle was bound with, under their own set wherever a measurement would
/// be counted there.
pub proof fn law_measurement_through_stale_handle<A: Aggregator>(
    m: &mut ValueMap<A>,
    handle: BoundTracker,
    value: A::PreComputedValue,
    attributes: &[KeyValue],
    own: HashedAttributes,
    overflow: HashedAttributes,
)
    requires
        old(m).wf(),
        attributes@.len() > 0,
        !old(m)@.map.pool.contains_key(handle.id())
            || old(m)@.map.pool[handle.id()].tracker.evicted,
        is_set_of(attributes, own),
        is_overflow_set(overflow),
        call_ensures(ValueMap::<A>::measure_bound, (m, &handle, value, attributes), ()),
    ensures
        old(m)@.map.attached.contains_key(own@) || old(m)@.count < old(m)@.limit
            ==> value_reaches::<A>(old(m)@, final(m)@, own@, value),
        !old(m)@.map.attached.contains_key(own@) && old(m)@.count >= old(m)@.limit
            ==> value_reaches::<A>(old(m)@, final(m)@, overflow@, value),
        count_grows(old(m)@, final(m)@, own@, overflow@),
        final(m).wf(),
{
    m.lemma_wf();
    assert(attr_views(attributes@).len() == attributes@.len());
}

/// Where the tracker of a handle has left the map and there are no attributes, the measurement is one
/// without attributes.
pub proof fn law_measurement_through_stale_handle_without_attributes<A: Aggregator>(
    m: &mut ValueMap<A>,
    handle: BoundTracker,
    value: A::PreComputedValue,
    attributes: &[KeyValue],
)
    requires
        old(m).wf(),
        attributes@.len() == 0,
        !old(m)@.map.pool.contains_key(handle.id())
            || old(m)@.map.pool[handle.id()].tracker.evicted,
        call_ensures(ValueMap::<A>::measure_bound, (m, &handle, value, attributes), ()),
    ensures
        final(m)@.has_no_attribute_value,
        final(m)@.no_attribute.has_been_updated,
        final(m)@.no_attribute.evicted == old(m)@.no_attribute.evicted,
        final(m)@.no_attribute.aggregator == A::updated(old(m)@.no_attribute.aggregator, value),
        final(m)@.map == old(m)@.map,
        final(m)@.count == old(m)@.count,
        final(m)@.config == old(m)@.config,
        final(m)@.limit == old(m)@.limit,
        final(m).wf(),
{
    assert(attr_views(attributes@).len() == attributes@.len());
}

/// What reading the tracker behind a handle gives: the tracker, as long as anything holds it.
pub proof fn law_tracker_is_read<A: Aggregator>(
    m: ValueMap<A>,
    handle: BoundTracker,
    found: Option<&TrackerEntry<A>>,
)
    requires
        call_ensures(ValueMap::<A>::tracker, (&m, &handle), found),
    ensures
        found is Some <==> m@.map.pool.contains_key(handle.id()),
        found matches Some(tracker) ==> {
            let seen = m@.map.pool[handle.id()].tracker;
            &&& tracker.aggregator.view() == seen.aggregator
            &&& tracker.has_been_updated == seen.has_been_updated
            &&& tracker.evicted == seen.evicted
        },
{
}

/// Right after `bind` for a set that was not in the map the handle reads a tracker that counts as
/// updated, is not evicted, and has taken in no value.
pub proof fn law_new_binding_is_read<A: Aggregator>(
    m: &mut ValueMap<A>,
    attributes: &[KeyValue],
    handle: BoundTracker,
    own: HashedAttributes,
    found: Option<&TrackerEntry<A>>,
)
    requires
        old(m).wf(),
        attributes@.len() > 0,
        is_set_of(attributes, own),
        !old(m)@.map.attached.contains_key(own@),
        old(m)@.count < old(m)@.limit,
        call_ensures(ValueMap::<A>::bind, (m, attributes), handle),
        call_ensures(ValueMap::<A>::tracker, (&*final(m), &handle), found),
    ensures
        found matches Some(tracker) && {
            &&& tracker.has_been_updated
            &&& !tracker.evicted
            &&& tracker.aggregator.view() == A::initial(old(m)@.config)
        },
{
    assert(attr_views(attributes@).len() == attributes@.len());
}

/// A value measured through a handle is read through it, on top of what the tracker held before,
/// as long as the tracker is in the map.
pub proof fn law_measured_is_read<A: Aggregator>(
    m: &mut ValueMap<A>,
    handle: BoundTracker,
    value: A::PreComputedValue,
    attributes: &[KeyValue],
    before: Option<&TrackerEntry<A>>,
    after: Option<&TrackerEntry<A>>,
)
    requires
        old(m).wf(),
        call_ensures(ValueMap::<A>::tracker, (&*old(m), &handle), before),
        before matches Some(tracker) && !tracker.evicted,
        call_ensures(ValueMap::<A>::measure_bound, (m, &handle, value, attributes), ()),
        call_ensures(ValueMap::<A>::tracker, (&*final(m), &handle), after),
    ensures
        after matches Some(tracker) && {
            &&& tracker.has_been_updated
            &&& !tracker.evicted
            &&& tracker.aggregator.view() == A::updated(before->0.aggregator.view(), value)
        },
{
}

/// What changing the aggregator behind a handle does: the state of that tracker becomes what the
/// caller has made of it, its flags and holders stay, and nothing else changes. Where nothing holds a
/// tracker there any more, nothing changes.
pub proof fn law_aggregator_is_changed<A: Aggregator>(
    m: &mut ValueMap<A>,
    handle: BoundTracker,
    found: Option<&mut A>,
)
    requires
        old(m).wf(),
        call_ensures(ValueMap::<A>::aggregator_mut, (m, &handle), found),
    ensures
        found is Some <==> old(m)@.map.pool.contains_key(handle.id()),
        found is None ==> final(m)@ == old(m)@,
        found matches Some(aggregator) ==> {
            let id = handle.id();
            let (before, after) = (old(m)@, final(m)@);
            &&& (*aggregator).view() == before.map.pool[id].tracker.aggregator
            &&& after.map.pool[id].tracker.aggregator == (*final(aggregator)).view()
            &&& after.map.pool[id].tracker.has_been_updated
                == before.map.pool[id].tracker.has_been_updated
            &&& after.map.pool[id].tracker.evicted == before.map.pool[id].tracker.evicted
            &&& after.map.pool[id].holders == before.map.pool[id].holders
            &&& same_apart_from(before, after, id)
        },
{
}

/// The maps differ at most in the tracker `id`, which is there afterwards exactly where it was before.
pub open spec fn same_apart_from<S, C>(
    before: ValueMapView<S, C>,
    after: ValueMapView<S, C>,
    id: usize,
) -> bool {
    &&& same_sets(before, after)
    &&& after.map.pool.contains_key(id) <==> before.map.pool.contains_key(id)
    &&& same_trackers_apart_from(before, after, id)
}

/// The maps hold the same sets, the same count, and the same for measurements without attributes.
pub open spec fn same_sets<S, C>(before: ValueMapView<S, C>, after: ValueMapView<S, C>) -> bool {
    &&& after.map.attached == before.map.attached
    &&& after.count == before.count
    &&& after.has_no_attribute_value == before.has_no_attribute_value
    &&& after.no_attribute == before.no_attribute
    &&& after.config == before.config
    &&& after.limit == before.limit
}

/// The trackers but `id` are the same.
pub open spec fn same_trackers_apart_from<S, C>(
    before: ValueMapView<S, C>,
    after: ValueMapView<S, C>,
    id: usize,
) -> bool {
    forall|i: usize|
        i != id ==> {
            &&& #[trigger] after.map.pool.contains_key(i) <==> before.map.pool.contains_key(i)
            &&& before.map.pool.contains_key(i) ==> after.map.pool[i] == before.map.pool[i]
        }
}

/// What giving a handle back does. The tracker loses one holder and is otherwise unchanged; one that
/// has left the map goes with its last holder; and the map itself keeps its hold on the trackers of its
/// sets. Nothing else changes.
pub proof fn law_handle_is_given_back<A: Aggregator>(m: &mut ValueMap<A>, handle: BoundTracker)
    requires
        old(m).wf(),
        call_ensures(ValueMap::<A>::release, (m, handle), ()),
    ensures
        same_sets(old(m)@, final(m)@),
        same_trackers_apart_from(old(m)@, final(m)@, handle.id()),
        !old(m)@.map.pool.contains_key(handle.id()) ==> !final(m)@.map.pool.contains_key(
            handle.id(),
        ),
        old(m)@.map.pool.contains_key(handle.id()) ==> {
            let (before, after) = (old(m)@.map.pool, final(m)@.map.pool);
            let id = handle.id();
            let held = before[id].holders;
            &&& after.contains_key(id) <==> held > 1 || !before[id].tracker.evicted
            &&& after.contains_key(id) ==> after[id].tracker == before[id].tracker
            &&& 1 < held < usize::MAX ==> after[id].holders == held - 1
            &&& held <= 1 && after.contains_key(id) ==> after[id].holders == held
            &&& held >= usize::MAX ==> after[id].holders == held
        },
        final(m).wf(),
{
    m.lemma_wf();
    let map = (*m)@.map;
    let id = handle.id();
    if map.pool.contains_key(id) {
        if map.pool[id].tracker.evicted {
            if is_attached(map, id) {
                let set = choose|set: HashedView|
                    map.attached.contains_key(set) && #[trigger] map.attached[set] == id;
                assert(map.attached.contains_key(set));
            }
        } else {
            assert(is_attached(map, id));
        }
    }
}

/// A new map holds no sets, has measured nothing, and keeps the configuration and the limit that it was
/// given.
pub proof fn law_new_map<A: Aggregator>(
    config: A::InitConfig,
    limit: usize,
    m: ValueMap<A>,
    read: &A::InitConfig,
)
    requires
        call_ensures(ValueMap::<A>::new, (config, limit), m),
        call_ensures(ValueMap::<A>::config, (&m,), read),
    ensures
        m.wf(),
        m@.map.attached.dom() == Set::<HashedView>::empty(),
        m@.map.pool.dom() == Set::<usize>::empty(),
        m@.count == 0,
        !m@.has_no_attribute_value,
        m@.no_attribute.aggregator == A::initial(config),
        m@.no_attribute.has_been_updated,
        !m@.no_attribute.evicted,
        m@.config == config,
        m@.limit == limit,
        *read == config,
        m.slots().len() == 0,
{
}

/// The shards of a new map have room, all together, for as many sets as the limit, the default limit at
/// most, allows, and for one more; and no more room than that needs.
pub proof fn law_room_from_the_start(limit: usize, capacity: usize)
    requires
        call_ensures(capacity_per_shard, (limit,), capacity),
    ensures
        DEFAULT_CARDINALITY_LIMIT == 2000,
        limit <= 2000 ==> limit + 1 < 16 * capacity <= limit + 17,
        limit > 2000 ==> 2001 < 16 * capacity <= 2017,
{
}

/// What holds of every map: it has at most as many sets as the limit allows, apart from the overflow set,
/// and the count is their number. Each set has a tracker of its own, which is held and not marked, and
/// every tracker that belongs to no set is marked.
pub proof fn law_every_map<A: Aggregator>(m: ValueMap<A>, overflow: HashedAttributes)
    requires
        m.wf(),
        is_overflow_set(overflow),
    ensures
        m@.map.attached.dom().finite(),
        m@.map.attached.dom().remove(overflow@).len() == m@.count,
        m@.count <= m@.limit,
        forall|set: HashedView| #[trigger]
            m@.map.attached.contains_key(set) ==> {
                let id = m@.map.attached[set];
                &&& set.attrs.len() > 0
                &&& m@.map.pool.contains_key(id)
                &&& m@.map.pool[id].holders >= 1
                &&& !m@.map.pool[id].tracker.evicted
            },
        forall|a: HashedView, b: HashedView|
            a != b && #[trigger] m@.map.attached.contains_key(a)
                && #[trigger] m@.map.attached.contains_key(b) ==> m@.map.attached[a]
                != m@.map.attached[b],
        forall|id: usize| #[trigger]
            m@.map.pool.contains_key(id) && (forall|set: HashedView| #[trigger]
                m@.map.attached.contains_key(set) ==> m@.map.attached[set] != id)
                ==> m@.map.pool[id].tracker.evicted,
{
    m.lemma_wf();
    assert forall|id: usize| #[trigger]
        m@.map.pool.contains_key(id) && (forall|set: HashedView| #[trigger]
            m@.map.attached.contains_key(set) ==> m@.map.attached[set]
                != id) implies m@.map.pool[id].tracker.evicted by {
        if !m@.map.pool[id].tracker.evicted {
            assert(is_attached(m@.map, id));
        }
    }
    assert(counted_sets(m@.map) == m@.map.attached.dom().remove(overflow@));
}

} // verus!
