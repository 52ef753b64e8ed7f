//! What holds of the operations on a [`crate::value_map::ValueMap`] taken together.

use crate::aggregator::{Aggregator, TrackerView};
use crate::canonical::{ascending, canonical, law_canonical_exists, same_values};
use crate::collect::{due_slots, holds_state, is_due, pool_collected};
use crate::hashed_attributes::{law_set_of_same_values, set_of, HashedView};
use crate::key_value::KeyValueView;
use crate::map_view::{
    is_attached, leaves, lemma_leaves_one_more, map_wf, released, without_sets, MapView,
};
use crate::shard::{distinct_sets, SlotView};
use crate::value_map::{
    binds, count_of, counted_sets, due_without_attributes, lemma_measures_wf, lemma_stale_evicted,
    measures, measures_bound, no_attribute_collected, overflow_set, points_without_attributes,
    stale_sets, target_of, value_map_wf, ValueMap, ValueMapView,
};
use vstd::prelude::*;

verus! {

/// The state of the tracker of `set`, where it has one, and else the state of a new tracker.
pub open spec fn state_of<A: Aggregator>(
    v: ValueMapView<A::State, A::InitConfig>,
    set: HashedView,
) -> A::State {
    if v.map.attached.contains_key(set) {
        v.map.pool[v.map.attached[set]].tracker.aggregator
    } else {
        A::initial(v.config)
    }
}

/// A measurement reaches exactly one tracker, that of its target set: the tracker is in the map,
/// counts as updated, and its state takes the value in. The trackers of all other sets, and that
/// without attributes, stay as they are.
pub proof fn law_measure<A: Aggregator>(
    before: ValueMapView<A::State, A::InitConfig>,
    after: ValueMapView<A::State, A::InitConfig>,
    value: A::PreComputedValue,
    attrs: Seq<KeyValueView>,
)
    requires
        value_map_wf(before),
        attrs.len() > 0,
        measures::<A>(before, after, value, attrs),
    ensures
        ({
            let set = target_of(before, attrs);
            let tracker = after.map.pool[after.map.attached[set]].tracker;
            &&& after.map.attached.contains_key(set)
            &&& tracker.aggregator == A::updated(state_of::<A>(before, set), value)
            &&& is_due(tracker)
            &&& holds_state(after.map, set.attrs, tracker.aggregator)
            &&& after.no_attribute == before.no_attribute
            &&& forall|other: HashedView|
                other != set ==> {
                    &&& #[trigger] after.map.attached.contains_key(other)
                        <==> before.map.attached.contains_key(other)
                    &&& before.map.attached.contains_key(other) ==> after.map.attached[other]
                        == before.map.attached[other]
                        && after.map.pool[after.map.attached[other]]
                        == before.map.pool[before.map.attached[other]]
                }
        }),
{
    let set = target_of(before, attrs);
    assert(after.map.attached.contains_key(set));
    assert forall|other: HashedView|
        other != set && before.map.attached.contains_key(
            other,
        ) implies #[trigger] after.map.attached[other] == before.map.attached[other]
        && after.map.pool[after.map.attached[other]]
        == before.map.pool[before.map.attached[other]] by {
        if before.map.attached.contains_key(set) {
            assert(before.map.attached[other] != before.map.attached[set]);
        }
    }
}

/// A measurement without attributes reaches the tracker that is kept for these, and no other.
pub proof fn law_measure_without_attributes<A: Aggregator>(
    before: ValueMapView<A::State, A::InitConfig>,
    after: ValueMapView<A::State, A::InitConfig>,
    value: A::PreComputedValue,
)
    requires
        measures::<A>(before, after, value, Seq::empty()),
    ensures
        after.has_no_attribute_value,
        due_without_attributes(after) == 1,
        after.no_attribute.aggregator == A::updated(before.no_attribute.aggregator, value),
        after.map == before.map,
        after.count == before.count,
{
}

/// Measurements whose attributes give the same value to each key are counted under the same set,
/// whatever the order of the attributes.
pub proof fn law_same_values_same_target<S, C>(
    v: ValueMapView<S, C>,
    a: Seq<KeyValueView>,
    b: Seq<KeyValueView>,
)
    requires
        same_values(a, b),
    ensures
        target_of(v, a) == target_of(v, b),
        count_of(v, a) == count_of(v, b),
{
    law_set_of_same_values(a, b);
}

/// A map never holds more attribute sets than its limit, apart from the overflow set.
pub proof fn law_cardinality_limit<S, C>(v: ValueMapView<S, C>)
    requires
        value_map_wf(v),
    ensures
        counted_sets(v.map).len() == v.count,
        counted_sets(v.map).len() <= v.limit,
        v.map.attached.dom().len() <= v.limit + 1,
{
    let all = v.map.attached.dom();
    if !all.contains(overflow_set()) {
        assert(counted_sets(v.map) =~= all);
    }
}

/// At the limit a measurement for a new set goes to the overflow set. The set does not enter the map,
/// and neither the count nor the other sets change.
pub proof fn law_overflow<A: Aggregator>(
    before: ValueMapView<A::State, A::InitConfig>,
    after: ValueMapView<A::State, A::InitConfig>,
    value: A::PreComputedValue,
    attrs: Seq<KeyValueView>,
)
    requires
        attrs.len() > 0,
        !before.map.attached.contains_key(set_of(attrs)),
        before.count >= before.limit,
        measures::<A>(before, after, value, attrs),
    ensures
        target_of(before, attrs) == overflow_set(),
        after.count == before.count,
        after.map.attached.dom() == before.map.attached.dom().insert(overflow_set()),
{
    assert(after.map.attached.dom() =~= before.map.attached.dom().insert(overflow_set()));
}

/// Below the limit, or where it is in the map already, a set is counted under itself.
pub proof fn law_room<A: Aggregator>(
    before: ValueMapView<A::State, A::InitConfig>,
    after: ValueMapView<A::State, A::InitConfig>,
    value: A::PreComputedValue,
    attrs: Seq<KeyValueView>,
)
    requires
        attrs.len() > 0,
        before.map.attached.contains_key(set_of(attrs)) || before.count < before.limit,
        measures::<A>(before, after, value, attrs),
    ensures
        target_of(before, attrs) == set_of(attrs),
        after.count == before.count + if before.map.attached.contains_key(set_of(attrs))
            || set_of(attrs) == overflow_set() {
            0int
        } else {
            1
        },
        after.map.attached.dom() == before.map.attached.dom().insert(set_of(attrs)),
{
    assert(after.map.attached.dom() =~= before.map.attached.dom().insert(set_of(attrs)));
}

/// The overflow set is not counted, also where a measurement names it.
pub proof fn law_overflow_set_is_not_counted<A: Aggregator>(
    before: ValueMapView<A::State, A::InitConfig>,
    after: ValueMapView<A::State, A::InitConfig>,
    value: A::PreComputedValue,
    attrs: Seq<KeyValueView>,
)
    requires
        attrs.len() > 0,
        set_of(attrs) == overflow_set(),
        measures::<A>(before, after, value, attrs),
    ensures
        target_of(before, attrs) == overflow_set(),
        after.count == before.count,
{
}

/// What a delta collection does to the map: sets that were not updated since the last collection
/// leave, and the others stay and count as not updated.
pub open spec fn delta_collected<S, C>(
    before: ValueMapView<S, C>,
    after: ValueMapView<S, C>,
) -> bool {
    let stale = stale_sets(before.map);
    &&& after == (ValueMapView {
        map: MapView {
            attached: before.map.attached.remove_keys(stale),
            pool: after.map.pool,
        },
        count: after.count,
        no_attribute: after.no_attribute,
        ..before
    })
    &&& after.count == before.count - stale.remove(overflow_set()).len()
    &&& pool_collected(without_sets(before.map, stale).pool, after.map.pool)
    &&& no_attribute_collected(before, after.no_attribute)
}

/// A set that was updated since the last collection outlives the next one with its tracker, which
/// counts as not updated and is not marked. The holders stay.
pub proof fn law_updated_set_is_kept<S, C>(
    before: ValueMapView<S, C>,
    after: ValueMapView<S, C>,
    set: HashedView,
)
    requires
        value_map_wf(before),
        delta_collected(before, after),
        before.map.attached.contains_key(set),
        is_due(before.map.pool[before.map.attached[set]].tracker),
    ensures
        ({
            let id = before.map.attached[set];
            &&& after.map.attached.contains_key(set)
            &&& after.map.attached[set] == id
            &&& after.map.pool.contains_key(id)
            &&& after.map.pool[id].holders == before.map.pool[id].holders
            &&& !after.map.pool[id].tracker.has_been_updated
            &&& !after.map.pool[id].tracker.evicted
        }),
{
    let stale = stale_sets(before.map);
    let id = before.map.attached[set];
    assert(before.map.pool.contains_key(id));
    lemma_leaves_one_more(before.map, stale, set);
    assert(without_sets(before.map, stale).pool.dom().contains(id));
    assert(after.map.pool.contains_key(id));
}

/// After a delta collection, binding for a set that it has kept gives a handle to the same tracker.
pub proof fn law_bind_after_collection<A: Aggregator>(
    before: ValueMapView<A::State, A::InitConfig>,
    after: ValueMapView<A::State, A::InitConfig>,
    later: ValueMapView<A::State, A::InitConfig>,
    attrs: Seq<KeyValueView>,
    id: usize,
)
    requires
        value_map_wf(before),
        delta_collected(before, after),
        before.map.attached.contains_key(set_of(attrs)),
        is_due(before.map.pool[before.map.attached[set_of(attrs)]].tracker),
        binds::<A>(after, later, attrs, id),
    ensures
        id == before.map.attached[set_of(attrs)],
{
    law_updated_set_is_kept(before, after, set_of(attrs));
}

/// A set that was not updated since the last collection leaves the map at the next one. Where a
/// handle holds its tracker, the tracker stays with its state and is marked.
pub proof fn law_stale_set_is_evicted<S, C>(
    before: ValueMapView<S, C>,
    after: ValueMapView<S, C>,
    set: HashedView,
)
    requires
        value_map_wf(before),
        delta_collected(before, after),
        before.map.attached.contains_key(set),
        !before.map.pool[before.map.attached[set]].tracker.has_been_updated,
    ensures
        !after.map.attached.contains_key(set),
        ({
            let id = before.map.attached[set];
            &&& after.map.pool.contains_key(id) <==> before.map.pool[id].holders >= 2
            &&& before.map.pool[id].holders >= 2 ==> after.map.pool[id].tracker == (TrackerView {
                evicted: true,
                ..before.map.pool[id].tracker
            })
        }),
{
    let stale = stale_sets(before.map);
    let id = before.map.attached[set];
    assert(before.map.pool.contains_key(id));
    assert(stale.contains(set));
    assert(leaves(before.map, stale, id));
    assert(without_sets(before.map, stale).pool.dom().contains(id) <==> after.map.pool.dom().contains(
        id,
    ));
}

/// A delta collection leaves the map well-formed: the room of the sets that left is there for
/// others.
pub proof fn law_collection_frees_the_count<S, C>(
    before: ValueMapView<S, C>,
    after: ValueMapView<S, C>,
)
    requires
        value_map_wf(before),
        delta_collected(before, after),
    ensures
        counted_sets(after.map).len() == before.count - stale_sets(before.map).remove(
            overflow_set(),
        ).len(),
        counted_sets(after.map).len() == after.count,
{
    let mid = ValueMapView {
        map: without_sets(before.map, stale_sets(before.map)),
        count: after.count,
        ..before
    };
    lemma_stale_evicted(before, mid);
    assert(counted_sets(after.map) =~= counted_sets(mid.map));
}

/// Binding twice for attributes that give the same value to each key gives handles to the same
/// tracker.
pub proof fn law_bind_twice<A: Aggregator>(
    first: ValueMapView<A::State, A::InitConfig>,
    second: ValueMapView<A::State, A::InitConfig>,
    third: ValueMapView<A::State, A::InitConfig>,
    a: Seq<KeyValueView>,
    b: Seq<KeyValueView>,
    x: usize,
    y: usize,
)
    requires
        same_values(a, b),
        binds::<A>(first, second, a, x),
        binds::<A>(second, third, b, y),
    ensures
        x == y,
{
    law_set_of_same_values(a, b);
    assert(second.map.attached.contains_key(target_of(first, a)));
    assert(target_of(second, b) == target_of(first, a));
}

/// A handle leads to the tracker that measurements with its attributes reach: as long as that
/// tracker is in the map, measuring through the handle and measuring with the attributes are the
/// same.
pub proof fn law_bound_is_unbound<A: Aggregator>(
    before: ValueMapView<A::State, A::InitConfig>,
    after: ValueMapView<A::State, A::InitConfig>,
    id: usize,
    value: A::PreComputedValue,
    attrs: Seq<KeyValueView>,
)
    requires
        value_map_wf(before),
        attrs.len() > 0,
        before.map.attached.contains_key(target_of(before, attrs)),
        before.map.attached[target_of(before, attrs)] == id,
    ensures
        measures_bound::<A>(before, after, id, value, attrs) <==> measures::<A>(
            before,
            after,
            value,
            attrs,
        ),
{
    let set = target_of(before, attrs);
    assert(before.map.pool.contains_key(before.map.attached[set]));
    assert(count_of(before, attrs) == before.count);
}

/// Giving out a handle changes no tracker that is there.
pub proof fn law_bind_changes_no_tracker<A: Aggregator>(
    before: ValueMapView<A::State, A::InitConfig>,
    after: ValueMapView<A::State, A::InitConfig>,
    attrs: Seq<KeyValueView>,
    id: usize,
    other: usize,
)
    requires
        value_map_wf(before),
        binds::<A>(before, after, attrs, id),
        before.map.pool.contains_key(other),
    ensures
        after.map.pool.contains_key(other),
        after.map.pool[other].tracker == before.map.pool[other].tracker,
        after.no_attribute == before.no_attribute,
{
}

/// Right after `bind` the tracker of the handle is that of the target set, and is in the map.
pub proof fn law_bind_reaches_target<A: Aggregator>(
    before: ValueMapView<A::State, A::InitConfig>,
    after: ValueMapView<A::State, A::InitConfig>,
    attrs: Seq<KeyValueView>,
    id: usize,
)
    requires
        value_map_wf(before),
        binds::<A>(before, after, attrs, id),
    ensures
        after.map.attached.contains_key(target_of(after, attrs)),
        after.map.attached[target_of(after, attrs)] == id,
        target_of(after, attrs) == target_of(before, attrs),
        after.map.pool[id].holders >= 2,
        after.map.pool[id].tracker.aggregator == state_of::<A>(before, target_of(before, attrs)),
{
    let set = target_of(before, attrs);
    assert(after.map.attached.contains_key(set));
    if before.map.attached.contains_key(set) {
        assert(before.map.pool.contains_key(before.map.attached[set]));
    }
}

/// No measurement through a handle is lost: whether the tracker of the handle is in the map or was
/// evicted, a tracker that is in the map afterwards takes the value in and counts as updated.
pub proof fn law_bound_measurement_counts<A: Aggregator>(
    before: ValueMapView<A::State, A::InitConfig>,
    after: ValueMapView<A::State, A::InitConfig>,
    id: usize,
    value: A::PreComputedValue,
    attrs: Seq<KeyValueView>,
)
    requires
        value_map_wf(before),
        attrs.len() > 0,
        measures_bound::<A>(before, after, id, value, attrs),
    ensures
        exists|set: HashedView|
            {
                let tracker = after.map.pool[after.map.attached[set]].tracker;
                &&& #[trigger] after.map.attached.contains_key(set)
                &&& tracker.aggregator == A::updated(state_of::<A>(before, set), value)
                &&& is_due(tracker)
            },
{
    if before.map.pool.contains_key(id) && !before.map.pool[id].tracker.evicted {
        assert(is_attached(before.map, id));
        let set = choose|set: HashedView|
            before.map.attached.contains_key(set) && #[trigger] before.map.attached[set] == id;
        assert(after.map.attached.contains_key(set));
    } else {
        law_measure::<A>(before, after, value, attrs);
        assert(after.map.attached.contains_key(target_of(before, attrs)));
    }
}

/// A tracker that a handle holds outlives the eviction of its set: it stays with its state, and is
/// marked so that the handle is seen to be stale.
pub proof fn law_held_tracker_survives<S>(m: MapView<S>, set: HashedView, gone: Set<HashedView>)
    requires
        map_wf(m),
        m.attached.contains_key(set),
        m.pool[m.attached[set]].holders >= 2,
        gone.contains(set),
    ensures
        ({
            let after = without_sets(m, gone);
            let id = m.attached[set];
            &&& !after.attached.contains_key(set)
            &&& after.pool.contains_key(id)
            &&& after.pool[id].tracker == (TrackerView { evicted: true, ..m.pool[id].tracker })
        }),
{
    assert(m.pool.contains_key(m.attached[set]));
    assert(leaves(m, gone, m.attached[set]));
}

/// Giving back the handle that `bind` gave for a set which was in the map undoes `bind`, unless the
/// number of holders has run into its bound.
pub proof fn law_release_undoes_bind<A: Aggregator>(
    before: ValueMapView<A::State, A::InitConfig>,
    after: ValueMapView<A::State, A::InitConfig>,
    attrs: Seq<KeyValueView>,
    id: usize,
)
    requires
        value_map_wf(before),
        binds::<A>(before, after, attrs, id),
        before.map.attached.contains_key(target_of(before, attrs)),
        before.map.pool[id].holders < usize::MAX - 1,
    ensures
        released(after.map, id) == before.map,
        after.count == before.count,
{
    assert(before.map.pool.contains_key(id));
    assert(released(after.map, id).pool =~= before.map.pool);
}

/// After a delta collection every set is stale until it is measured again: of the sets that it has
/// kept, the next collection evicts all but those that were measured in between.
pub proof fn law_measured_between_collections_stays<A: Aggregator>(
    start: ValueMapView<A::State, A::InitConfig>,
    collected: ValueMapView<A::State, A::InitConfig>,
    after: ValueMapView<A::State, A::InitConfig>,
    value: A::PreComputedValue,
    attrs: Seq<KeyValueView>,
)
    requires
        value_map_wf(start),
        value_map_wf(collected),
        delta_collected(start, collected),
        attrs.len() > 0,
        measures::<A>(collected, after, value, attrs),
    ensures
        stale_sets(collected.map) == collected.map.attached.dom(),
        stale_sets(after.map) == collected.map.attached.dom().remove(target_of(collected, attrs)),
        without_sets(after.map, stale_sets(after.map)).attached.contains_key(
            target_of(collected, attrs),
        ),
{
    let set = target_of(collected, attrs);
    law_measure::<A>(collected, after, value, attrs);
    assert forall|k: HashedView| #[trigger]
        collected.map.attached.contains_key(
            k,
        ) implies !collected.map.pool[collected.map.attached[k]].tracker.has_been_updated by {
        assert(collected.map.pool.contains_key(collected.map.attached[k]));
        assert(!is_due(collected.map.pool[collected.map.attached[k]].tracker));
    }
    assert(stale_sets(collected.map) =~= collected.map.attached.dom());
    assert forall|k: HashedView|
        stale_sets(after.map).contains(k) <==> collected.map.attached.dom().remove(set).contains(
            k,
        ) by {
        if k != set {
            assert(after.map.attached.contains_key(k) <==> collected.map.attached.contains_key(k));
        }
    }
    assert(stale_sets(after.map) =~= collected.map.attached.dom().remove(set));
}

/// After a delta collection nothing is due until something is measured again.
pub proof fn law_nothing_due_after_collection<S, C>(
    before: ValueMapView<S, C>,
    after: ValueMapView<S, C>,
)
    requires
        delta_collected(before, after),
    ensures
        due_without_attributes(after) == 0,
        forall|id: usize| #[trigger]
            after.map.pool.contains_key(id) ==> !is_due(after.map.pool[id].tracker),
{
}

/// No two of these slots have the same attributes.
pub open spec fn distinct_attrs(slots: Seq<SlotView>) -> bool {
    forall|i: int, j: int|
        0 <= i < j < slots.len() ==> (#[trigger] slots[i]).set.attrs != (
        #[trigger] slots[j]).set.attrs
}

proof fn lemma_filter_distinct_attrs(slots: Seq<SlotView>, p: spec_fn(SlotView) -> bool)
    requires
        distinct_attrs(slots),
    ensures
        distinct_attrs(slots.filter(p)),
    decreases slots.len(),
{
    reveal(Seq::filter);
    if slots.len() > 0 {
        let front = slots.drop_last();
        let rest = front.filter(p);
        assert forall|i: int, j: int| 0 <= i < j < front.len() implies (
        #[trigger] front[i]).set.attrs != (#[trigger] front[j]).set.attrs by {
            assert(slots[i].set.attrs != slots[j].set.attrs);
        }
        lemma_filter_distinct_attrs(front, p);
        assert forall|i: int| 0 <= i < rest.len() implies (#[trigger] rest[i]).set.attrs
            != slots.last().set.attrs by {
            assert(rest.contains(rest[i]));
            front.lemma_filter_contains_rev(p, rest[i]);
            let k = front.index_of(rest[i]);
            assert(slots[k].set.attrs != slots[slots.len() - 1].set.attrs);
        }
    }
}

/// A collection hands out each attribute list once, sorted by key and without the empty list, which
/// stands for measurements without attributes.
pub proof fn law_attributes_once<A: Aggregator>(map: &ValueMap<A>)
    requires
        map.wf(),
    ensures
        distinct_attrs(map.slots()),
        distinct_attrs(due_slots(map.slots(), map@.map.pool)),
        forall|i: int|
            0 <= i < map.slots().len() ==> (#[trigger] map.slots()[i]).set.attrs.len() > 0
                && ascending(map.slots()[i].set.attrs),
{
    let slots = map.slots();
    let pool = map@.map.pool;
    let due = |slot: SlotView| is_due(pool[slot.tracker].tracker);
    map.lemma_wf();
    map.lemma_slots();
    assert forall|i: int, j: int| 0 <= i < j < slots.len() implies (
    #[trigger] slots[i]).set.attrs != (#[trigger] slots[j]).set.attrs by {
        assert(slots[i].set != slots[j].set);
        assert(map@.map.attached.contains_key(slots[i].set));
        assert(map@.map.attached.contains_key(slots[j].set));
    }
    assert forall|i: int| 0 <= i < slots.len() implies (#[trigger] slots[i]).set.attrs.len() > 0
        && ascending(slots[i].set.attrs) by {
        assert(map@.map.attached.contains_key(slots[i].set));
        law_canonical_exists(slots[i].set.attrs);
    }
    lemma_filter_distinct_attrs(slots, due);
    assert(due_slots(slots, pool) == slots.filter(due));
}

/// A map whose limit is `n` never gives more than `n` points, one for the overflow set, and one for
/// measurements without attributes.
pub proof fn law_points_within_limit<A: Aggregator>(map: &ValueMap<A>)
    requires
        map.wf(),
    ensures
        map.slots().len() == map@.map.attached.dom().len(),
        points_without_attributes(map@) + map.slots().len() <= map@.limit + 2,
{
    let slots = map.slots();
    let sets = slots.map_values(|slot: SlotView| slot.set);
    map.lemma_wf();
    map.lemma_slots();
    law_cardinality_limit(map@);
    assert(sets.no_duplicates()) by {
        assert forall|i: int, j: int| 0 <= i < sets.len() && 0 <= j < sets.len() && i
            != j implies sets[i] != sets[j] by {
            if i < j {
                assert(slots[i].set != slots[j].set);
            } else {
                assert(slots[j].set != slots[i].set);
            }
        }
    }
    sets.unique_seq_to_set();
    assert forall|set: HashedView| #[trigger]
        sets.to_set().contains(set) <==> map@.map.attached.dom().contains(set) by {
        if sets.contains(set) {
            let i = sets.index_of(set);
            assert(slots[i].set == set);
            assert(map@.map.attached.contains_key(slots[i].set));
        }
        if map@.map.attached.contains_key(set) {
            let i = choose|i: int| 0 <= i < slots.len() && (#[trigger] slots[i]).set == set;
            assert(sets[i] == set);
        }
    }
    assert(sets.to_set() =~= map@.map.attached.dom());
}

/// Every attribute set of a map has one place among the slots that a collection visits, with its own
/// tracker, and so one point. A delta collection leaves out those that are not due, and no others.
pub proof fn law_every_set_is_visited<A: Aggregator>(map: &ValueMap<A>, set: HashedView)
    requires
        map.wf(),
        map@.map.attached.contains_key(set),
    ensures
        ({
            let slot = SlotView { set, tracker: map@.map.attached[set] };
            &&& map.slots().contains(slot)
            &&& due_slots(map.slots(), map@.map.pool).contains(slot) <==> is_due(
                map@.map.pool[slot.tracker].tracker,
            )
            &&& distinct_sets(map.slots())
        }),
{
    let slots = map.slots();
    let pool = map@.map.pool;
    let due = |slot: SlotView| is_due(pool[slot.tracker].tracker);
    map.lemma_slots();
    let i = choose|i: int| 0 <= i < slots.len() && (#[trigger] slots[i]).set == set;
    let slot = SlotView { set, tracker: map@.map.attached[set] };
    assert(slots[i] == slot);
    assert(due_slots(slots, pool) == slots.filter(due));
    if due(slot) {
        slots.lemma_filter_contains(due, i);
    }
    if slots.filter(due).contains(slot) {
        let k = slots.filter(due).index_of(slot);
        slots.lemma_filter_pred(due, k);
    }
}

/// A measurement is collected: the next collection, whether it reads all sets or only those that
/// were updated, visits the tracker that took the value in, and finds it in the state that holds the
/// value.
pub proof fn law_measured_is_collected<A: Aggregator>(
    before: ValueMapView<A::State, A::InitConfig>,
    map: &ValueMap<A>,
    value: A::PreComputedValue,
    attrs: Seq<KeyValueView>,
)
    requires
        value_map_wf(before),
        map.wf(),
        attrs.len() > 0,
        measures::<A>(before, map@, value, attrs),
    ensures
        ({
            let set = target_of(before, attrs);
            let slot = SlotView { set, tracker: map@.map.attached[set] };
            &&& map.slots().contains(slot)
            &&& due_slots(map.slots(), map@.map.pool).contains(slot)
            &&& map@.map.pool[slot.tracker].tracker.aggregator == A::updated(
                state_of::<A>(before, set),
                value,
            )
        }),
{
    law_measure::<A>(before, map@, value, attrs);
    law_every_set_is_visited(map, target_of(before, attrs));
}

/// Nothing is lost by an eviction: a measurement for a set that is no longer in the map starts a new
/// tracker, and the next delta collection reports its attributes exactly once, in the state that
/// holds the value alone. A tracker that was evicted stays as it is, and marked.
pub proof fn law_measure_after_eviction<A: Aggregator>(
    before: ValueMapView<A::State, A::InitConfig>,
    map: &ValueMap<A>,
    value: A::PreComputedValue,
    attrs: Seq<KeyValueView>,
    id: usize,
)
    requires
        value_map_wf(before),
        map.wf(),
        attrs.len() > 0,
        !before.map.attached.contains_key(set_of(attrs)),
        before.count < before.limit,
        before.map.pool.contains_key(id),
        before.map.pool[id].tracker.evicted,
        measures::<A>(before, map@, value, attrs),
    ensures
        map@.map.pool.contains_key(id),
        map@.map.pool[id] == before.map.pool[id],
        ({
            let due = due_slots(map.slots(), map@.map.pool);
            exists|i: int|
                {
                    &&& 0 <= i < due.len()
                    &&& (#[trigger] due[i]).set.attrs == canonical(attrs)
                    &&& map@.map.pool[due[i].tracker].tracker.aggregator == A::updated(
                        A::initial(before.config),
                        value,
                    )
                    &&& forall|j: int|
                        0 <= j < due.len() && (#[trigger] due[j]).set.attrs == canonical(attrs)
                            ==> j == i
                }
        }),
{
    let due = due_slots(map.slots(), map@.map.pool);
    let slot = SlotView { set: set_of(attrs), tracker: map@.map.attached[set_of(attrs)] };
    law_measured_is_collected::<A>(before, map, value, attrs);
    law_attributes_once::<A>(map);
    let i = due.index_of(slot);
    assert(due[i].set.attrs == canonical(attrs));
    assert forall|j: int|
        0 <= j < due.len() && (#[trigger] due[j]).set.attrs == canonical(attrs) implies j == i by {
        if i < j {
            assert(due[i].set.attrs != due[j].set.attrs);
        } else if j < i {
            assert(due[j].set.attrs != due[i].set.attrs);
        }
    }
}

/// `states` are the maps before, between and after these measurements, all with the same attributes.
pub open spec fn measures_in_turn<A: Aggregator>(
    states: Seq<ValueMapView<A::State, A::InitConfig>>,
    values: Seq<A::PreComputedValue>,
    attrs: Seq<KeyValueView>,
) -> bool {
    &&& states.len() == values.len() + 1
    &&& forall|i: int|
        0 <= i < values.len() ==> measures::<A>(
            states[i],
            states[i + 1],
            #[trigger] values[i],
            attrs,
        )
}

/// Measurements with the same attributes add up in one tracker: its state is what all of them, one
/// after the other, make of the state before the first.
pub proof fn law_measurements_add_up<A: Aggregator>(
    states: Seq<ValueMapView<A::State, A::InitConfig>>,
    values: Seq<A::PreComputedValue>,
    attrs: Seq<KeyValueView>,
)
    requires
        attrs.len() > 0,
        value_map_wf(states[0]),
        measures_in_turn::<A>(states, values, attrs),
    ensures
        value_map_wf(states.last()),
        ({
            let set = target_of(states[0], attrs);
            &&& target_of(states.last(), attrs) == set
            &&& state_of::<A>(states.last(), set) == values.fold_left(
                state_of::<A>(states[0], set),
                |state: A::State, value: A::PreComputedValue| A::updated(state, value),
            )
        }),
    decreases values.len(),
{
    let set = target_of(states[0], attrs);
    let update = |state: A::State, value: A::PreComputedValue| A::updated(state, value);
    if values.len() > 0 {
        let front = states.drop_last();
        let earlier = values.drop_last();
        assert forall|i: int| 0 <= i < earlier.len() implies measures::<A>(
            front[i],
            front[i + 1],
            #[trigger] earlier[i],
            attrs,
        ) by {
            assert(values[i] == earlier[i]);
        }
        law_measurements_add_up::<A>(front, earlier, attrs);
        let last = values.len() - 1;
        assert(front.last() == states[last]);
        assert(measures::<A>(states[last], states[last + 1], values[last], attrs));
        law_measure::<A>(states[last], states[last + 1], values[last], attrs);
        lemma_measures_wf::<A>(states[last], states[last + 1], values[last], attrs);
        assert(states.last() == states[last + 1]);
        assert(states.last().map.attached.contains_key(set));
        assert(values.fold_left(state_of::<A>(states[0], set), update) == update(
            earlier.fold_left(state_of::<A>(states[0], set), update),
            values.last(),
        ));
    } else {
        assert(states.last() == states[0]);
    }
}

} // verus!
