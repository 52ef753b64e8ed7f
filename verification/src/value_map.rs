//! The storage behind an instrument: a tracker for each attribute set, and one for measurements
//! without attributes.

use crate::aggregator::{new_tracker, Aggregator, TrackerEntry, TrackerView};
use crate::canonical::law_canonical_nonempty;
use crate::collect::{
    due_slots, holds_state, is_due, pool_collected, pool_reset, read_point, reset_cell, taken_point,
};
use crate::hashed_attributes::{
    hashed, law_set_of_stands, lemma_overflow_attrs_stand, overflow_attrs, set_of,
    stream_overflow_attributes, HashedAttributes, HashedView,
};
use crate::key_value::{attr_views, KeyValue, KeyValueView};
use crate::listing::{lemma_filter_twice, outside, NUM_SHARDS};
use crate::map_view::{
    bind_step, count_after, enters, is_attached, lemma_enters_wf, lemma_leaves_one_more,
    lemma_one_set_more, lemma_same_trackers_wf, lemma_with_state_wf, lemma_without_sets_wf, map_wf,
    measure_step, measured, released, target, with_state, without_sets, MapView,
};
use crate::shard::{distinct_sets, has_set, SlotView};
use crate::sharded_map::{entry_sets, BoundTracker, ShardedMap};
use crate::tracker_pool::{with_tracker, CellView};
use vstd::prelude::*;

verus! {

/// The cardinality limit where none is given.
pub const DEFAULT_CARDINALITY_LIMIT: usize = 2000;

/// What a [`ValueMap`] holds.
pub struct ValueMapView<S, C> {
    /// The attribute sets and their trackers.
    pub map: MapView<S>,
    /// The number of attribute sets that count against the limit.
    pub count: usize,
    /// Whether there is a measurement without attributes.
    pub has_no_attribute_value: bool,
    /// The tracker for measurements without attributes.
    pub no_attribute: TrackerView<S>,
    /// What new aggregators are made with.
    pub config: C,
    /// The greatest number of attribute sets.
    pub limit: usize,
}

/// The set under which measurements beyond the cardinality limit are counted.
pub open spec fn overflow_set() -> HashedView {
    hashed(overflow_attrs())
}

/// The attribute sets of the map, without the overflow set.
pub open spec fn counted_sets<S>(m: MapView<S>) -> Set<HashedView> {
    m.attached.dom().remove(overflow_set())
}

/// Every tracker that belongs to no attribute set is marked as evicted.
pub open spec fn detached_are_marked<S>(m: MapView<S>) -> bool {
    forall|id: usize| #[trigger]
        m.pool.contains_key(id) && !m.pool[id].tracker.evicted ==> is_attached(m, id)
}

/// The attribute sets hold an attribute, are in canonical form, and carry their own hash.
pub open spec fn sets_are_canonical<S>(m: MapView<S>) -> bool {
    forall|set: HashedView| #[trigger]
        m.attached.contains_key(set) ==> set == set_of(set.attrs) && set.attrs.len() > 0
}

/// The sets and their trackers match, a tracker is marked as evicted exactly where it belongs to no
/// set, the sets are canonical, and the count is their number, without the overflow set, and keeps
/// to the limit.
pub open spec fn value_map_wf<S, C>(v: ValueMapView<S, C>) -> bool {
    &&& map_wf(v.map)
    &&& detached_are_marked(v.map)
    &&& sets_are_canonical(v.map)
    &&& counted_sets(v.map).len() == v.count
    &&& v.count <= v.limit
}

/// The set under which a measurement with these attributes is counted.
pub open spec fn target_of<S, C>(v: ValueMapView<S, C>, attrs: Seq<KeyValueView>) -> HashedView {
    target(v.map.attached, v.count, v.limit, set_of(attrs), overflow_set())
}

/// The count after a measurement with these attributes.
pub open spec fn count_of<S, C>(v: ValueMapView<S, C>, attrs: Seq<KeyValueView>) -> int {
    count_after(v.map.attached, v.count, v.limit, set_of(attrs), overflow_set())
}

/// What a measurement with these attributes does.
pub open spec fn measures<A: Aggregator>(
    before: ValueMapView<A::State, A::InitConfig>,
    after: ValueMapView<A::State, A::InitConfig>,
    value: A::PreComputedValue,
    attrs: Seq<KeyValueView>,
) -> bool {
    if attrs.len() == 0 {
        after == (ValueMapView {
            has_no_attribute_value: true,
            no_attribute: measured::<A>(before.no_attribute, value),
            ..before
        })
    } else {
        &&& after == (ValueMapView { map: after.map, count: after.count, ..before })
        &&& after.count == count_of(before, attrs)
        &&& measure_step::<A>(
            before.map,
            after.map,
            target_of(before, attrs),
            value,
            before.config,
        )
    }
}

/// What giving out a handle to the tracker `id` for these attributes does.
pub open spec fn binds<A: Aggregator>(
    before: ValueMapView<A::State, A::InitConfig>,
    after: ValueMapView<A::State, A::InitConfig>,
    attrs: Seq<KeyValueView>,
    id: usize,
) -> bool {
    &&& after == (ValueMapView { map: after.map, count: after.count, ..before })
    &&& after.count == count_of(before, attrs)
    &&& bind_step::<A>(before.map, after.map, target_of(before, attrs), before.config, id)
}

/// What a measurement through a handle to the tracker `id` does. A handle whose tracker has been
/// evicted falls back to the attributes.
pub open spec fn measures_bound<A: Aggregator>(
    before: ValueMapView<A::State, A::InitConfig>,
    after: ValueMapView<A::State, A::InitConfig>,
    id: usize,
    value: A::PreComputedValue,
    attrs: Seq<KeyValueView>,
) -> bool {
    if before.map.pool.contains_key(id) && !before.map.pool[id].tracker.evicted {
        after == (ValueMapView {
            map: MapView {
                pool: with_tracker(
                    before.map.pool,
                    id,
                    measured::<A>(before.map.pool[id].tracker, value),
                ),
                ..before.map
            },
            ..before
        })
    } else {
        measures::<A>(before, after, value, attrs)
    }
}

/// A tracker for these attributes is in the state `state`.
pub open spec fn reads<S, C>(v: ValueMapView<S, C>, attrs: Seq<KeyValueView>, state: S) -> bool {
    ||| attrs.len() == 0 && state == v.no_attribute.aggregator
    ||| holds_state(v.map, attrs, state)
}

/// The number of points for measurements without attributes: one, where there is such a
/// measurement.
pub open spec fn points_without_attributes<S, C>(v: ValueMapView<S, C>) -> nat {
    if v.has_no_attribute_value {
        1
    } else {
        0
    }
}

/// The number of points that the next delta collection makes for measurements without attributes:
/// one, where there is such a measurement since the last collection.
pub open spec fn due_without_attributes<S, C>(v: ValueMapView<S, C>) -> nat {
    if v.has_no_attribute_value && v.no_attribute.has_been_updated {
        1
    } else {
        0
    }
}

/// The tracker for measurements without attributes after a delta collection: one that was due counts
/// as not updated, and is otherwise as making the point has left it.
pub open spec fn no_attribute_collected<S, C>(
    before: ValueMapView<S, C>,
    after: TrackerView<S>,
) -> bool {
    after == if due_without_attributes(before) == 1 {
        TrackerView {
            aggregator: after.aggregator,
            has_been_updated: false,
            ..before.no_attribute
        }
    } else {
        before.no_attribute
    }
}

/// The attribute sets whose trackers were not updated since the last collection.
pub open spec fn stale_sets<S>(m: MapView<S>) -> Set<HashedView> {
    Set::new(
        |set: HashedView|
            m.attached.contains_key(set) && !m.pool[m.attached[set]].tracker.has_been_updated,
    )
}

/// The set under which a measurement is counted is canonical, and enters the count unless it is
/// the overflow set.
proof fn lemma_entered<S, C>(
    before: ValueMapView<S, C>,
    after: ValueMapView<S, C>,
    attrs: Seq<KeyValueView>,
)
    requires
        value_map_wf(before),
        attrs.len() > 0,
        map_wf(after.map),
        detached_are_marked(after.map),
        after.limit == before.limit,
        after.count == count_of(before, attrs),
        after.map.attached.dom() == before.map.attached.dom().insert(target_of(before, attrs)),
    ensures
        value_map_wf(after),
{
    let set = target_of(before, attrs);
    let (a, b) = (counted_sets(before.map), counted_sets(after.map));
    if set == overflow_set() || before.map.attached.contains_key(set) {
        assert(b =~= a);
    } else {
        assert(b =~= a.insert(set));
    }
    law_set_of_stands(attrs);
    law_canonical_nonempty(attrs);
    lemma_overflow_attrs_stand();
    assert forall|k: HashedView| #[trigger] after.map.attached.contains_key(k) implies k == set_of(
        k.attrs,
    ) && k.attrs.len() > 0 by {
        assert(after.map.attached.dom().contains(k));
        if k != set {
            assert(before.map.attached.contains_key(k));
        }
    }
}

/// Trackers that stay with their sets and their marks keep the map well-formed.
proof fn lemma_same_sets_wf<S, C>(before: ValueMapView<S, C>, after: ValueMapView<S, C>)
    requires
        value_map_wf(before),
        map_wf(after.map),
        after.map.attached == before.map.attached,
        after.count == before.count,
        after.limit == before.limit,
        forall|id: usize| #[trigger]
            after.map.pool.contains_key(id) ==> before.map.pool.contains_key(id)
                && after.map.pool[id].tracker.evicted == before.map.pool[id].tracker.evicted,
    ensures
        value_map_wf(after),
{
    assert forall|id: usize| #[trigger]
        after.map.pool.contains_key(id)
            && !after.map.pool[id].tracker.evicted implies is_attached(after.map, id) by {
        assert(is_attached(before.map, id));
        let set = choose|set: HashedView|
            before.map.attached.contains_key(set) && #[trigger] before.map.attached[set] == id;
        assert(after.map.attached[set] == id);
    }
    assert forall|set: HashedView| #[trigger]
        after.map.attached.contains_key(set) implies set == set_of(set.attrs) && set.attrs.len()
        > 0 by {
        assert(before.map.attached.contains_key(set));
    }
}

/// A set that enters with a tracker leaves the other trackers marked as they were.
proof fn lemma_entered_marked<S>(
    before: MapView<S>,
    after: MapView<S>,
    set: HashedView,
    cell: CellView<S>,
)
    requires
        map_wf(before),
        detached_are_marked(before),
        enters(before, after, set, cell),
        !cell.tracker.evicted,
        cell.holders >= 1,
    ensures
        map_wf(after),
        detached_are_marked(after),
{
    lemma_enters_wf(before, after, set, cell);
    assert forall|id: usize| #[trigger]
        after.pool.contains_key(id) && !after.pool[id].tracker.evicted implies is_attached(
        after,
        id,
    ) by {
        if id != after.attached[set] {
            assert(before.pool.contains_key(id));
        }
    }
}

/// A measurement keeps the map well-formed.
pub proof fn lemma_measures_wf<A: Aggregator>(
    before: ValueMapView<A::State, A::InitConfig>,
    after: ValueMapView<A::State, A::InitConfig>,
    value: A::PreComputedValue,
    attrs: Seq<KeyValueView>,
)
    requires
        value_map_wf(before),
        measures::<A>(before, after, value, attrs),
    ensures
        value_map_wf(after),
{
    if attrs.len() > 0 {
        let set = target_of(before, attrs);
        assert(after.map.attached.dom() =~= before.map.attached.dom().insert(set));
        if before.map.attached.contains_key(set) {
            assert(after.map.pool.dom() =~= before.map.pool.dom());
            lemma_same_trackers_wf(before.map, after.map);
            lemma_same_sets_wf(before, after);
        } else {
            lemma_entered_marked(
                before.map,
                after.map,
                set,
                after.map.pool[after.map.attached[set]],
            );
            lemma_entered(before, after, attrs);
        }
    }
}

/// Giving out a handle keeps the map well-formed.
pub proof fn lemma_binds_wf<A: Aggregator>(
    before: ValueMapView<A::State, A::InitConfig>,
    after: ValueMapView<A::State, A::InitConfig>,
    attrs: Seq<KeyValueView>,
    id: usize,
)
    requires
        value_map_wf(before),
        attrs.len() > 0,
        binds::<A>(before, after, attrs, id),
    ensures
        value_map_wf(after),
{
    let set = target_of(before, attrs);
    assert(after.map.attached.dom() =~= before.map.attached.dom().insert(set));
    if before.map.attached.contains_key(set) {
        assert(after.map.pool.dom() =~= before.map.pool.dom());
        lemma_same_trackers_wf(before.map, after.map);
        lemma_same_sets_wf(before, after);
    } else {
        lemma_entered_marked(before.map, after.map, set, after.map.pool[id]);
        lemma_entered(before, after, attrs);
    }
}

/// Evicting stale sets keeps the map well-formed, and frees the count of each but the overflow set.
pub proof fn lemma_stale_evicted<S, C>(before: ValueMapView<S, C>, after: ValueMapView<S, C>)
    requires
        value_map_wf(before),
        after.map == without_sets(before.map, stale_sets(before.map)),
        after.count == before.count - stale_sets(before.map).remove(overflow_set()).len(),
        after.limit == before.limit,
    ensures
        value_map_wf(after),
{
    let m = before.map;
    let stale = stale_sets(m);
    lemma_without_sets_wf(m, stale);
    lemma_stale_counted(m);
    assert forall|id: usize| #[trigger]
        after.map.pool.contains_key(id)
            && !after.map.pool[id].tracker.evicted implies is_attached(after.map, id) by {
        assert(is_attached(m, id));
        let set = choose|set: HashedView|
            m.attached.contains_key(set) && #[trigger] m.attached[set] == id;
        assert(!stale.contains(set));
        assert(after.map.attached[set] == id);
    }
    assert forall|set: HashedView| #[trigger]
        after.map.attached.contains_key(set) implies set == set_of(set.attrs) && set.attrs.len()
        > 0 by {
        assert(m.attached.contains_key(set));
    }
}

/// The stale sets are among the sets, and what is left is the difference.
proof fn lemma_stale_counted<S>(m: MapView<S>)
    requires
        map_wf(m),
    ensures
        stale_sets(m).finite(),
        stale_sets(m).remove(overflow_set()).len() <= counted_sets(m).len(),
        counted_sets(without_sets(m, stale_sets(m))).len() == counted_sets(m).len() - stale_sets(
            m,
        ).remove(overflow_set()).len(),
{
    let stale = stale_sets(m);
    let counted = counted_sets(m);
    let gone = stale.remove(overflow_set());
    assert(stale.subset_of(m.attached.dom()));
    vstd::set_lib::lemma_len_subset(stale, m.attached.dom());
    assert(gone.subset_of(counted));
    vstd::set_lib::lemma_len_subset(gone, counted);
    vstd::set_lib::lemma_set_disjoint_lens(counted.difference(gone), gone);
    assert(counted.difference(gone).union(gone) =~= counted);
    assert(counted_sets(without_sets(m, stale)) =~= counted.difference(gone));
}

/// The storage for the measurements of an instrument.
pub struct ValueMap<A: Aggregator> {
    trackers: ShardedMap<A>,
    count: usize,
    has_no_attribute_value: bool,
    no_attribute_tracker: TrackerEntry<A>,
    overflow_attrs: HashedAttributes,
    config: A::InitConfig,
    cardinality_limit: usize,
}

impl<A: Aggregator> View for ValueMap<A> {
    type V = ValueMapView<A::State, A::InitConfig>;

    closed spec fn view(&self) -> ValueMapView<A::State, A::InitConfig> {
        ValueMapView {
            map: self.trackers@,
            count: self.count,
            has_no_attribute_value: self.has_no_attribute_value,
            no_attribute: self.no_attribute_tracker@,
            config: self.config,
            limit: self.cardinality_limit,
        }
    }
}

impl<A: Aggregator> ValueMap<A> {
    /// The slots of the attribute sets, in the order in which they are visited.
    pub closed spec fn slots(&self) -> Seq<SlotView> {
        self.trackers.slots()
    }

    /// What [`value_map_wf`] says, of the shards too.
    pub closed spec fn wf(&self) -> bool {
        &&& self.trackers.wf()
        &&& self.overflow_attrs@ == overflow_set()
        &&& value_map_wf(self@)
    }

    /// What holds of every map.
    pub proof fn lemma_wf(&self)
        requires
            self.wf(),
        ensures
            value_map_wf(self@),
    {
    }

    /// The configuration that new aggregators are made with.
    pub fn config(&self) -> (config: &A::InitConfig)
        ensures
            *config == self@.config,
    {
        &self.config
    }

    /// A map without measurements.
    pub fn new(config: A::InitConfig, cardinality_limit: usize) -> (map: Self)
        ensures
            map.wf(),
            map.slots() == Seq::<SlotView>::empty(),
            map@ == (ValueMapView::<A::State, A::InitConfig> {
                map: MapView { attached: Map::empty(), pool: Map::empty() },
                count: 0,
                has_no_attribute_value: false,
                no_attribute: new_tracker(A::initial(config)),
                config,
                limit: cardinality_limit,
            }),
    {
        let map = ValueMap {
            trackers: ShardedMap::new(capacity_per_shard(cardinality_limit)),
            count: 0,
            has_no_attribute_value: false,
            no_attribute_tracker: TrackerEntry::new(A::create(&config)),
            overflow_attrs: HashedAttributes::from_sorted(stream_overflow_attributes()),
            config,
            cardinality_limit,
        };
        assert(counted_sets(map@.map) =~= Set::empty());
        map
    }

    /// Gives out a handle to the tracker under which measurements with these attributes are
    /// counted.
    pub fn bind(&mut self, attributes: &[KeyValue]) -> (handle: BoundTracker)
        requires
            old(self).wf(),
            attributes@.len() > 0,
        ensures
            final(self).wf(),
            binds::<A>(old(self)@, final(self)@, attr_views(attributes@), handle.id()),
    {
        let set: HashedAttributes = HashedAttributes::from_raw(attributes);
        let handle: BoundTracker = self.trackers.bind(
            &set,
            &self.config,
            &mut self.count,
            self.cardinality_limit,
            &self.overflow_attrs,
        );
        proof {
            lemma_binds_wf::<A>(old(self)@, self@, attr_views(attributes@), handle.id());
        }
        handle
    }

    /// Counts a measurement under its attributes.
    pub fn measure(&mut self, value: A::PreComputedValue, attributes: &[KeyValue])
        requires
            old(self).wf(),
        ensures
            final(self).wf(),
            measures::<A>(old(self)@, final(self)@, value, attr_views(attributes@)),
    {
        if attributes.len() == 0 {
            self.no_attribute_tracker.aggregator.update(value);
            self.no_attribute_tracker.has_been_updated = true;
            self.has_no_attribute_value = true;
            return;
        }
        let set: HashedAttributes = HashedAttributes::from_raw(attributes);
        self.trackers.measure(
            &set,
            value,
            &self.config,
            &mut self.count,
            self.cardinality_limit,
            &self.overflow_attrs,
        );
        proof {
            lemma_measures_wf::<A>(old(self)@, self@, value, attr_views(attributes@));
        }
    }

    /// Reads the tracker behind a handle.
    pub fn tracker(&self, handle: &BoundTracker) -> (found: Option<&TrackerEntry<A>>)
        ensures
            match found {
                Some(tracker) => self@.map.pool.contains_key(handle.id()) && tracker@
                    == self@.map.pool[handle.id()].tracker,
                None => !self@.map.pool.contains_key(handle.id()),
            },
    {
        self.trackers.tracker(handle)
    }

    /// Gives the aggregator behind a handle, to be changed in place.
    pub fn aggregator_mut(&mut self, handle: &BoundTracker) -> (found: Option<&mut A>)
        requires
            old(self).wf(),
        ensures
            final(self).wf(),
            match found {
                Some(aggregator) => {
                    &&& old(self)@.map.pool.contains_key(handle.id())
                    &&& (*aggregator).view() == old(self)@.map.pool[handle.id()].tracker.aggregator
                    &&& final(self)@ == (ValueMapView {
                        map: with_state(
                            old(self)@.map,
                            handle.id(),
                            (*final(aggregator)).view(),
                        ),
                        ..old(self)@
                    })
                },
                None => !old(self)@.map.pool.contains_key(handle.id()) && final(self)@
                    == old(self)@,
            },
    {
        proof {
            let (m, id) = (self@.map, handle.id());
            assert forall|state: A::State| m.pool.contains_key(id) implies value_map_wf(
                ValueMapView { map: #[trigger] with_state(m, id, state), ..self@ },
            ) by {
                lemma_with_state_wf(m, id, state);
                lemma_same_sets_wf(
                    self@,
                    ValueMapView { map: with_state(m, id, state), ..self@ },
                );
            }
        }
        self.trackers.aggregator_mut(handle)
    }

    /// Gives a handle back. A tracker that has left the map goes with its last handle.
    pub fn release(&mut self, handle: BoundTracker)
        requires
            old(self).wf(),
        ensures
            final(self).wf(),
            final(self)@ == (ValueMapView {
                map: released(old(self)@.map, handle.id()),
                ..old(self)@
            }),
    {
        self.trackers.release(handle);
        proof {
            self.trackers.lemma_wf();
            lemma_same_sets_wf(old(self)@, self@);
        }
    }

    /// Counts a measurement through a handle that was bound with these attributes. Where the
    /// tracker has left the map since, the measurement takes the way of [`ValueMap::measure`], so
    /// that it is not lost.
    pub fn measure_bound(
        &mut self,
        handle: &BoundTracker,
        value: A::PreComputedValue,
        attributes: &[KeyValue],
    )
        requires
            old(self).wf(),
        ensures
            final(self).wf(),
            measures_bound::<A>(
                old(self)@,
                final(self)@,
                handle.id(),
                value,
                attr_views(attributes@),
            ),
    {
        let live: bool = match self.trackers.tracker(handle) {
            Some(tracker) => !tracker.evicted,
            None => false,
        };
        if !live {
            self.measure(value, attributes);
            return;
        }
        if let Some(aggregator) = self.trackers.aggregator_mut(handle) {
            aggregator.update(value);
        }
        self.trackers.swap_updated(handle, true);
        proof {
            self.trackers.lemma_wf();
            assert(self@.map.pool =~= with_tracker(
                old(self)@.map.pool,
                handle.id(),
                measured::<A>(old(self)@.map.pool[handle.id()].tracker, value),
            ));
            lemma_same_sets_wf(old(self)@, self@);
        }
    }

    /// The slots list the attribute sets, each once, with their trackers.
    pub proof fn lemma_slots(&self)
        requires
            self.wf(),
        ensures
            distinct_sets(self.slots()),
            forall|set: HashedView| #[trigger]
                self@.map.attached.contains_key(set) <==> has_set(self.slots(), set),
            forall|i: int|
                0 <= i < self.slots().len() ==> self@.map.attached.contains_key(
                    (#[trigger] self.slots()[i]).set,
                ) && self@.map.attached[self.slots()[i].set] == self.slots()[i].tracker,
    {
        self.trackers.lemma_slots();
    }

    /// Makes a point for the measurements without attributes, where there are any, and one for each
    /// attribute set. Nothing is reset: this is for cumulative temporality, where the attribute sets
    /// persist from one collection to the next.
    pub fn collect_readonly<Res, MapFn: FnMut(Vec<KeyValue>, &A) -> Res>(
        &self,
        dest: &mut Vec<Res>,
        mut map_fn: MapFn,
    )
        requires
            self.wf(),
            forall|list: Vec<KeyValue>, aggregator: &A|
                reads(self@, attr_views(list@), aggregator.view()) ==> #[trigger] map_fn.requires(
                    (list, aggregator),
                ),
        ensures
            final(dest)@.len() == points_without_attributes(self@) + self.slots().len(),
            self@.has_no_attribute_value ==> read_point(
                map_fn,
                Seq::empty(),
                self@.no_attribute.aggregator,
                final(dest)@[0],
            ),
            forall|i: int|
                0 <= i < self.slots().len() ==> read_point(
                    map_fn,
                    (#[trigger] self.slots()[i]).set.attrs,
                    self@.map.pool[self.slots()[i].tracker].tracker.aggregator,
                    final(dest)@[points_without_attributes(self@) + i],
                ),
    {
        prepare_data(dest, self.count);
        if self.has_no_attribute_value {
            let list: Vec<KeyValue> = Vec::new();
            assert(attr_views(list@) =~= Seq::empty());
            let point: Res = map_fn(list, &self.no_attribute_tracker.aggregator);
            dest.push(point);
        }
        self.trackers.collect_all(dest, map_fn);
    }

    /// Makes a point for each tracker that was updated since the last collection, and counts it as
    /// not updated. The attribute sets stay in the map.
    pub fn collect_updated<Res, MapFn: FnMut(Vec<KeyValue>, &mut A) -> Res>(
        &mut self,
        dest: &mut Vec<Res>,
        mut map_fn: MapFn,
    )
        requires
            old(self).wf(),
            forall|list: Vec<KeyValue>, aggregator: &mut A|
                reads(old(self)@, attr_views(list@), (*aggregator).view())
                    ==> #[trigger] map_fn.requires((list, aggregator)),
        ensures
            final(self).wf(),
            final(self).slots() == old(self).slots(),
            final(self)@ == (ValueMapView {
                map: final(self)@.map,
                no_attribute: final(self)@.no_attribute,
                ..old(self)@
            }),
            final(self)@.map.attached == old(self)@.map.attached,
            pool_collected(old(self)@.map.pool, final(self)@.map.pool),
            no_attribute_collected(old(self)@, final(self)@.no_attribute),
            final(dest)@.len() == due_without_attributes(old(self)@) + due_slots(
                old(self).slots(),
                old(self)@.map.pool,
            ).len(),
            due_without_attributes(old(self)@) == 1 ==> exists|
                list: Vec<KeyValue>,
                aggregator: &mut A,
            |
                attr_views(list@) == Seq::<KeyValueView>::empty() && (*aggregator).view()
                    == old(self)@.no_attribute.aggregator && (*final(aggregator)).view()
                    == final(self)@.no_attribute.aggregator && #[trigger] map_fn.ensures(
                    (list, aggregator),
                    final(dest)@[0],
                ),
            forall|i: int|
                0 <= i < due_slots(old(self).slots(), old(self)@.map.pool).len()
                    ==> old(self)@.map.attached.contains_key(
                    (#[trigger] due_slots(old(self).slots(), old(self)@.map.pool)[i]).set,
                ),
            // The second condition holds by the clause above. It is a term for the solver to start
            // from.
            forall|i: int|
                0 <= i < due_slots(old(self).slots(), old(self)@.map.pool).len()
                    && old(self)@.map.attached.contains_key(
                    (#[trigger] due_slots(old(self).slots(), old(self)@.map.pool)[i]).set,
                ) ==> {
                    let slot = due_slots(old(self).slots(), old(self)@.map.pool)[i];
                    exists|list: Vec<KeyValue>, aggregator: &mut A|
                        attr_views(list@) == slot.set.attrs && (*aggregator).view()
                            == old(self)@.map.pool[slot.tracker].tracker.aggregator
                            && (*final(aggregator)).view()
                            == final(self)@.map.pool[slot.tracker].tracker.aggregator
                            && #[trigger] map_fn.ensures(
                            (list, aggregator),
                            final(dest)@.skip(due_without_attributes(old(self)@) as int)[i],
                        )
                },
    {
        prepare_data(dest, self.count);
        if self.has_no_attribute_value {
            if self.no_attribute_tracker.swap_updated(false) {
                let list: Vec<KeyValue> = Vec::new();
                assert(attr_views(list@) =~= Seq::empty());
                let aggregator: &mut A = &mut self.no_attribute_tracker.aggregator;
                let point: Res = map_fn(list, aggregator);
                assert(exists|list: Vec<KeyValue>, aggregator: &mut A| #[trigger]
                    map_fn.ensures((list, aggregator), point));
                dest.push(point);
                assert(dest@[0] == point);
            }
        }
        let ghost first = dest@;
        proof {
            if due_without_attributes(old(self)@) == 1 {
                assert(exists|list: Vec<KeyValue>, aggregator: &mut A|
                    attr_views(list@) == Seq::<KeyValueView>::empty() && (*aggregator).view()
                        == old(self)@.no_attribute.aggregator && (*final(aggregator)).view()
                        == self@.no_attribute.aggregator && #[trigger] map_fn.ensures(
                        (list, aggregator),
                        first[0],
                    ));
            }
        }
        self.trackers.collect_updated(dest, map_fn);
        proof {
            self.trackers.lemma_wf();
            assert forall|id: usize| #[trigger]
                self@.map.pool.contains_key(id) implies old(self)@.map.pool.contains_key(id) && (
            is_due(old(self)@.map.pool[id].tracker) <==> is_attached(old(self)@.map, id)
                && old(self)@.map.pool[id].tracker.has_been_updated) by {
                assert(old(self)@.map.pool.dom().contains(id));
            }
            lemma_same_sets_wf(old(self)@, self@);
            assert(first.len() > 0 ==> dest@[0] == first[0]);
            assert(first.len() == due_without_attributes(old(self)@));
            assert(due_slots(old(self).slots(), old(self)@.map.pool) == due_slots(
                old(self).trackers.slots(),
                old(self).trackers@.pool,
            ));
        }
    }

    /// Evicts the attribute sets whose trackers were not updated since the last collection, which
    /// makes room for others. The overflow set does not count.
    pub fn evict_stale(&mut self)
        requires
            old(self).wf(),
        ensures
            final(self).wf(),
            final(self)@ == (ValueMapView {
                map: without_sets(old(self)@.map, stale_sets(old(self)@.map)),
                count: (old(self)@.count - stale_sets(old(self)@.map).remove(
                    overflow_set(),
                ).len()) as usize,
                ..old(self)@
            }),
            stale_sets(old(self)@.map).remove(overflow_set()).len() <= old(self)@.count,
            final(self).slots() == old(self).slots().filter(outside(stale_sets(old(self)@.map))),
    {
        let ghost m = self@.map;
        let ghost stale = stale_sets(m);
        let entries: Vec<(HashedAttributes, BoundTracker)> = self.trackers.retain(was_updated);
        let ghost views = entry_sets(entries@);
        let ghost total: usize = entries.len();
        let ghost rest = self.trackers@.attached;
        let ghost slots = self.trackers.slots();
        let mut evicted: usize = 0;
        proof {
            assert(views.to_set() =~= stale);
            assert(views.take(0).to_set() =~= Set::empty());
            assert(views.take(0).to_set().remove(overflow_set()) =~= Set::empty());
            assert(without_sets(m, Set::empty()).pool =~= m.pool);
        }
        for entry in it: entries
            invariant
                map_wf(m),
                views == entry_sets(it.seq()),
                it.seq().len() == total,
                views.no_duplicates(),
                views.to_set() == stale,
                forall|i: int|
                    0 <= i < it.seq().len() ==> m.attached.contains_key(
                        (#[trigger] it.seq()[i]).0@,
                    ) && m.attached[it.seq()[i].0@] == it.seq()[i].1.id(),
                rest == m.attached.remove_keys(stale),
                self.overflow_attrs@ == overflow_set(),
                self.trackers.wf(),
                self.trackers.slots() == slots,
                self.trackers@.attached == rest,
                self.trackers@.pool == without_sets(
                    m,
                    views.take(it.index() as int).to_set(),
                ).pool,
                self@ == (ValueMapView { map: self.trackers@, ..old(self)@ }),
                evicted <= it.index(),
                views.take(it.index() as int).to_set().finite(),
                evicted == views.take(it.index() as int).to_set().remove(overflow_set()).len(),
        {
            let (set, handle) = entry;
            proof {
                let n = it.index() as int;
                let (front, more) = (views.take(n), views.take(n + 1));
                assert(views[n] == it.seq()[n].0@);
                assert(more =~= front.push(set@));
                lemma_pushed_set(front, set@);
                assert(!front.contains(set@));
                if set@ == overflow_set() {
                    assert(more.to_set().remove(set@) =~= front.to_set().remove(set@));
                } else {
                    assert(more.to_set().remove(overflow_set()) =~= front.to_set().remove(
                        overflow_set(),
                    ).insert(set@));
                }
                lemma_one_set_more(m, front.to_set(), set@);
                assert(stale.contains(set@));
                assert(!is_attached(self.trackers@, handle.id())) by {
                    if is_attached(self.trackers@, handle.id()) {
                        let other = choose|other: HashedView|
                            rest.contains_key(other) && #[trigger] rest[other] == handle.id();
                        assert(m.attached[other] == m.attached[set@]);
                    }
                }
            }
            self.trackers.mark_evicted(&handle);
            assert(!is_attached(self.trackers@, handle.id()));
            self.trackers.release(handle);
            if !(set == self.overflow_attrs) {
                evicted += 1;
            }
        }
        proof {
            assert(views.take(views.len() as int) =~= views);
            lemma_stale_counted(m);
        }
        if evicted > 0 {
            self.count = self.count - evicted;
        }
        proof {
            lemma_stale_evicted(old(self)@, self@);
        }
    }

    /// Makes a point for each tracker that was updated since the last collection, and keeps its
    /// attribute set in the map. The sets that were not updated since the last collection are
    /// evicted, so that the map does not grow without bound: this is for delta temporality.
    pub fn collect_and_reset<Res, MapFn: FnMut(Vec<KeyValue>, &mut A) -> Res>(
        &mut self,
        dest: &mut Vec<Res>,
        map_fn: MapFn,
    )
        requires
            old(self).wf(),
            forall|list: Vec<KeyValue>, aggregator: &mut A|
                reads(old(self)@, attr_views(list@), (*aggregator).view())
                    ==> #[trigger] map_fn.requires((list, aggregator)),
        ensures
            final(self).wf(),
            final(self).slots() == old(self).slots().filter(outside(stale_sets(old(self)@.map))),
            final(self)@ == (ValueMapView {
                map: MapView {
                    attached: old(self)@.map.attached.remove_keys(stale_sets(old(self)@.map)),
                    pool: final(self)@.map.pool,
                },
                count: final(self)@.count,
                no_attribute: final(self)@.no_attribute,
                ..old(self)@
            }),
            final(self)@.count == old(self)@.count - stale_sets(old(self)@.map).remove(
                overflow_set(),
            ).len(),
            pool_collected(
                without_sets(old(self)@.map, stale_sets(old(self)@.map)).pool,
                final(self)@.map.pool,
            ),
            no_attribute_collected(old(self)@, final(self)@.no_attribute),
            final(dest)@.len() == due_without_attributes(old(self)@) + due_slots(
                old(self).slots(),
                old(self)@.map.pool,
            ).len(),
            due_without_attributes(old(self)@) == 1 ==> exists|
                list: Vec<KeyValue>,
                aggregator: &mut A,
            |
                attr_views(list@) == Seq::<KeyValueView>::empty() && (*aggregator).view()
                    == old(self)@.no_attribute.aggregator && (*final(aggregator)).view()
                    == final(self)@.no_attribute.aggregator && #[trigger] map_fn.ensures(
                    (list, aggregator),
                    final(dest)@[0],
                ),
            forall|i: int|
                0 <= i < due_slots(old(self).slots(), old(self)@.map.pool).len()
                    ==> old(self)@.map.attached.contains_key(
                    (#[trigger] due_slots(old(self).slots(), old(self)@.map.pool)[i]).set,
                ),
            // The second condition holds by the clause above. It is a term for the solver to start
            // from.
            forall|i: int|
                0 <= i < due_slots(old(self).slots(), old(self)@.map.pool).len()
                    && old(self)@.map.attached.contains_key(
                    (#[trigger] due_slots(old(self).slots(), old(self)@.map.pool)[i]).set,
                ) ==> {
                    let slot = due_slots(old(self).slots(), old(self)@.map.pool)[i];
                    exists|list: Vec<KeyValue>, aggregator: &mut A|
                        attr_views(list@) == slot.set.attrs && (*aggregator).view()
                            == old(self)@.map.pool[slot.tracker].tracker.aggregator
                            && (*final(aggregator)).view()
                            == final(self)@.map.pool[slot.tracker].tracker.aggregator
                            && #[trigger] map_fn.ensures(
                            (list, aggregator),
                            final(dest)@.skip(due_without_attributes(old(self)@) as int)[i],
                        )
                },
    {
        let ghost m = self@.map;
        let ghost stale = stale_sets(m);
        let ghost slots = self.slots();
        proof {
            self.lemma_slots();
            lemma_without_sets_wf(m, stale);
        }
        self.evict_stale();
        let ghost mid = self@.map;
        let ghost mid_slots = self.slots();
        proof {
            assert forall|set: HashedView| #[trigger]
                mid.attached.contains_key(set) implies m.attached.contains_key(set)
                && mid.attached[set] == m.attached[set] && mid.pool[mid.attached[set]]
                == m.pool[m.attached[set]] by {
                assert(mid.pool.contains_key(mid.attached[set]));
                lemma_leaves_one_more(m, stale, set);
            }
            assert forall|attrs: Seq<KeyValueView>, state: A::State| #[trigger]
                reads(self@, attrs, state) implies reads(old(self)@, attrs, state) by {
                if holds_state(mid, attrs, state) {
                    let set = choose|set: HashedView|
                        set.attrs == attrs && #[trigger] mid.attached.contains_key(set)
                            && mid.pool[mid.attached[set]].tracker.aggregator == state;
                    assert(m.attached.contains_key(set));
                }
            }
            let due_before = |slot: SlotView| is_due(m.pool[slot.tracker].tracker);
            let due_now = |slot: SlotView| is_due(mid.pool[slot.tracker].tracker);
            assert forall|i: int| 0 <= i < slots.len() implies due_before(#[trigger] slots[i]) == (
            outside(stale)(slots[i]) && due_now(slots[i])) by {
                let set = slots[i].set;
                assert(m.attached.contains_key(set));
                assert(m.pool.contains_key(m.attached[set]));
                if !stale.contains(set) {
                    assert(mid.attached.contains_key(set));
                }
            }
            lemma_filter_twice(slots, outside(stale), due_now, due_before);
            assert(due_slots(slots, m.pool) == slots.filter(due_before));
            assert(due_slots(self.slots(), mid.pool) == self.slots().filter(due_now));
            assert forall|i: int| 0 <= i < due_slots(slots, m.pool).len() implies {
                let slot = #[trigger] due_slots(slots, m.pool)[i];
                &&& m.attached.contains_key(slot.set)
                &&& mid.attached.contains_key(slot.set)
                &&& mid.pool[slot.tracker] == m.pool[slot.tracker]
            } by {
                let slot = due_slots(slots, m.pool)[i];
                slots.lemma_filter_pred(due_before, i);
                slots.lemma_filter_contains_rev(due_before, slot);
                let k = slots.index_of(slot);
                assert(slots[k] == slot);
                assert(m.attached.contains_key(slots[k].set));
                assert(m.attached[slot.set] == slot.tracker);
                assert(!stale.contains(slot.set));
                assert(mid.attached.contains_key(slot.set));
            }
        }
        self.collect_updated(dest, map_fn);
        proof {
            let points = dest@.skip(due_without_attributes(old(self)@) as int);
            assert(due_slots(slots, m.pool) == due_slots(mid_slots, mid.pool));
            assert forall|i: int|
                0 <= i < due_slots(slots, m.pool).len() && m.attached.contains_key(
                    (#[trigger] due_slots(slots, m.pool)[i]).set,
                ) implies {
                let slot = due_slots(slots, m.pool)[i];
                exists|list: Vec<KeyValue>, aggregator: &mut A|
                    attr_views(list@) == slot.set.attrs && (*aggregator).view()
                        == m.pool[slot.tracker].tracker.aggregator && (*final(aggregator)).view()
                        == self@.map.pool[slot.tracker].tracker.aggregator
                        && #[trigger] map_fn.ensures((list, aggregator), points[i])
            } by {
                assert(mid.attached.contains_key(due_slots(mid_slots, mid.pool)[i].set));
            }
        }
    }

    /// Takes all attribute sets out of the map, and makes a point of each tracker's state and of that
    /// without attributes, where there is one. The trackers are reset, and those that handles hold
    /// are marked as evicted.
    pub fn drain_and_reset<Res, MapFn: FnMut(Vec<KeyValue>, A) -> Res>(
        &mut self,
        dest: &mut Vec<Res>,
        mut map_fn: MapFn,
    )
        requires
            old(self).wf(),
            forall|list: Vec<KeyValue>, aggregator: A|
                reads(old(self)@, attr_views(list@), aggregator.view())
                    ==> #[trigger] map_fn.requires((list, aggregator)),
        ensures
            final(self).wf(),
            final(self)@ == (ValueMapView {
                map: MapView {
                    attached: Map::empty(),
                    pool: pool_reset(old(self)@.map.pool, A::initial(old(self)@.config)),
                },
                count: 0,
                has_no_attribute_value: false,
                no_attribute: if old(self)@.has_no_attribute_value {
                    TrackerView {
                        aggregator: A::initial(old(self)@.config),
                        ..old(self)@.no_attribute
                    }
                } else {
                    old(self)@.no_attribute
                },
                ..old(self)@
            }),
            final(dest)@.len() == points_without_attributes(old(self)@) + old(self).slots().len(),
            old(self)@.has_no_attribute_value ==> taken_point(
                map_fn,
                Seq::empty(),
                old(self)@.no_attribute.aggregator,
                final(dest)@[0],
            ),
            forall|i: int|
                0 <= i < old(self).slots().len() ==> taken_point(
                    map_fn,
                    (#[trigger] old(self).slots()[i]).set.attrs,
                    old(self)@.map.pool[old(self).slots()[i].tracker].tracker.aggregator,
                    final(dest)@[points_without_attributes(old(self)@) + i],
                ),
    {
        let ghost v = self@;
        let ghost all = self.slots();
        let ghost initial = A::initial(self.config);
        let ghost g = map_fn;
        proof {
            self.lemma_slots();
        }
        prepare_data(dest, self.count);
        if self.has_no_attribute_value {
            self.has_no_attribute_value = false;
            let list: Vec<KeyValue> = Vec::new();
            assert(attr_views(list@) =~= Seq::empty());
            let taken: A = self.no_attribute_tracker.aggregator.clone_and_reset(&self.config);
            let point: Res = map_fn(list, taken);
            dest.push(point);
        }
        let ghost start = dest@;
        let ghost no_attribute = self.no_attribute_tracker@;
        let entries: Vec<(HashedAttributes, BoundTracker)> = self.trackers.drain_all();
        self.count = 0;
        let ghost mut done: Set<usize> = Set::empty();
        assert(self.trackers@.pool =~= partly_reset(v.map.pool, done, initial));
        for entry in it: entries
            invariant
                map_wf(v.map),
                distinct_sets(all),
                it.seq().len() == all.len(),
                forall|j: int|
                    0 <= j < all.len() ==> (#[trigger] it.seq()[j]).0@ == all[j].set
                        && it.seq()[j].1.id() == all[j].tracker,
                forall|j: int|
                    0 <= j < all.len() ==> v.map.attached.contains_key((#[trigger] all[j]).set)
                        && v.map.attached[all[j].set] == all[j].tracker,
                forall|list: Vec<KeyValue>, aggregator: A|
                    reads(v, attr_views(list@), aggregator.view()) ==> #[trigger] map_fn.requires(
                        (list, aggregator),
                    ),
                map_fn == g,
                initial == A::initial(self.config),
                self.config == v.config,
                self.trackers.wf(),
                self.trackers@.attached == Map::<HashedView, usize>::empty(),
                self.trackers@.pool == partly_reset(v.map.pool, done, initial),
                self.overflow_attrs@ == overflow_set(),
                self@ == (ValueMapView {
                    map: self.trackers@,
                    count: 0,
                    has_no_attribute_value: false,
                    no_attribute,
                    ..v
                }),
                forall|j: int| 0 <= j < it.index() ==> done.contains((#[trigger] all[j]).tracker),
                forall|id: usize| #[trigger]
                    done.contains(id) ==> exists|j: int|
                        0 <= j < it.index() && (#[trigger] all[j]).tracker == id,
                dest@.len() == start.len() + it.index(),
                forall|j: int| 0 <= j < start.len() ==> #[trigger] dest@[j] == start[j],
                forall|j: int|
                    0 <= j < it.index() ==> taken_point(
                        g,
                        (#[trigger] all[j]).set.attrs,
                        v.map.pool[all[j].tracker].tracker.aggregator,
                        dest@[start.len() + j],
                    ),
        {
            let ghost n = it.index() as int;
            let ghost slot = all[n];
            let (set, handle) = entry;
            proof {
                assert(it.seq()[n].0@ == slot.set);
                assert(v.map.attached.contains_key(slot.set));
                assert(!done.contains(slot.tracker)) by {
                    if done.contains(slot.tracker) {
                        let j = choose|j: int|
                            0 <= j < n && (#[trigger] all[j]).tracker == slot.tracker;
                        assert(all[j].set != all[n].set);
                        assert(v.map.attached[all[j].set] == v.map.attached[all[n].set]);
                    }
                }
            }
            if let Some(aggregator) = self.trackers.aggregator_mut(&handle) {
                let taken: A = aggregator.clone_and_reset(&self.config);
                assert(holds_state(v.map, attr_views(set.attrs@), taken.view()));
                let point: Res = map_fn(set.attrs, taken);
                dest.push(point);
            }
            self.trackers.mark_evicted(&handle);
            self.trackers.release(handle);
            proof {
                assert(self.trackers@.pool =~= partly_reset(
                    v.map.pool,
                    done.insert(slot.tracker),
                    initial,
                ));
                assert forall|id: usize| #[trigger]
                    done.insert(slot.tracker).contains(id) implies exists|j: int|
                    0 <= j < n + 1 && (#[trigger] all[j]).tracker == id by {
                    if id == slot.tracker {
                        assert(all[n].tracker == id);
                    }
                }
                done = done.insert(slot.tracker);
            }
        }
        proof {
            assert forall|id: usize| v.map.pool.contains_key(id) implies (#[trigger] done.contains(
                id,
            ) <==> !v.map.pool[id].tracker.evicted) by {
                if !v.map.pool[id].tracker.evicted {
                    let set = choose|set: HashedView|
                        v.map.attached.contains_key(set) && #[trigger] v.map.attached[set] == id;
                    let j = choose|j: int| 0 <= j < all.len() && (#[trigger] all[j]).set == set;
                    assert(all[j].tracker == id);
                }
            }
            assert(self.trackers@.pool =~= pool_reset(v.map.pool, initial));
            assert(counted_sets(self@.map) =~= Set::empty());
            self.trackers.lemma_wf();
        }
    }
}

/// The trackers where those of `done` have been reset, marked and given back.
spec fn partly_reset<S>(pool: Map<usize, CellView<S>>, done: Set<usize>, initial: S) -> Map<
    usize,
    CellView<S>,
> {
    Map::new(
        |id: usize| pool.contains_key(id) && (done.contains(id) ==> pool[id].holders > 1),
        |id: usize|
            if done.contains(id) {
                reset_cell(pool[id], initial)
            } else {
                pool[id]
            },
    )
}

/// One element more.
proof fn lemma_pushed_set(front: Seq<HashedView>, set: HashedView)
    ensures
        front.push(set).to_set() == front.to_set().insert(set),
{
    let more = front.push(set);
    assert forall|x: HashedView| #[trigger]
        more.to_set().contains(x) <==> front.to_set().insert(set).contains(x) by {
        if front.contains(x) {
            assert(more[front.index_of(x)] == x);
        }
        if more.contains(x) {
            let p = more.index_of(x);
            if p < front.len() {
                assert(front[p] == x);
            }
        }
        assert(more[front.len() as int] == set);
    }
    assert(more.to_set() =~= front.to_set().insert(set));
}

/// The number of attribute sets that each shard has room for from the start. A limit above the
/// default does not ask for more.
pub fn capacity_per_shard(cardinality_limit: usize) -> (capacity: usize)
    ensures
        capacity == (1 + if cardinality_limit < DEFAULT_CARDINALITY_LIMIT {
            cardinality_limit as int
        } else {
            DEFAULT_CARDINALITY_LIMIT as int
        }) / 16 + 1,
{
    let expected: usize = if cardinality_limit < DEFAULT_CARDINALITY_LIMIT {
        cardinality_limit
    } else {
        DEFAULT_CARDINALITY_LIMIT
    };
    (1 + expected) / NUM_SHARDS + 1
}

/// Whether a tracker was updated since the last collection.
fn was_updated<A: Aggregator>(_attrs: &HashedAttributes, entry: &TrackerEntry<A>) -> (updated: bool)
    ensures
        updated == entry.has_been_updated,
{
    entry.has_been_updated
}

/// Empties the points of an earlier collection and makes room for `list_len` attribute sets, the
/// measurements without attributes and the overflow set.
fn prepare_data<T>(data: &mut Vec<T>, list_len: usize)
    ensures
        final(data)@ == Seq::<T>::empty(),
{
    data.clear();
    data.reserve(list_len.saturating_add(2));
}

} // verus!
