//! The map from attribute sets to trackers, split into shards.

use crate::aggregator::{new_tracker, Aggregator, TrackerEntry, TrackerView};
use crate::collect::{due_slots, holds_state, is_due, map_collected, read_point};
use crate::hashed_attributes::{clone_attrs, HashedAttributes, HashedView};
use crate::key_value::{attr_views, KeyValue};
use crate::listing::{
    by_set, kept_of, lemma_attached, lemma_by_set, lemma_kept_elsewhere, lemma_kept_step,
    lemma_listing_contains, lemma_listing_distinct, lemma_listing_empty, lemma_listing_index,
    lemma_shards_kept, lemma_slot_added, list_slots, listing, outside, placed, NUM_SHARDS,
};
use crate::map_view::{
    belongs, bind_step, count_after, detached, enters, is_attached, leaves, lemma_detached_wf,
    lemma_enters_wf, lemma_leaves_one_more, lemma_released_wf, lemma_same_trackers_wf,
    lemma_with_mark_wf, map_wf, measure_step, measured, released, target, with_flag, with_mark,
    with_state, MapView,
};
use crate::shard::{distinct_sets, has_set, slot_views, Shard, Slot, SlotView};
use crate::tracker_pool::{with_tracker, CellView, TrackerPool};
use vstd::prelude::*;

verus! {

broadcast use Shard::lemma_wf_distinct;

/// A handle to a tracker. It is given out by `bind`, holds the tracker, and is given back to
/// the map that it came from. It is no more than a place in that map: another map reads its own
/// tracker at this place, if there is one.
#[derive(Debug)]
pub struct BoundTracker {
    id: usize,
}

impl BoundTracker {
    /// The place of the tracker in the pool.
    pub closed spec fn id(&self) -> usize {
        self.id
    }
}

/// The attribute sets that have a tracker, and the trackers.
pub struct ShardedMap<A: Aggregator> {
    shards: Vec<Shard>,
    pool: TrackerPool<A>,
}

impl<A: Aggregator> View for ShardedMap<A> {
    type V = MapView<A::State>;

    closed spec fn view(&self) -> MapView<A::State> {
        MapView { attached: by_set(self.slots()), pool: self.pool@ }
    }
}

impl<A: Aggregator> ShardedMap<A> {
    /// The slots, in the order in which they are visited.
    pub closed spec fn slots(&self) -> Seq<SlotView> {
        listing(self.shards@, 16)
    }

    spec fn shards_wf(&self) -> bool {
        &&& self.shards.len() == 16
        &&& placed(self.shards@)
        &&& forall|j: int| 0 <= j < 16 ==> (#[trigger] self.shards[j]).wf()
        &&& self.pool.wf()
    }

    /// The map is a holder of the trackers of its attribute sets, and of no others.
    spec fn holds_attached(&self) -> bool {
        forall|id: usize| #[trigger]
            self.pool.in_map().contains(id) <==> is_attached(self@, id)
    }

    /// Every set is in the shard that its hash selects, and the trackers match the sets.
    pub closed spec fn wf(&self) -> bool {
        &&& self.shards_wf()
        &&& self.holds_attached()
        &&& map_wf(self@)
    }

    /// Selects a shard by the hash.
    pub fn shard_index(hash: u64) -> (index: usize)
        ensures
            index == hash % 16,
            index < NUM_SHARDS,
    {
        assert((hash as usize) & 15 == hash % 16) by (bit_vector);
        (hash as usize) & (NUM_SHARDS - 1)
    }

    /// A map without attribute sets, each shard with room for `capacity_per_shard` of them.
    pub fn new(capacity_per_shard: usize) -> (map: Self)
        ensures
            map.wf(),
            map.slots() == Seq::<SlotView>::empty(),
            map@ == (MapView::<A::State> { attached: Map::empty(), pool: Map::empty() }),
    {
        let mut shards: Vec<Shard> = Vec::with_capacity(NUM_SHARDS);
        while shards.len() < NUM_SHARDS
            invariant
                shards.len() <= NUM_SHARDS,
                forall|j: int|
                    0 <= j < shards.len() ==> (#[trigger] shards[j]).wf() && shards[j]@
                        == Seq::<SlotView>::empty(),
            decreases NUM_SHARDS - shards.len(),
        {
            shards.push(Shard::new(capacity_per_shard));
        }
        let map = ShardedMap { shards, pool: TrackerPool::new() };
        proof {
            lemma_listing_empty(map.shards@, 16);
            assert(map@.attached =~= Map::empty());
        }
        map
    }
}

impl<A: Aggregator> ShardedMap<A> {
    /// The tracker of an attribute set.
    fn find(&self, attrs: &HashedAttributes) -> (found: Option<usize>)
        requires
            self.wf(),
        ensures
            match found {
                Some(id) => self@.attached.contains_key(attrs@) && self@.attached[attrs@] == id,
                None => !self@.attached.contains_key(attrs@),
            },
    {
        let k: usize = Self::shard_index(attrs.hash);
        let found: Option<usize> = self.shards[k].find(attrs);
        proof {
            let slots = self.slots();
            lemma_listing_distinct(self.shards@, 16);
            match found {
                Some(id) => {
                    let slot = SlotView { set: attrs@, tracker: id };
                    lemma_listing_contains(self.shards@, 16, slot);
                    assert(self.shards[k as int]@.contains(slot));
                    lemma_by_set(slots, slots.index_of(slot));
                },
                None => {
                    if has_set(slots, attrs@) {
                        let i = choose|i: int|
                            0 <= i < slots.len() && (#[trigger] slots[i]).set == attrs@;
                        assert(slots.contains(slots[i]));
                        lemma_listing_contains(self.shards@, 16, slots[i]);
                        let j = choose|j: int|
                            0 <= j < 16 && (#[trigger] self.shards[j])@.contains(slots[i]);
                        let p = self.shards[j]@.index_of(slots[i]);
                        assert(self.shards[j]@[p].set.hash % 16 == j);
                        assert(has_set(self.shards[k as int]@, attrs@));
                    }
                },
            }
        }
        found
    }

    /// Adds an attribute set with a new tracker.
    fn enter(&mut self, attrs: &HashedAttributes, tracker: TrackerEntry<A>) -> (id: usize)
        requires
            old(self).wf(),
            !old(self)@.attached.contains_key(attrs@),
            !tracker.evicted,
        ensures
            final(self).wf(),
            id == final(self)@.attached[attrs@],
            enters(old(self)@, final(self)@, attrs@, CellView { tracker: tracker@, holders: 1 }),
    {
        let k: usize = Self::shard_index(attrs.hash);
        let id: usize = self.pool.add(tracker);
        let slot = Slot { attrs: attrs.clone(), tracker: id };
        let ghost before = self.shards@;
        let ghost view = slot@;
        proof {
            if has_set(before[k as int]@, attrs@) {
                let i = choose|i: int|
                    0 <= i < before[k as int]@.len() && (#[trigger] before[k as int]@[i]).set
                        == attrs@;
                let x = before[k as int]@[i];
                assert(before[k as int]@.contains(x));
                lemma_listing_contains(before, 16, x);
                let slots = listing(before, 16);
                assert(slots[slots.index_of(x)].set == attrs@);
                assert(has_set(slots, attrs@));
            }
        }
        self.shards[k].insert(slot);
        proof {
            lemma_slot_added(before, self.shards@, k as int, view);
            lemma_enters_wf(
                old(self)@,
                self@,
                attrs@,
                CellView { tracker: tracker@, holders: 1 },
            );
        }
        id
    }

    /// The tracker under which measurements for a set are counted: that of the set, which enters
    /// the map where the limit leaves room for it, and else that of the overflow set. The overflow
    /// set is not counted.
    fn resolve(
        &mut self,
        hashed_attrs: &HashedAttributes,
        config: &A::InitConfig,
        count: &mut usize,
        cardinality_limit: usize,
        overflow_attrs: &HashedAttributes,
    ) -> (id: usize)
        requires
            old(self).wf(),
        ensures
            final(self).wf(),
            *final(count) == count_after(
                old(self)@.attached,
                *old(count),
                cardinality_limit,
                hashed_attrs@,
                overflow_attrs@,
            ),
            ({
                let set = target(
                    old(self)@.attached,
                    *old(count),
                    cardinality_limit,
                    hashed_attrs@,
                    overflow_attrs@,
                );
                &&& id == final(self)@.attached[set]
                &&& final(self)@.attached.contains_key(set)
                &&& if old(self)@.attached.contains_key(set) {
                    final(self)@ == old(self)@
                } else {
                    enters(
                        old(self)@,
                        final(self)@,
                        set,
                        CellView { tracker: new_tracker(A::initial(*config)), holders: 1 },
                    )
                }
            }),
    {
        match self.find(hashed_attrs) {
            Some(id) => id,
            None => {
                if *count < cardinality_limit {
                    if !(*hashed_attrs == *overflow_attrs) {
                        *count = *count + 1;
                    }
                    return self.enter(hashed_attrs, TrackerEntry::new(A::create(config)));
                }
                match self.find(overflow_attrs) {
                    Some(id) => id,
                    None => self.enter(overflow_attrs, TrackerEntry::new(A::create(config))),
                }
            },
        }
    }

    /// Counts a measurement for an attribute set. The set enters the map where it is not there
    /// yet and the limit leaves room for it; where it does not, the measurement is counted under
    /// the overflow set.
    pub fn measure(
        &mut self,
        hashed_attrs: &HashedAttributes,
        value: A::PreComputedValue,
        config: &A::InitConfig,
        count: &mut usize,
        cardinality_limit: usize,
        overflow_attrs: &HashedAttributes,
    )
        requires
            old(self).wf(),
        ensures
            final(self).wf(),
            *final(count) == count_after(
                old(self)@.attached,
                *old(count),
                cardinality_limit,
                hashed_attrs@,
                overflow_attrs@,
            ),
            measure_step::<A>(
                old(self)@,
                final(self)@,
                target(
                    old(self)@.attached,
                    *old(count),
                    cardinality_limit,
                    hashed_attrs@,
                    overflow_attrs@,
                ),
                value,
                *config,
            ),
    {
        let ghost set = target(
            self@.attached,
            *count,
            cardinality_limit,
            hashed_attrs@,
            overflow_attrs@,
        );
        let id: usize = self.resolve(
            hashed_attrs,
            config,
            count,
            cardinality_limit,
            overflow_attrs,
        );
        let ghost resolved = self@;
        match self.pool.get_mut(id) {
            Some(tracker) => {
                tracker.aggregator.update(value);
                tracker.has_been_updated = true;
            },
            None => {},
        }
        proof {
            let changed = measured::<A>(resolved.pool[id].tracker, value);
            assert(self@.pool == with_tracker(resolved.pool, id, changed));
            assert(self@.attached == resolved.attached);
            assert(self@.pool.dom() =~= resolved.pool.dom());
            lemma_same_trackers_wf(resolved, self@);
            if !old(self)@.attached.contains_key(set) {
                assert(self@.pool =~= old(self)@.pool.insert(
                    id,
                    CellView {
                        tracker: measured::<A>(new_tracker(A::initial(*config)), value),
                        holders: 1,
                    },
                ));
            }
        }
    }

    /// Gives out a handle to the tracker under which measurements for an attribute set are
    /// counted. The set enters the map as it does for a measurement.
    pub fn bind(
        &mut self,
        hashed_attrs: &HashedAttributes,
        config: &A::InitConfig,
        count: &mut usize,
        cardinality_limit: usize,
        overflow_attrs: &HashedAttributes,
    ) -> (handle: BoundTracker)
        requires
            old(self).wf(),
        ensures
            final(self).wf(),
            *final(count) == count_after(
                old(self)@.attached,
                *old(count),
                cardinality_limit,
                hashed_attrs@,
                overflow_attrs@,
            ),
            bind_step::<A>(
                old(self)@,
                final(self)@,
                target(
                    old(self)@.attached,
                    *old(count),
                    cardinality_limit,
                    hashed_attrs@,
                    overflow_attrs@,
                ),
                *config,
                handle.id(),
            ),
    {
        let ghost set = target(
            self@.attached,
            *count,
            cardinality_limit,
            hashed_attrs@,
            overflow_attrs@,
        );
        let id: usize = self.resolve(
            hashed_attrs,
            config,
            count,
            cardinality_limit,
            overflow_attrs,
        );
        let ghost resolved = self@;
        self.pool.hold(id);
        proof {
            assert(self@.attached == resolved.attached);
            assert(self@.pool.dom() =~= resolved.pool.dom());
            lemma_same_trackers_wf(resolved, self@);
            if !old(self)@.attached.contains_key(set) {
                assert(self@.pool =~= old(self)@.pool.insert(
                    id,
                    CellView { tracker: new_tracker(A::initial(*config)), holders: 2 },
                ));
            }
        }
        BoundTracker { id }
    }
}

impl<A: Aggregator> ShardedMap<A> {
    /// The sets and their trackers match.
    pub proof fn lemma_wf(&self)
        requires
            self.wf(),
        ensures
            map_wf(self@),
    {
    }

    /// The slots list the attribute sets, each once, with their trackers.
    pub proof fn lemma_slots(&self)
        requires
            self.wf(),
        ensures
            distinct_sets(self.slots()),
            forall|set: HashedView| #[trigger]
                self@.attached.contains_key(set) <==> has_set(self.slots(), set),
            forall|i: int|
                0 <= i < self.slots().len() ==> self@.attached.contains_key(
                    (#[trigger] self.slots()[i]).set,
                ) && self@.attached[self.slots()[i].set] == self.slots()[i].tracker,
    {
        lemma_listing_distinct(self.shards@, 16);
        assert forall|i: int| 0 <= i < self.slots().len() implies self@.attached.contains_key(
            (#[trigger] self.slots()[i]).set,
        ) && self@.attached[self.slots()[i].set] == self.slots()[i].tracker by {
            lemma_by_set(self.slots(), i);
        }
    }

    /// Reads the tracker behind a handle.
    pub fn tracker(&self, handle: &BoundTracker) -> (found: Option<&TrackerEntry<A>>)
        ensures
            match found {
                Some(tracker) => self@.pool.contains_key(handle.id()) && tracker@
                    == self@.pool[handle.id()].tracker,
                None => !self@.pool.contains_key(handle.id()),
            },
    {
        self.pool.get(handle.id)
    }

    /// Gives the aggregator behind a handle, to be changed in place.
    pub fn aggregator_mut(&mut self, handle: &BoundTracker) -> (found: Option<&mut A>)
        requires
            old(self).wf(),
        ensures
            final(self).wf(),
            match found {
                Some(aggregator) => {
                    &&& old(self)@.pool.contains_key(handle.id())
                    &&& (*aggregator).view() == old(self)@.pool[handle.id()].tracker.aggregator
                    &&& final(self)@ == with_state(
                        old(self)@,
                        handle.id(),
                        (*final(aggregator)).view(),
                    )
                },
                None => !old(self)@.pool.contains_key(handle.id()) && final(self)@ == old(self)@,
            },
    {
        proof {
            let (m, id) = (self@, handle.id);
            assert forall|tracker: TrackerView<A::State>|
                m.pool.contains_key(id) && tracker.evicted
                    == m.pool[id].tracker.evicted implies map_wf(
                MapView { pool: #[trigger] with_tracker(m.pool, id, tracker), ..m },
            ) by {
                let after = MapView { pool: with_tracker(m.pool, id, tracker), ..m };
                assert(after.pool.dom() =~= m.pool.dom());
                lemma_same_trackers_wf(m, after);
            }
        }
        match self.pool.get_mut(handle.id) {
            Some(tracker) => Some(&mut tracker.aggregator),
            None => None,
        }
    }

    /// Sets the updated flag of the tracker behind a handle and gives back what it was.
    pub fn swap_updated(&mut self, handle: &BoundTracker, flag: bool) -> (was: Option<bool>)
        requires
            old(self).wf(),
        ensures
            final(self).wf(),
            final(self).slots() == old(self).slots(),
            match was {
                Some(was) => {
                    &&& old(self)@.pool.contains_key(handle.id())
                    &&& was == old(self)@.pool[handle.id()].tracker.has_been_updated
                    &&& final(self)@ == with_flag(old(self)@, handle.id(), flag)
                },
                None => !old(self)@.pool.contains_key(handle.id()) && final(self)@ == old(self)@,
            },
    {
        proof {
            let after = with_flag(self@, handle.id(), flag);
            if self@.pool.contains_key(handle.id()) {
                assert(after.pool.dom() =~= self@.pool.dom());
                lemma_same_trackers_wf(self@, after);
            }
        }
        match self.pool.get_mut(handle.id) {
            Some(tracker) => Some(tracker.swap_updated(flag)),
            None => None,
        }
    }

    /// Gives a handle back. A tracker that has left the map goes with its last handle.
    pub fn release(&mut self, handle: BoundTracker)
        requires
            old(self).wf(),
        ensures
            final(self).wf(),
            final(self).slots() == old(self).slots(),
            final(self)@ == released(old(self)@, handle.id()),
    {
        proof {
            lemma_released_wf(self@, handle.id());
        }
        let leaves: bool = match self.pool.get(handle.id) {
            Some(_) => !self.pool.is_in_map(handle.id) || self.pool.is_shared(handle.id),
            None => false,
        };
        if leaves {
            self.pool.release(handle.id);
        }
        assert(self.holds_attached()) by {
            assert forall|id: usize| #[trigger]
                self.pool.in_map().contains(id) <==> is_attached(self@, id) by {
                assert(old(self).pool.in_map().contains(id) <==> is_attached(old(self)@, id));
            }
        }
    }

    /// Marks the tracker behind a handle as evicted, where it has left the map.
    pub fn mark_evicted(&mut self, handle: &BoundTracker)
        requires
            old(self).wf(),
        ensures
            final(self).wf(),
            final(self).slots() == old(self).slots(),
            final(self)@ == with_mark(old(self)@, handle.id()),
    {
        proof {
            lemma_with_mark_wf(self@, handle.id());
            assert(self.pool.in_map().contains(handle.id) <==> is_attached(self@, handle.id));
        }
        if !self.pool.is_in_map(handle.id) {
            if let Some(tracker) = self.pool.get_mut(handle.id) {
                tracker.evicted = true;
            }
        }
    }

    /// Visits every attribute set with its tracker. Gives what the visits gave.
    pub fn for_each<R, F: FnMut(&HashedAttributes, &TrackerEntry<A>) -> R>(&self, mut f: F) -> (
    results: Vec<R>)
        requires
            self.wf(),
            forall|attrs: &HashedAttributes, entry: &TrackerEntry<A>|
                belongs(self@, attrs@, entry@) ==> #[trigger] f.requires((attrs, entry)),
        ensures
            results.len() == self.slots().len(),
            forall|i: int|
                0 <= i < results.len() ==> visited(
                    f,
                    self.slots()[i].set,
                    self@.pool[self.slots()[i].tracker].tracker,
                    #[trigger] results[i],
                ),
    {
        let slots: Vec<&Slot> = list_slots(&self.shards);
        let mut results: Vec<R> = Vec::new();
        let ghost g = f;
        proof {
            self.lemma_slots();
        }
        let mut i: usize = 0;
        while i < slots.len()
            invariant
                self.wf(),
                i <= slots.len(),
                slots.len() == self.slots().len(),
                forall|j: int| 0 <= j < slots.len() ==> (#[trigger] slots[j])@ == self.slots()[j],
                forall|j: int|
                    0 <= j < self.slots().len() ==> self@.attached.contains_key(
                        (#[trigger] self.slots()[j]).set,
                    ) && self@.attached[self.slots()[j].set] == self.slots()[j].tracker,
                forall|attrs: &HashedAttributes, entry: &TrackerEntry<A>|
                    belongs(self@, attrs@, entry@) ==> #[trigger] f.requires((attrs, entry)),
                f == g,
                results.len() == i,
                forall|j: int|
                    0 <= j < results.len() ==> visited(
                        f,
                        self.slots()[j].set,
                        self@.pool[self.slots()[j].tracker].tracker,
                        #[trigger] results[j],
                    ),
            decreases slots.len() - i,
        {
            let slot: &Slot = slots[i];
            assert(slot@ == self.slots()[i as int]);
            if let Some(tracker) = self.pool.get(slot.tracker) {
                let result: R = f(&slot.attrs, tracker);
                results.push(result);
            }
            i += 1;
        }
        results
    }

    /// Puts a point for every attribute set behind those that are there.
    pub fn collect_all<Res, MapFn: FnMut(Vec<KeyValue>, &A) -> Res>(
        &self,
        dest: &mut Vec<Res>,
        mut map_fn: MapFn,
    )
        requires
            self.wf(),
            forall|list: Vec<KeyValue>, aggregator: &A|
                holds_state(self@, attr_views(list@), aggregator.view())
                    ==> #[trigger] map_fn.requires((list, aggregator)),
        ensures
            final(dest)@.len() == old(dest)@.len() + self.slots().len(),
            forall|i: int|
                0 <= i < old(dest)@.len() ==> #[trigger] final(dest)@[i] == old(dest)@[i],
            forall|i: int|
                0 <= i < self.slots().len() ==> read_point(
                    map_fn,
                    (#[trigger] self.slots()[i]).set.attrs,
                    self@.pool[self.slots()[i].tracker].tracker.aggregator,
                    final(dest)@[old(dest)@.len() + i],
                ),
    {
        let ghost g = map_fn;
        let ghost all = self.slots();
        let ghost start = dest@;
        proof {
            self.lemma_slots();
        }
        let slots: Vec<&Slot> = list_slots(&self.shards);
        let mut i: usize = 0;
        while i < slots.len()
            invariant
                self.wf(),
                all == self.slots(),
                i <= slots.len(),
                slots.len() == all.len(),
                forall|j: int| 0 <= j < slots.len() ==> (#[trigger] slots[j])@ == all[j],
                forall|j: int|
                    0 <= j < all.len() ==> self@.attached.contains_key((#[trigger] all[j]).set)
                        && self@.attached[all[j].set] == all[j].tracker,
                forall|list: Vec<KeyValue>, aggregator: &A|
                    holds_state(self@, attr_views(list@), aggregator.view())
                        ==> #[trigger] map_fn.requires((list, aggregator)),
                map_fn == g,
                dest@.len() == start.len() + i,
                forall|j: int| 0 <= j < start.len() ==> #[trigger] dest@[j] == start[j],
                forall|j: int|
                    0 <= j < i ==> read_point(
                        g,
                        (#[trigger] all[j]).set.attrs,
                        self@.pool[all[j].tracker].tracker.aggregator,
                        dest@[start.len() + j],
                    ),
            decreases slots.len() - i,
        {
            let slot: &Slot = slots[i];
            assert(slot@ == all[i as int]);
            if let Some(tracker) = self.pool.get(slot.tracker) {
                let list: Vec<KeyValue> = clone_attrs(&slot.attrs.attrs);
                assert(self@.attached.contains_key(slot@.set));
                assert(holds_state(self@, attr_views(list@), tracker.aggregator.view()));
                let point: Res = map_fn(list, &tracker.aggregator);
                dest.push(point);
            }
            i += 1;
        }
    }

    /// Visits the trackers that were updated since the last collection: counts them as not updated,
    /// and puts a point for each behind those that are there.
    pub fn collect_updated<Res, MapFn: FnMut(Vec<KeyValue>, &mut A) -> Res>(
        &mut self,
        dest: &mut Vec<Res>,
        mut map_fn: MapFn,
    )
        requires
            old(self).wf(),
            forall|list: Vec<KeyValue>, aggregator: &mut A|
                holds_state(old(self)@, attr_views(list@), (*aggregator).view())
                    ==> #[trigger] map_fn.requires((list, aggregator)),
        ensures
            final(self).wf(),
            final(self).slots() == old(self).slots(),
            map_collected(old(self)@, final(self)@),
            final(dest)@.len() == old(dest)@.len() + due_slots(
                old(self).slots(),
                old(self)@.pool,
            ).len(),
            forall|i: int|
                0 <= i < old(dest)@.len() ==> #[trigger] final(dest)@[i] == old(dest)@[i],
            forall|i: int|
                0 <= i < due_slots(old(self).slots(), old(self)@.pool).len()
                    ==> old(self)@.attached.contains_key(
                    (#[trigger] due_slots(old(self).slots(), old(self)@.pool)[i]).set,
                ),
            // The second condition holds by the clause above. It is a term for the solver to start
            // from.
            forall|i: int|
                0 <= i < due_slots(old(self).slots(), old(self)@.pool).len()
                    && old(self)@.attached.contains_key(
                    (#[trigger] due_slots(old(self).slots(), old(self)@.pool)[i]).set,
                ) ==> {
                    let slot = due_slots(old(self).slots(), old(self)@.pool)[i];
                    exists|list: Vec<KeyValue>, aggregator: &mut A|
                        attr_views(list@) == slot.set.attrs && (*aggregator).view()
                            == old(self)@.pool[slot.tracker].tracker.aggregator
                            && (*final(aggregator)).view()
                            == final(self)@.pool[slot.tracker].tracker.aggregator
                            && #[trigger] map_fn.ensures(
                            (list, aggregator),
                            final(dest)@.skip(old(dest)@.len() as int)[i],
                        )
                },
    {
        let ghost m = self@;
        let ghost shards = self.shards;
        let ghost in_map = self.pool.in_map();
        let ghost all = self.slots();
        let ghost start = dest@;
        let ghost g = map_fn;
        let ghost mut picked: Seq<int> = Seq::empty();
        let ghost due = |slot: SlotView| is_due(m.pool[slot.tracker].tracker);
        proof {
            self.lemma_slots();
            reveal(Seq::filter);
            assert(all.take(0).filter(due) =~= Seq::<SlotView>::empty());
        }
        let slots: Vec<&Slot> = list_slots(&self.shards);
        let mut i: usize = 0;
        while i < slots.len()
            invariant
                map_wf(m),
                self.shards == shards,
                self.pool.wf(),
                i <= slots.len(),
                slots.len() == all.len(),
                distinct_sets(all),
                forall|j: int| 0 <= j < slots.len() ==> (#[trigger] slots[j])@ == all[j],
                forall|j: int|
                    0 <= j < all.len() ==> m.attached.contains_key((#[trigger] all[j]).set)
                        && m.attached[all[j].set] == all[j].tracker,
                forall|list: Vec<KeyValue>, aggregator: &mut A|
                    holds_state(m, attr_views(list@), (*aggregator).view())
                        ==> #[trigger] map_fn.requires((list, aggregator)),
                map_fn == g,
                due == (|slot: SlotView| is_due(m.pool[slot.tracker].tracker)),
                self.pool@.dom() == m.pool.dom(),
                forall|id: usize| #[trigger]
                    self.pool@.contains_key(id) ==> self.pool@[id] == if is_due(
                        m.pool[id].tracker,
                    ) && !self.pool@[id].tracker.has_been_updated {
                        CellView {
                            tracker: TrackerView {
                                aggregator: self.pool@[id].tracker.aggregator,
                                has_been_updated: false,
                                ..m.pool[id].tracker
                            },
                            ..m.pool[id]
                        }
                    } else {
                        m.pool[id]
                    },
                self.pool.in_map() == in_map,
                forall|id: usize| #[trigger]
                    self.pool@.contains_key(id) && !is_attached(m, id) ==> self.pool@[id]
                        == m.pool[id],
                forall|j: int|
                    0 <= j < i ==> !is_due(self.pool@[(#[trigger] all[j]).tracker].tracker),
                forall|j: int|
                    i <= j < all.len() ==> self.pool@[(#[trigger] all[j]).tracker]
                        == m.pool[all[j].tracker],
                picked.len() == all.take(i as int).filter(due).len(),
                forall|p: int|
                    0 <= p < picked.len() ==> 0 <= (#[trigger] picked[p]) < i && all[picked[p]]
                        == all.take(i as int).filter(due)[p],
                dest@.len() == start.len() + picked.len(),
                forall|p: int| 0 <= p < start.len() ==> #[trigger] dest@[p] == start[p],
                forall|p: int|
                    0 <= p < picked.len() && 0 <= #[trigger] picked[p] ==> {
                        let slot = all[picked[p]];
                        exists|list: Vec<KeyValue>, aggregator: &mut A|
                            attr_views(list@) == slot.set.attrs && (*aggregator).view()
                                == m.pool[slot.tracker].tracker.aggregator
                                && (*final(aggregator)).view()
                                == self.pool@[slot.tracker].tracker.aggregator
                                && #[trigger] g.ensures(
                                (list, aggregator),
                                dest@.skip(start.len() as int)[p],
                            )
                    },
            decreases slots.len() - i,
        {
            let slot: &Slot = slots[i];
            let ghost before = self.pool@;
            let ghost earlier = dest@;
            let ghost front = all.take(i as int);
            proof {
                assert(slot@ == all[i as int]);
                assert(m.attached.contains_key(slot@.set));
                assert(is_attached(m, m.attached[slot@.set]));
                assert(m.pool.dom().contains(slot.tracker));
                assert(before.contains_key(slot.tracker));
                assert(front.push(slot@) =~= all.take(i + 1));
                front.lemma_filter_push(slot@, due);
                assert forall|j: int| 0 <= j < i implies (#[trigger] all[j]).tracker
                    != slot.tracker by {
                    assert(all[j].set != all[i as int].set);
                    assert(m.attached[all[j].set] == all[j].tracker);
                }
                assert forall|j: int| i < j < all.len() implies (#[trigger] all[j]).tracker
                    != slot.tracker by {
                    assert(all[i as int].set != all[j].set);
                    assert(m.attached[all[j].set] == all[j].tracker);
                }
            }
            if let Some(tracker) = self.pool.get_mut(slot.tracker) {
                if tracker.swap_updated(false) {
                    assert(holds_state(m, slot@.set.attrs, tracker.aggregator.view()));
                    let list: Vec<KeyValue> = clone_attrs(&slot.attrs.attrs);
                    let aggregator: &mut A = &mut tracker.aggregator;
                    let point: Res = map_fn(list, aggregator);
                    assert(exists|list: Vec<KeyValue>, aggregator: &mut A| #[trigger]
                        g.ensures((list, aggregator), point));
                    dest.push(point);
                    assert(dest@.last() == point);
                    proof {
                        picked = picked.push(i as int);
                    }
                }
            }
            proof {
                assert forall|p: int| 0 <= p < picked.len() && 0 <= #[trigger] picked[p] implies {
                    let slot = all[picked[p]];
                    exists|list: Vec<KeyValue>, aggregator: &mut A|
                        attr_views(list@) == slot.set.attrs && (*aggregator).view()
                            == m.pool[slot.tracker].tracker.aggregator
                            && (*final(aggregator)).view()
                            == self.pool@[slot.tracker].tracker.aggregator && #[trigger] g.ensures(
                            (list, aggregator),
                            dest@.skip(start.len() as int)[p],
                        )
                } by {
                    if start.len() + p < earlier.len() {
                        let other = all[picked[p]];
                        assert(earlier.skip(start.len() as int)[p] == dest@.skip(
                            start.len() as int,
                        )[p]);
                        assert(self.pool@[other.tracker] == before[other.tracker]);
                    } else {
                        assert(picked[p] == i);
                        assert(dest@.skip(start.len() as int)[p] == dest@.last());
                        assert(exists|list: Vec<KeyValue>, aggregator: &mut A|
                            attr_views(list@) == slot@.set.attrs && (*aggregator).view()
                                == m.pool[slot.tracker].tracker.aggregator
                                && (*final(aggregator)).view()
                                == self.pool@[slot.tracker].tracker.aggregator
                                && #[trigger] g.ensures((list, aggregator), dest@.last()));
                    }
                }
            }
            i += 1;
        }
        proof {
            assert(all.take(all.len() as int) =~= all);
            lemma_same_trackers_wf(m, self@);
            assert forall|id: usize| #[trigger]
                self@.pool.contains_key(id) && is_attached(m, id) implies !is_due(
                self@.pool[id].tracker,
            ) by {
                let set = choose|set: HashedView|
                    m.attached.contains_key(set) && #[trigger] m.attached[set] == id;
                let j = choose|j: int| 0 <= j < all.len() && (#[trigger] all[j]).set == set;
                assert(all[j].tracker == id);
            }
            assert(due_slots(all, m.pool) == all.filter(due));
            assert forall|p: int| 0 <= p < picked.len() implies (#[trigger] due_slots(
                all,
                m.pool,
            )[p]) == all[picked[p]] && 0 <= picked[p] && m.attached.contains_key(
                all[picked[p]].set,
            ) by {}
        }
    }
}

impl<A: Aggregator> ShardedMap<A> {
    /// Keeps the attribute sets for which `f` gives `true`, in their order. Takes the others out of
    /// the map, each with a handle to its tracker.
    pub fn retain<F: FnMut(&HashedAttributes, &TrackerEntry<A>) -> bool>(&mut self, mut f: F) -> (
    entries: Vec<(HashedAttributes, BoundTracker)>)
        requires
            old(self).wf(),
            forall|attrs: &HashedAttributes, entry: &TrackerEntry<A>|
                belongs(old(self)@, attrs@, entry@) ==> #[trigger] f.requires((attrs, entry)),
        ensures
            final(self).wf(),
            final(self)@ == detached(old(self)@, entry_sets(entries@).to_set()),
            final(self).slots() == old(self).slots().filter(
                outside(entry_sets(entries@).to_set()),
            ),
            entry_sets(entries@).no_duplicates(),
            forall|i: int|
                0 <= i < entries.len() ==> old(self)@.attached.contains_key(
                    (#[trigger] entries[i]).0@,
                ) && old(self)@.attached[entries[i].0@] == entries[i].1.id(),
            forall|set: HashedView| #[trigger]
                old(self)@.attached.contains_key(set) ==> visited(
                    f,
                    set,
                    old(self)@.pool[old(self)@.attached[set]].tracker,
                    final(self)@.attached.contains_key(set),
                ),
    {
        let ghost m = self@;
        let ghost was = self.shards@;
        let ghost g = f;
        let ghost mut gone: Set<HashedView> = Set::empty();
        let mut entries: Vec<(HashedAttributes, BoundTracker)> = Vec::new();
        proof {
            lemma_attached(was);
            assert(detached(m, gone).attached =~= m.attached);
            lemma_detached_wf(m, gone);
        }
        let mut k: usize = 0;
        while k < NUM_SHARDS
            invariant
                k <= NUM_SHARDS,
                map_wf(m),
                m.attached == by_set(listing(was, 16)),
                was.len() == 16,
                self.shards.len() == 16,
                placed(was),
                forall|j: int| 0 <= j < 16 ==> (#[trigger] was[j]).wf(),
                forall|j: int| 0 <= j < 16 ==> (#[trigger] self.shards[j]).wf(),
                forall|j: int|
                    0 <= j < k ==> kept_of((#[trigger] self.shards[j])@, was[j]@, gone),
                forall|j: int| k <= j < 16 ==> (#[trigger] self.shards[j]) == was[j],
                self.pool.wf(),
                self.pool@ == m.pool,
                forall|id: usize| #[trigger]
                    self.pool.in_map().contains(id) <==> is_attached(m, id) && !leaves(m, gone, id),
                forall|set: HashedView| #[trigger]
                    gone.contains(set) ==> m.attached.contains_key(set) && set.hash % 16 < k,
                forall|set: HashedView| #[trigger]
                    m.attached.contains_key(set) && set.hash % 16 < k ==> visited(
                        g,
                        set,
                        m.pool[m.attached[set]].tracker,
                        !gone.contains(set),
                    ),
                entry_sets(entries@).no_duplicates(),
                forall|set: HashedView| #[trigger]
                    entry_sets(entries@).contains(set) <==> gone.contains(set),
                forall|i: int|
                    0 <= i < entries.len() ==> m.attached.contains_key((#[trigger] entries[i]).0@)
                        && m.attached[entries[i].0@] == entries[i].1.id(),
                f == g,
                forall|attrs: &HashedAttributes, entry: &TrackerEntry<A>|
                    belongs(m, attrs@, entry@) ==> #[trigger] f.requires((attrs, entry)),
            decreases NUM_SHARDS - k,
        {
            let taken: Vec<Slot> = self.shards[k].take_all();
            let ghost slots = was[k as int]@;
            proof {
                reveal(Seq::filter);
                assert(slots.take(0).filter(outside(gone)) =~= Seq::<SlotView>::empty());
            }
            for slot in it: taken
                invariant
                    k < NUM_SHARDS,
                    slots == was[k as int]@,
                    slot_views(it.seq()) == slots,
                    map_wf(m),
                    m.attached == by_set(listing(was, 16)),
                    was.len() == 16,
                    self.shards.len() == 16,
                    placed(was),
                    forall|j: int| 0 <= j < 16 ==> (#[trigger] was[j]).wf(),
                    forall|j: int| 0 <= j < 16 ==> (#[trigger] self.shards[j]).wf(),
                    forall|j: int|
                        0 <= j < k ==> kept_of((#[trigger] self.shards[j])@, was[j]@, gone),
                    kept_of(self.shards[k as int]@, slots.take(it.index() as int), gone),
                    forall|j: int| k < j < 16 ==> (#[trigger] self.shards[j]) == was[j],
                    self.pool.wf(),
                    self.pool@ == m.pool,
                    forall|id: usize| #[trigger]
                        self.pool.in_map().contains(id) <==> is_attached(m, id) && !leaves(
                            m,
                            gone,
                            id,
                        ),
                    forall|set: HashedView| #[trigger]
                        gone.contains(set) ==> m.attached.contains_key(set) && (set.hash % 16 < k
                            || set.hash % 16 == k && has_set(slots.take(it.index() as int), set)),
                    forall|set: HashedView| #[trigger]
                        m.attached.contains_key(set) && (set.hash % 16 < k || has_set(
                            slots.take(it.index() as int),
                            set,
                        )) ==> visited(
                            g,
                            set,
                            m.pool[m.attached[set]].tracker,
                            !gone.contains(set),
                        ),
                    entry_sets(entries@).no_duplicates(),
                    forall|set: HashedView| #[trigger]
                        entry_sets(entries@).contains(set) <==> gone.contains(set),
                    forall|i: int|
                        0 <= i < entries.len() ==> m.attached.contains_key(
                            (#[trigger] entries[i]).0@,
                        ) && m.attached[entries[i].0@] == entries[i].1.id(),
                    f == g,
                    forall|attrs: &HashedAttributes, entry: &TrackerEntry<A>|
                        belongs(m, attrs@, entry@) ==> #[trigger] f.requires((attrs, entry)),
            {
                let ghost n = it.index() as int;
                let ghost set = slot@.set;
                let ghost before = gone;
                let ghost now = self.shards@;
                let ghost listed = entry_sets(entries@);
                proof {
                    lemma_attached(was);
                    assert(slot_views(it.seq())[n] == slot@);
                    assert(was[k as int]@[n] == slot@);
                    assert(set.hash % 16 == k);
                    assert(m.pool.contains_key(m.attached[set]));
                    lemma_kept_step(now[k as int]@, slots, n, gone);
                }
                if let Some(tracker) = self.pool.get(slot.tracker) {
                    assert(belongs(m, slot.attrs@, tracker@));
                    let keep: bool = f(&slot.attrs, tracker);
                    assert(visited(g, set, m.pool[m.attached[set]].tracker, keep));
                    if keep {
                        self.shards[k].insert(slot);
                    } else {
                        self.pool.take_over(slot.tracker);
                        entries.push((slot.attrs, BoundTracker { id: slot.tracker }));
                        proof {
                            gone = gone.insert(set);
                            assert(entry_sets(entries@) =~= listed.push(set));
                            lemma_push_contains(listed, set);
                            assert(!listed.contains(set));
                            lemma_leaves_one_more(m, before, set);
                            assert forall|j: int| 0 <= j < k implies kept_of(
                                (#[trigger] self.shards[j])@,
                                was[j]@,
                                gone,
                            ) by {
                                lemma_kept_elsewhere(was, j, now[j]@, before, set);
                            }
                        }
                    }
                }
            }
            proof {
                assert(slots.take(slots.len() as int) =~= slots);
                lemma_attached(was);
            }
            k += 1;
        }
        proof {
            lemma_shards_kept(was, self.shards@, gone);
            lemma_detached_wf(m, gone);
            assert(entry_sets(entries@).to_set() =~= gone);
            assert(self@.attached =~= detached(m, gone).attached);
        }
        entries
    }

    /// Takes all attribute sets out of the map, each with a handle to its tracker.
    pub fn drain_all(&mut self) -> (entries: Vec<(HashedAttributes, BoundTracker)>)
        requires
            old(self).wf(),
        ensures
            final(self).wf(),
            final(self)@ == (MapView { attached: Map::empty(), ..old(self)@ }),
            entries.len() == old(self).slots().len(),
            forall|i: int|
                0 <= i < entries.len() ==> (#[trigger] entries[i]).0@ == old(self).slots()[i].set
                    && entries[i].1.id() == old(self).slots()[i].tracker,
    {
        let ghost m = self@;
        let ghost was = self.shards@;
        let ghost all = self.slots();
        let mut entries: Vec<(HashedAttributes, BoundTracker)> = Vec::new();
        proof {
            lemma_attached(was);
            self.lemma_slots();
        }
        let mut k: usize = 0;
        while k < NUM_SHARDS
            invariant
                k <= NUM_SHARDS,
                map_wf(m),
                m.attached == by_set(listing(was, 16)),
                was.len() == 16,
                self.shards.len() == 16,
                placed(was),
                all == listing(was, 16),
                forall|j: int| 0 <= j < 16 ==> (#[trigger] was[j]).wf(),
                forall|j: int| 0 <= j < 16 ==> (#[trigger] self.shards[j]).wf(),
                forall|j: int|
                    0 <= j < k ==> (#[trigger] self.shards[j])@ == Seq::<SlotView>::empty(),
                forall|j: int| k <= j < 16 ==> (#[trigger] self.shards[j]) == was[j],
                self.pool.wf(),
                self.pool@ == m.pool,
                forall|id: usize| #[trigger]
                    self.pool.in_map().contains(id) ==> is_attached(m, id),
                entries.len() == listing(was, k as nat).len(),
                entries.len() <= all.len(),
                forall|i: int|
                    0 <= i < entries.len() ==> (#[trigger] entries[i]).0@ == all[i].set
                        && entries[i].1.id() == all[i].tracker && !self.pool.in_map().contains(
                        all[i].tracker,
                    ),
            decreases NUM_SHARDS - k,
        {
            let taken: Vec<Slot> = self.shards[k].take_all();
            let ghost slots = was[k as int]@;
            for slot in it: taken
                invariant
                    k < NUM_SHARDS,
                    slots == was[k as int]@,
                    slot_views(it.seq()) == slots,
                    map_wf(m),
                    m.attached == by_set(listing(was, 16)),
                    was.len() == 16,
                    self.shards.len() == 16,
                    placed(was),
                    all == listing(was, 16),
                    forall|j: int| 0 <= j < 16 ==> (#[trigger] was[j]).wf(),
                    forall|j: int| 0 <= j < 16 ==> (#[trigger] self.shards[j]).wf(),
                    forall|j: int|
                        0 <= j <= k ==> (#[trigger] self.shards[j])@ == Seq::<SlotView>::empty(),
                    forall|j: int| k < j < 16 ==> (#[trigger] self.shards[j]) == was[j],
                    self.pool.wf(),
                    self.pool@ == m.pool,
                    forall|id: usize| #[trigger]
                        self.pool.in_map().contains(id) ==> is_attached(m, id),
                    entries.len() == listing(was, k as nat).len() + it.index(),
                    entries.len() <= all.len(),
                    forall|i: int|
                        0 <= i < entries.len() ==> (#[trigger] entries[i]).0@ == all[i].set
                            && entries[i].1.id() == all[i].tracker && !self.pool.in_map().contains(
                            all[i].tracker,
                        ),
            {
                proof {
                    let n = it.index() as int;
                    lemma_attached(was);
                    assert(slot_views(it.seq())[n] == slot@);
                    assert(was[k as int]@[n] == slot@);
                    lemma_listing_index(was, 16, k as nat, n);
                    assert(m.attached.contains_key(slot@.set));
                }
                let ghost earlier = entries@;
                let ghost view = slot@;
                self.pool.take_over(slot.tracker);
                entries.push((slot.attrs, BoundTracker { id: slot.tracker }));
                proof {
                    assert(all[earlier.len() as int] == view);
                    assert forall|i: int| 0 <= i < entries.len() implies (
                    #[trigger] entries[i]).0@ == all[i].set && entries[i].1.id()
                        == all[i].tracker && !self.pool.in_map().contains(all[i].tracker) by {
                        if i < earlier.len() {
                            assert(entries[i] == earlier[i]);
                        }
                    }
                }
            }
            k += 1;
        }
        proof {
            lemma_listing_empty(self.shards@, 16);
            assert(self@.attached =~= Map::empty());
            assert forall|id: usize| #[trigger]
                self.pool.in_map().contains(id) <==> is_attached(self@, id) by {
                if self.pool.in_map().contains(id) {
                    let set = choose|set: HashedView|
                        m.attached.contains_key(set) && #[trigger] m.attached[set] == id;
                    let i = choose|i: int| 0 <= i < all.len() && (#[trigger] all[i]).set == set;
                    assert(entries[i].0@ == all[i].set);
                    assert(all[i].tracker == id);
                }
            }
        }
        entries
    }
}

/// The attribute sets of these entries, one by one.
pub open spec fn entry_sets(entries: Seq<(HashedAttributes, BoundTracker)>) -> Seq<HashedView> {
    entries.map_values(|entry: (HashedAttributes, BoundTracker)| entry.0@)
}

proof fn lemma_push_contains(listed: Seq<HashedView>, set: HashedView)
    ensures
        forall|other: HashedView| #[trigger]
            listed.push(set).contains(other) <==> listed.contains(other) || other == set,
{
    assert forall|other: HashedView| #[trigger]
        listed.push(set).contains(other) <==> listed.contains(other) || other == set by {
        if listed.push(set).contains(other) {
            let i = listed.push(set).index_of(other);
            if i < listed.len() {
                assert(listed[i] == other);
            }
        }
        if listed.contains(other) {
            assert(listed.push(set)[listed.index_of(other)] == other);
        }
        assert(listed.push(set)[listed.len() as int] == set);
    }
}

/// A call of `f` with this set and this tracker may give `result`.
pub open spec fn visited<A: Aggregator, R, F: FnMut(&HashedAttributes, &TrackerEntry<A>) -> R>(
    f: F,
    set: HashedView,
    tracker: TrackerView<A::State>,
    result: R,
) -> bool {
    exists|attrs: &HashedAttributes, entry: &TrackerEntry<A>|
        attrs@ == set && entry@ == tracker && #[trigger] f.ensures((attrs, entry), result)
}

} // verus!
