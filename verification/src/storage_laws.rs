//! What the pool of trackers and the shards promise, from what goes in to what comes out.

use crate::aggregator::{Aggregator, TrackerEntry};
use crate::hashed_attributes::{HashedAttributes, HashedView};
use crate::listing::{lemma_listing_contains, list_slots, listing};
use crate::shard::{distinct_sets, has_set, slot_views, Shard, Slot, SlotView};
use crate::tracker_pool::TrackerPool;
use vstd::prelude::*;

verus! {

/// What one sees of the tracker at a place: its state, its flags, and the number of its holders.
pub open spec fn holds_tracker<A: Aggregator>(
    pool: TrackerPool<A>,
    id: usize,
    tracker: TrackerEntry<A>,
    holders: nat,
) -> bool {
    &&& pool@.contains_key(id)
    &&& pool@[id].tracker.aggregator == tracker.aggregator.view()
    &&& pool@[id].tracker.has_been_updated == tracker.has_been_updated
    &&& pool@[id].tracker.evicted == tracker.evicted
    &&& pool@[id].holders == holders
}

/// The places but `id` hold the same.
pub open spec fn same_places_but<A: Aggregator>(
    before: TrackerPool<A>,
    after: TrackerPool<A>,
    id: usize,
) -> bool {
    forall|other: usize|
        other != id ==> {
            &&& #[trigger] after@.contains_key(other) <==> before@.contains_key(other)
            &&& before@.contains_key(other) ==> after@[other] == before@[other]
            &&& after.in_map().contains(other) <==> before.in_map().contains(other)
        }
}

/// A new pool has no tracker at any place.
pub proof fn law_new_pool<A: Aggregator>(
    pool: TrackerPool<A>,
    id: usize,
    found: Option<&TrackerEntry<A>>,
    shared: bool,
    in_map: bool,
)
    requires
        call_ensures(TrackerPool::<A>::new, (), pool),
        call_ensures(TrackerPool::<A>::get, (&pool, id), found),
        call_ensures(TrackerPool::<A>::is_shared, (&pool, id), shared),
        call_ensures(TrackerPool::<A>::is_in_map, (&pool, id), in_map),
    ensures
        found is None,
        !shared,
        !in_map,
        pool.wf(),
{
}

/// A tracker that was added is at a place that was free, and is read there. The map is its one holder.
/// Nothing else changes.
pub proof fn law_added_tracker_is_read<A: Aggregator>(
    pool: &mut TrackerPool<A>,
    tracker: TrackerEntry<A>,
    id: usize,
    before: Option<&TrackerEntry<A>>,
    found: Option<&TrackerEntry<A>>,
    shared: bool,
    in_map: bool,
)
    requires
        old(pool).wf(),
        call_ensures(TrackerPool::<A>::add, (pool, tracker), id),
        call_ensures(TrackerPool::<A>::get, (&*old(pool), id), before),
        call_ensures(TrackerPool::<A>::get, (&*final(pool), id), found),
        call_ensures(TrackerPool::<A>::is_shared, (&*final(pool), id), shared),
        call_ensures(TrackerPool::<A>::is_in_map, (&*final(pool), id), in_map),
    ensures
        before is None,
        found matches Some(seen) && {
            &&& seen.aggregator.view() == tracker.aggregator.view()
            &&& seen.has_been_updated == tracker.has_been_updated
            &&& seen.evicted == tracker.evicted
        },
        !shared,
        in_map,
        holds_tracker(*final(pool), id, tracker, 1),
        same_places_but(*old(pool), *final(pool), id),
        final(pool).wf(),
{
}

/// What is read at a place is what is there.
pub proof fn law_tracker_at_place<A: Aggregator>(
    pool: TrackerPool<A>,
    id: usize,
    found: Option<&TrackerEntry<A>>,
    shared: bool,
)
    requires
        call_ensures(TrackerPool::<A>::get, (&pool, id), found),
        call_ensures(TrackerPool::<A>::is_shared, (&pool, id), shared),
    ensures
        found is Some <==> pool@.contains_key(id),
        found matches Some(tracker) ==> holds_tracker(pool, id, *tracker, pool@[id].holders),
        shared <==> pool@.contains_key(id) && pool@[id].holders >= 2,
{
}

/// Changing a tracker in place leaves there what the caller has made of it, with the same holders, and
/// changes nothing else.
pub proof fn law_changed_tracker_stays<A: Aggregator>(
    pool: &mut TrackerPool<A>,
    id: usize,
    found: Option<&mut TrackerEntry<A>>,
)
    requires
        old(pool).wf(),
        call_ensures(TrackerPool::<A>::get_mut, (pool, id), found),
    ensures
        found is Some <==> old(pool)@.contains_key(id),
        found is None ==> final(pool)@ == old(pool)@,
        found matches Some(tracker) ==> {
            &&& holds_tracker(*old(pool), id, *tracker, old(pool)@[id].holders)
            &&& holds_tracker(*final(pool), id, *final(tracker), old(pool)@[id].holders)
        },
        same_places_but(*old(pool), *final(pool), id),
        final(pool).in_map() == old(pool).in_map(),
        final(pool).wf(),
{
}

/// One holder more, which makes the tracker a shared one, and changes neither it nor any other.
pub proof fn law_tracker_is_held<A: Aggregator>(pool: &mut TrackerPool<A>, id: usize, shared: bool)
    requires
        old(pool).wf(),
        old(pool)@.contains_key(id),
        old(pool)@[id].holders >= 1,
        call_ensures(TrackerPool::<A>::hold, (pool, id), ()),
        call_ensures(TrackerPool::<A>::is_shared, (&*final(pool), id), shared),
    ensures
        shared,
        final(pool)@.contains_key(id),
        final(pool)@[id].tracker == old(pool)@[id].tracker,
        old(pool)@[id].holders < usize::MAX ==> final(pool)@[id].holders == old(pool)@[id].holders
            + 1,
        old(pool)@[id].holders >= usize::MAX ==> final(pool)@[id].holders
            == old(pool)@[id].holders,
        same_places_but(*old(pool), *final(pool), id),
        final(pool).in_map() == old(pool).in_map(),
        final(pool).wf(),
{
}

/// One holder less. The tracker goes with its last holder, and stays as it is with others left. Nothing
/// else changes.
pub proof fn law_tracker_is_released<A: Aggregator>(
    pool: &mut TrackerPool<A>,
    id: usize,
    found: Option<&TrackerEntry<A>>,
)
    requires
        old(pool).wf(),
        old(pool)@.contains_key(id),
        call_ensures(TrackerPool::<A>::release, (pool, id), ()),
        call_ensures(TrackerPool::<A>::get, (&*final(pool), id), found),
    ensures
        found is Some <==> old(pool)@[id].holders >= 2,
        final(pool)@.contains_key(id) ==> final(pool)@[id].tracker == old(pool)@[id].tracker,
        2 <= old(pool)@[id].holders < usize::MAX ==> final(pool)@[id].holders
            == old(pool)@[id].holders - 1,
        old(pool)@[id].holders >= usize::MAX ==> final(pool)@[id].holders
            == old(pool)@[id].holders,
        same_places_but(*old(pool), *final(pool), id),
        final(pool).wf(),
{
    pool.lemma_in_map();
}

/// Taking over the hold of the map leaves all trackers and the number of their holders.
pub proof fn law_hold_is_taken_over<A: Aggregator>(
    pool: &mut TrackerPool<A>,
    id: usize,
    in_map: bool,
)
    requires
        old(pool).wf(),
        old(pool)@.contains_key(id),
        call_ensures(TrackerPool::<A>::take_over, (pool, id), ()),
        call_ensures(TrackerPool::<A>::is_in_map, (&*final(pool), id), in_map),
    ensures
        !in_map,
        final(pool)@ == old(pool)@,
        same_places_but(*old(pool), *final(pool), id),
        final(pool).wf(),
{
}

/// A new shard finds no set.
pub proof fn law_new_shard(
    capacity: usize,
    shard: Shard,
    set: HashedAttributes,
    found: Option<usize>,
    len: usize,
)
    requires
        call_ensures(Shard::new, (capacity,), shard),
        call_ensures(Shard::find, (&shard, &set), found),
        call_ensures(Shard::len, (&shard,), len),
    ensures
        found is None,
        len == 0,
        shard.wf(),
{
}

/// A set that was put into a shard is found there with its tracker. Every other set is found as before.
pub proof fn law_inserted_set_is_found(
    shard: &mut Shard,
    slot: Slot,
    other: HashedAttributes,
    found: Option<usize>,
    before: Option<usize>,
    after: Option<usize>,
    len: usize,
    grown: usize,
    last: &Slot,
)
    requires
        old(shard).wf(),
        !has_set(old(shard)@, slot@.set),
        call_ensures(Shard::insert, (shard, slot), ()),
        call_ensures(Shard::find, (&*final(shard), &slot.attrs), found),
        other@ != slot.attrs@,
        call_ensures(Shard::find, (&*old(shard), &other), before),
        call_ensures(Shard::find, (&*final(shard), &other), after),
        call_ensures(Shard::len, (&*old(shard),), len),
        call_ensures(Shard::len, (&*final(shard),), grown),
        call_ensures(Shard::slot, (&*final(shard), len), last),
    ensures
        found == Some(slot.tracker),
        after == before,
        grown == len + 1,
        last.attrs@ == slot.attrs@,
        last.tracker == slot.tracker,
        final(shard).wf(),
{
    final(shard).lemma_wf_distinct();
    let (s, t) = ((*old(shard))@, (*final(shard))@);
    assert(t[s.len() as int].set == slot.attrs@);
    assert(has_set(t, slot.attrs@));
    lemma_one_tracker(t, slot.attrs@);
    assert(t.contains(SlotView { set: slot.attrs@, tracker: slot.tracker })) by {
        assert(t[s.len() as int] == slot@);
    }
    lemma_one_tracker(t, other@);
    if let Some(id) = before {
        let i = s.index_of(SlotView { set: other@, tracker: id });
        assert(t[i] == s[i]);
        assert(t.contains(t[i]));
        assert(has_set(t, other@));
    }
    if let Some(id) = after {
        let i = t.index_of(SlotView { set: other@, tracker: id });
        assert(i < s.len());
        assert(s[i].set == other@);
        assert(has_set(s, other@));
    }
}

proof fn lemma_one_tracker(s: Seq<SlotView>, set: HashedView)
    requires
        distinct_sets(s),
    ensures
        forall|a: usize, b: usize|
            #[trigger] s.contains(SlotView { set, tracker: a }) && #[trigger] s.contains(
                SlotView { set, tracker: b },
            ) ==> a == b,
{
    assert forall|a: usize, b: usize|
        #[trigger] s.contains(SlotView { set, tracker: a }) && #[trigger] s.contains(
            SlotView { set, tracker: b },
        ) implies a == b by {
        let i = s.index_of(SlotView { set, tracker: a });
        let j = s.index_of(SlotView { set, tracker: b });
        if i < j {
            assert(s[i].set != s[j].set);
        } else if j < i {
            assert(s[j].set != s[i].set);
        }
    }
}

/// Emptying a shard hands out all its slots in their order, and no set is found any more.
pub proof fn law_emptied_shard(
    shard: &mut Shard,
    taken: Vec<Slot>,
    set: HashedAttributes,
    found: Option<usize>,
    len: usize,
    left: usize,
    position: usize,
    slot: &Slot,
)
    requires
        old(shard).wf(),
        call_ensures(Shard::len, (&*old(shard),), len),
        position < len,
        call_ensures(Shard::slot, (&*old(shard), position), slot),
        call_ensures(Shard::take_all, (shard,), taken),
        call_ensures(Shard::find, (&*final(shard), &set), found),
        call_ensures(Shard::len, (&*final(shard),), left),
    ensures
        taken@.len() == len,
        taken@[position as int].attrs@ == slot.attrs@,
        taken@[position as int].tracker == slot.tracker,
        found is None,
        left == 0,
        final(shard).wf(),
{
    assert(slot_views(taken@).len() == taken@.len());
    assert(slot_views(taken@)[position as int] == taken@[position as int]@);
}

/// Listing the slots of all shards lists each slot of each shard, and no others.
pub proof fn law_slots_are_listed(shards: Vec<Shard>, listed: Vec<&Slot>, j: int, position: int, i: int)
    requires
        shards@.len() == 16,
        call_ensures(list_slots, (&shards,), listed),
    ensures
        0 <= j < 16 && 0 <= position < shards@[j]@.len() ==> exists|n: int|
            0 <= n < listed@.len() && (#[trigger] listed@[n])@ == shards@[j]@[position],
        0 <= i < listed@.len() ==> exists|k: int|
            0 <= k < 16 && (#[trigger] shards@[k])@.contains(listed@[i]@),
{
    let all = listing(shards@, 16);
    if 0 <= j < 16 && 0 <= position < shards@[j]@.len() {
        let slot = shards@[j]@[position];
        assert(shards@[j]@.contains(slot));
        lemma_listing_contains(shards@, 16, slot);
        let n = all.index_of(slot);
        assert(listed@[n]@ == slot);
    }
    if 0 <= i < listed@.len() {
        assert(listed@[i]@ == all[i]);
        assert(all.contains(all[i]));
        lemma_listing_contains(shards@, 16, all[i]);
    }
}

} // verus!
