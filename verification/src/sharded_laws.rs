//! What each operation on a [`ShardedMap`] does, told by what the map holds before and after it.

use crate::aggregator::{Aggregator, TrackerEntry, TrackerView};
use crate::collect::{due_slots, is_due, read_point};
use crate::hashed_attributes::{HashedAttributes, HashedView};
use crate::key_value::{attr_views, KeyValue, KeyValueView};
use crate::map_view::{is_attached, MapView};
use crate::shard::{distinct_sets, has_set, SlotView};
use crate::sharded_map::{entry_sets, visited, BoundTracker, ShardedMap};
use vstd::prelude::*;

verus! {

/// The lowest four bits of the hash select the shard.
pub proof fn law_shard_of_hash<A: Aggregator>(hash: u64, index: usize)
    requires
        call_ensures(ShardedMap::<A>::shard_index, (hash,), index),
    ensures
        index < 16,
        index <= hash,
        (hash - index) % 16 == 0,
{
}

/// A new map holds no sets and no trackers.
pub proof fn law_new_sharded_map<A: Aggregator>(capacity: usize, m: ShardedMap<A>)
    requires
        call_ensures(ShardedMap::<A>::new, (capacity,), m),
    ensures
        m.wf(),
        m@.attached.dom() == Set::<HashedView>::empty(),
        m@.pool.dom() == Set::<usize>::empty(),
        m.slots().len() == 0,
{
}

/// The maps differ at most in the set `set` and in its tracker, which is at `id` afterwards.
pub open spec fn only_set_changes<S>(
    before: MapView<S>,
    after: MapView<S>,
    set: HashedView,
    id: usize,
) -> bool {
    &&& after.attached.contains_key(set)
    &&& after.attached[set] == id
    &&& after.pool.contains_key(id)
    &&& forall|other: HashedView|
        other != set ==> {
            &&& #[trigger] after.attached.contains_key(other) <==> before.attached.contains_key(
                other,
            )
            &&& before.attached.contains_key(other) ==> after.attached[other]
                == before.attached[other]
        }
    &&& only_tracker_changes(before, after, id)
}

/// The trackers but `id` are the same.
pub open spec fn only_tracker_changes<S>(before: MapView<S>, after: MapView<S>, id: usize) -> bool {
    forall|i: usize|
        i != id ==> {
            &&& #[trigger] after.pool.contains_key(i) <==> before.pool.contains_key(i)
            &&& before.pool.contains_key(i) ==> after.pool[i] == before.pool[i]
        }
}

/// A measurement of `value` has reached the tracker of `set`, which was made for it where the set had
/// none.
pub open spec fn takes_in<A: Aggregator>(
    before: MapView<A::State>,
    after: MapView<A::State>,
    set: HashedView,
    value: A::PreComputedValue,
    config: A::InitConfig,
) -> bool {
    let id = after.attached[set];
    let cell = after.pool[id];
    &&& only_set_changes(before, after, set, id)
    &&& cell.tracker.has_been_updated
    &&& !cell.tracker.evicted
    &&& before.attached.contains_key(set) ==> {
        &&& before.attached[set] == id
        &&& cell.holders == before.pool[id].holders
        &&& cell.tracker.aggregator == A::updated(before.pool[id].tracker.aggregator, value)
    }
    &&& !before.attached.contains_key(set) ==> {
        &&& !before.pool.contains_key(id)
        &&& cell.holders == 1
        &&& cell.tracker.aggregator == A::updated(A::initial(config), value)
    }
}

/// A handle to the tracker of `set` was given out, which was made for it where the set had none, and
/// then counts as updated.
pub open spec fn gives_out<A: Aggregator>(
    before: MapView<A::State>,
    after: MapView<A::State>,
    set: HashedView,
    config: A::InitConfig,
    id: usize,
) -> bool {
    let cell = after.pool[id];
    &&& only_set_changes(before, after, set, id)
    &&& !cell.tracker.evicted
    &&& before.attached.contains_key(set) ==> {
        &&& before.attached[set] == id
        &&& cell.tracker == before.pool[id].tracker
        &&& before.pool[id].holders < usize::MAX ==> cell.holders == before.pool[id].holders + 1
        &&& before.pool[id].holders >= usize::MAX ==> cell.holders == before.pool[id].holders
    }
    &&& !before.attached.contains_key(set) ==> {
        &&& !before.pool.contains_key(id)
        &&& cell.holders == 2
        &&& cell.tracker.has_been_updated
        &&& cell.tracker.aggregator == A::initial(config)
    }
}

/// The count goes up by one exactly where the set is new, there is room for it, and it is not the
/// overflow set.
pub open spec fn count_follows<S>(
    before: MapView<S>,
    count: usize,
    limit: usize,
    set: HashedView,
    overflow: HashedView,
    after: usize,
) -> bool {
    if before.attached.contains_key(set) || count >= limit || set == overflow {
        after == count
    } else {
        after == count + 1
    }
}

/// What a measurement for a set does: it reaches the tracker of the set, where the set is in the map or
/// there is room for it, and else the tracker of the overflow set.
pub proof fn law_sharded_measurement<A: Aggregator>(
    m: &mut ShardedMap<A>,
    set: HashedAttributes,
    value: A::PreComputedValue,
    config: A::InitConfig,
    count: &mut usize,
    limit: usize,
    overflow: HashedAttributes,
)
    requires
        old(m).wf(),
        call_ensures(
            ShardedMap::<A>::measure,
            (m, &set, value, &config, count, limit, &overflow),
            (),
        ),
    ensures
        old(m)@.attached.contains_key(set@) || *old(count) < limit ==> takes_in::<A>(
            old(m)@,
            final(m)@,
            set@,
            value,
            config,
        ),
        !old(m)@.attached.contains_key(set@) && *old(count) >= limit ==> takes_in::<A>(
            old(m)@,
            final(m)@,
            overflow@,
            value,
            config,
        ),
        count_follows(old(m)@, *old(count), limit, set@, overflow@, *final(count)),
        final(m).wf(),
{
    m.lemma_wf();
}

/// What giving out a handle for a set does: it leads to the tracker of the set, where the set is in the
/// map or there is room for it, and else to the tracker of the overflow set.
pub proof fn law_sharded_binding<A: Aggregator>(
    m: &mut ShardedMap<A>,
    set: HashedAttributes,
    config: A::InitConfig,
    count: &mut usize,
    limit: usize,
    overflow: HashedAttributes,
    handle: BoundTracker,
)
    requires
        old(m).wf(),
        call_ensures(
            ShardedMap::<A>::bind,
            (m, &set, &config, count, limit, &overflow),
            handle,
        ),
    ensures
        old(m)@.attached.contains_key(set@) || *old(count) < limit ==> gives_out::<A>(
            old(m)@,
            final(m)@,
            set@,
            config,
            handle.id(),
        ),
        !old(m)@.attached.contains_key(set@) && *old(count) >= limit ==> gives_out::<A>(
            old(m)@,
            final(m)@,
            overflow@,
            config,
            handle.id(),
        ),
        count_follows(old(m)@, *old(count), limit, set@, overflow@, *final(count)),
        final(m).wf(),
{
    m.lemma_wf();
}

/// A handle reads its tracker as long as anything holds it, with its state and its flags.
pub proof fn law_sharded_tracker_is_read<A: Aggregator>(
    m: ShardedMap<A>,
    handle: BoundTracker,
    found: Option<&TrackerEntry<A>>,
)
    requires
        call_ensures(ShardedMap::<A>::tracker, (&m, &handle), found),
    ensures
        found is Some <==> m@.pool.contains_key(handle.id()),
        found matches Some(tracker) ==> {
            let seen = m@.pool[handle.id()].tracker;
            &&& tracker.aggregator.view() == seen.aggregator
            &&& tracker.has_been_updated == seen.has_been_updated
            &&& tracker.evicted == seen.evicted
        },
{
}

/// Changing the aggregator behind a handle changes the state of that tracker and nothing else.
pub proof fn law_sharded_aggregator_is_changed<A: Aggregator>(
    m: &mut ShardedMap<A>,
    handle: BoundTracker,
    found: Option<&mut A>,
)
    requires
        old(m).wf(),
        call_ensures(ShardedMap::<A>::aggregator_mut, (m, &handle), found),
    ensures
        found is Some <==> old(m)@.pool.contains_key(handle.id()),
        found is None ==> final(m)@ == old(m)@,
        found matches Some(aggregator) ==> {
            let id = handle.id();
            let (before, after) = (old(m)@.pool[id], final(m)@.pool[id]);
            &&& (*aggregator).view() == before.tracker.aggregator
            &&& final(m)@.pool.contains_key(id)
            &&& after.tracker.aggregator == (*final(aggregator)).view()
            &&& after.tracker.has_been_updated == before.tracker.has_been_updated
            &&& after.tracker.evicted == before.tracker.evicted
            &&& after.holders == before.holders
            &&& final(m)@.attached == old(m)@.attached
            &&& only_tracker_changes(old(m)@, final(m)@, id)
        },
{
}

/// Swapping the updated flag behind a handle gives the flag that was there, sets the one given, and
/// changes nothing else.
pub proof fn law_flag_is_swapped<A: Aggregator>(
    m: &mut ShardedMap<A>,
    handle: BoundTracker,
    flag: bool,
    was: Option<bool>,
)
    requires
        old(m).wf(),
        call_ensures(ShardedMap::<A>::swap_updated, (m, &handle, flag), was),
    ensures
        was is Some <==> old(m)@.pool.contains_key(handle.id()),
        was is None ==> final(m)@ == old(m)@,
        was matches Some(was) ==> {
            let id = handle.id();
            let (before, after) = (old(m)@.pool[id], final(m)@.pool[id]);
            &&& was == before.tracker.has_been_updated
            &&& final(m)@.pool.contains_key(id)
            &&& after.tracker.has_been_updated == flag
            &&& after.tracker.aggregator == before.tracker.aggregator
            &&& after.tracker.evicted == before.tracker.evicted
            &&& after.holders == before.holders
            &&& final(m)@.attached == old(m)@.attached
            &&& only_tracker_changes(old(m)@, final(m)@, id)
        },
{
}

/// Marking the tracker behind a handle marks a tracker that belongs to no set, leaves one that does
/// alone, and changes nothing else.
pub proof fn law_tracker_is_marked<A: Aggregator>(m: &mut ShardedMap<A>, handle: BoundTracker)
    requires
        old(m).wf(),
        call_ensures(ShardedMap::<A>::mark_evicted, (m, &handle), ()),
    ensures
        final(m)@.attached == old(m)@.attached,
        only_tracker_changes(old(m)@, final(m)@, handle.id()),
        final(m)@.pool.contains_key(handle.id()) <==> old(m)@.pool.contains_key(handle.id()),
        old(m)@.pool.contains_key(handle.id()) ==> {
            let (before, after) = (old(m)@.pool[handle.id()], final(m)@.pool[handle.id()]);
            &&& after.holders == before.holders
            &&& after.tracker.aggregator == before.tracker.aggregator
            &&& after.tracker.has_been_updated == before.tracker.has_been_updated
            &&& (forall|set: HashedView| #[trigger]
                old(m)@.attached.contains_key(set) ==> old(m)@.attached[set] != handle.id())
                ==> after.tracker.evicted
            &&& (exists|set: HashedView| #[trigger]
                old(m)@.attached.contains_key(set) && old(m)@.attached[set] == handle.id())
                ==> !after.tracker.evicted
        },
{
    m.lemma_wf();
    let map = (*m)@;
    let id = handle.id();
    if is_attached(map, id) {
        let set = choose|set: HashedView|
            map.attached.contains_key(set) && #[trigger] map.attached[set] == id;
        assert(map.attached.contains_key(set));
        assert(!map.pool[map.attached[set]].tracker.evicted);
    } else {
        assert forall|set: HashedView| #[trigger] map.attached.contains_key(
            set,
        ) implies map.attached[set] != id by {}
    }
}

/// Giving a handle back takes one holder from its tracker and changes nothing else. The tracker of no set
/// goes with its last holder, and the map keeps its own hold on the trackers of its sets.
pub proof fn law_sharded_handle_is_given_back<A: Aggregator>(
    m: &mut ShardedMap<A>,
    handle: BoundTracker,
)
    requires
        old(m).wf(),
        call_ensures(ShardedMap::<A>::release, (m, handle), ()),
    ensures
        final(m)@.attached == old(m)@.attached,
        only_tracker_changes(old(m)@, final(m)@, handle.id()),
        !old(m)@.pool.contains_key(handle.id()) ==> !final(m)@.pool.contains_key(handle.id()),
        old(m)@.pool.contains_key(handle.id()) ==> {
            let (before, after) = (old(m)@.pool, final(m)@.pool);
            let id = handle.id();
            let held = before[id].holders;
            &&& after.contains_key(id) <==> held > 1 || exists|set: HashedView| #[trigger]
                old(m)@.attached.contains_key(set) && old(m)@.attached[set] == id
            &&& after.contains_key(id) ==> after[id].tracker == before[id].tracker
            &&& 1 < held < usize::MAX ==> after[id].holders == held - 1
            &&& held <= 1 && after.contains_key(id) ==> after[id].holders == held
            &&& held >= usize::MAX ==> after[id].holders == held
        },
{
    let map = (*m)@;
    let id = handle.id();
    m.lemma_wf();
    if is_attached(map, id) {
        let set = choose|set: HashedView|
            map.attached.contains_key(set) && #[trigger] map.attached[set] == id;
        assert(map.attached.contains_key(set));
    } else {
        assert forall|set: HashedView| #[trigger] map.attached.contains_key(
            set,
        ) implies map.attached[set] != id by {}
    }
}

/// One of the entries is this set with a handle to this tracker.
pub open spec fn has_entry(
    entries: Seq<(HashedAttributes, BoundTracker)>,
    set: HashedView,
    id: usize,
) -> bool {
    exists|i: int|
        0 <= i < entries.len() && (#[trigger] entries[i]).0@ == set && entries[i].1.id() == id
}

/// No two entries are of the same set.
pub open spec fn entries_once(entries: Seq<(HashedAttributes, BoundTracker)>) -> bool {
    forall|i: int, j: int|
        0 <= i < j < entries.len() ==> (#[trigger] entries[i]).0@ != (#[trigger] entries[j]).0@
}

/// Keeping sets by a condition keeps those that meet it, as they are, and takes out the others, each once
/// and with a handle to its tracker. No tracker changes.
pub proof fn law_sets_are_kept<
    A: Aggregator,
    F: FnMut(&HashedAttributes, &TrackerEntry<A>) -> bool,
>(
    m: &mut ShardedMap<A>,
    f: F,
    keeps: spec_fn(HashedView, TrackerView<A::State>) -> bool,
    entries: Vec<(HashedAttributes, BoundTracker)>,
)
    requires
        old(m).wf(),
        forall|set: &HashedAttributes, entry: &TrackerEntry<A>, kept: bool| #[trigger]
            f.ensures((set, entry), kept) ==> kept == keeps(set@, entry@),
        call_ensures(ShardedMap::<A>::retain::<F>, (m, f), entries),
    ensures
        final(m)@.pool == old(m)@.pool,
        forall|set: HashedView| #[trigger]
            old(m)@.attached.contains_key(set) ==> {
                let id = old(m)@.attached[set];
                if keeps(set, old(m)@.pool[id].tracker) {
                    &&& final(m)@.attached.contains_key(set)
                    &&& final(m)@.attached[set] == id
                    &&& !has_entry(entries@, set, id)
                } else {
                    &&& !final(m)@.attached.contains_key(set)
                    &&& has_entry(entries@, set, id)
                }
            },
        forall|set: HashedView| #[trigger]
            final(m)@.attached.contains_key(set) ==> old(m)@.attached.contains_key(set),
        forall|i: int|
            0 <= i < entries@.len() ==> old(m)@.attached.contains_key(
                (#[trigger] entries@[i]).0@,
            ),
        entries_once(entries@),
        final(m).wf(),
{
    let (before, after) = ((*m)@, (*final(m))@);
    let gone = entry_sets(entries@);
    assert forall|set: HashedView| #[trigger] before.attached.contains_key(set) implies {
        let id = before.attached[set];
        if keeps(set, before.pool[id].tracker) {
            &&& after.attached.contains_key(set)
            &&& after.attached[set] == id
            &&& !has_entry(entries@, set, id)
        } else {
            &&& !after.attached.contains_key(set)
            &&& has_entry(entries@, set, id)
        }
    } by {
        let id = before.attached[set];
        assert(visited(f, set, before.pool[id].tracker, after.attached.contains_key(set)));
        if gone.to_set().contains(set) {
            let i = gone.index_of(set);
            assert(entries@[i].0@ == set);
            assert(has_entry(entries@, set, id));
        } else if has_entry(entries@, set, id) {
            let i = choose|i: int|
                0 <= i < entries@.len() && (#[trigger] entries@[i]).0@ == set
                    && entries@[i].1.id() == id;
            assert(gone[i] == set);
            assert(gone.contains(set));
        }
    }
    assert forall|i: int, j: int| 0 <= i < j < entries@.len() implies (
    #[trigger] entries@[i]).0@ != (#[trigger] entries@[j]).0@ by {
        assert(gone[i] != gone[j]);
    }
}

/// Draining takes out all sets, each once and with a handle to its tracker. No tracker changes.
pub proof fn law_sets_are_drained<A: Aggregator>(
    m: &mut ShardedMap<A>,
    entries: Vec<(HashedAttributes, BoundTracker)>,
)
    requires
        old(m).wf(),
        call_ensures(ShardedMap::<A>::drain_all, (m,), entries),
    ensures
        final(m)@.pool == old(m)@.pool,
        forall|set: HashedView| !#[trigger] final(m)@.attached.contains_key(set),
        forall|set: HashedView| #[trigger]
            old(m)@.attached.contains_key(set) ==> has_entry(
                entries@,
                set,
                old(m)@.attached[set],
            ),
        forall|i: int|
            0 <= i < entries@.len() ==> old(m)@.attached.contains_key(
                (#[trigger] entries@[i]).0@,
            ),
        entries_once(entries@),
        final(m).wf(),
{
    let before = (*m)@;
    let slots = (*m).slots();
    m.lemma_slots();
    assert forall|set: HashedView| #[trigger]
        before.attached.contains_key(set) implies has_entry(
        entries@,
        set,
        before.attached[set],
    ) by {
        assert(has_set(slots, set));
        let i = choose|i: int| 0 <= i < slots.len() && (#[trigger] slots[i]).set == set;
        assert(entries@[i].0@ == set);
    }
    assert forall|i: int| 0 <= i < entries@.len() implies before.attached.contains_key(
        (#[trigger] entries@[i]).0@,
    ) by {
        assert(slots[i].set == entries@[i].0@);
    }
    assert forall|i: int, j: int| 0 <= i < j < entries@.len() implies (
    #[trigger] entries@[i]).0@ != (#[trigger] entries@[j]).0@ by {
        assert(slots[i].set != slots[j].set);
    }
}

/// What was made of each set and its tracker, where `set` and `tracker` tell what a result was made of:
/// one result for each set whose tracker is `wanted`, and no others.
pub open spec fn covers<S, R>(
    m: MapView<S>,
    wanted: spec_fn(TrackerView<S>) -> bool,
    results: Seq<R>,
    says: spec_fn(R, HashedView, TrackerView<S>) -> bool,
) -> bool {
    exists|sets: Seq<HashedView>|
        {
            &&& #[trigger] sets.len() == results.len()
            &&& sets.no_duplicates()
            &&& forall|i: int|
                0 <= i < sets.len() ==> {
                    let tracker = m.pool[m.attached[#[trigger] sets[i]]].tracker;
                    &&& m.attached.contains_key(sets[i])
                    &&& wanted(tracker)
                    &&& says(results[i], sets[i], tracker)
                }
            &&& forall|set: HashedView| #[trigger]
                m.attached.contains_key(set) && wanted(m.pool[m.attached[set]].tracker)
                    ==> sets.contains(set)
        }
}

proof fn lemma_covers<S, R>(
    m: MapView<S>,
    wanted: spec_fn(TrackerView<S>) -> bool,
    results: Seq<R>,
    says: spec_fn(R, HashedView, TrackerView<S>) -> bool,
    slots: Seq<SlotView>,
    listed: Seq<SlotView>,
)
    requires
        distinct_sets(slots),
        forall|set: HashedView| #[trigger]
            m.attached.contains_key(set) <==> has_set(slots, set),
        forall|i: int|
            0 <= i < slots.len() ==> m.attached.contains_key((#[trigger] slots[i]).set)
                && m.attached[slots[i].set] == slots[i].tracker,
        listed.no_duplicates(),
        forall|slot: SlotView| #[trigger]
            listed.contains(slot) <==> slots.contains(slot) && wanted(
                m.pool[slot.tracker].tracker,
            ),
        results.len() == listed.len(),
        forall|i: int|
            0 <= i < listed.len() ==> says(
                results[i],
                (#[trigger] listed[i]).set,
                m.pool[listed[i].tracker].tracker,
            ),
    ensures
        covers(m, wanted, results, says),
{
    let sets = listed.map_values(|slot: SlotView| slot.set);
    assert forall|i: int| 0 <= i < sets.len() implies {
        let tracker = m.pool[m.attached[#[trigger] sets[i]]].tracker;
        &&& m.attached.contains_key(sets[i])
        &&& m.attached[sets[i]] == listed[i].tracker
        &&& wanted(tracker)
        &&& says(results[i], sets[i], tracker)
    } by {
        assert(listed.contains(listed[i]));
        let k = slots.index_of(listed[i]);
        assert(slots[k] == listed[i]);
    }
    assert forall|i: int, j: int| 0 <= i < sets.len() && 0 <= j < sets.len() && i
        != j implies sets[i] != sets[j] by {
        if sets[i] == sets[j] {
            assert(m.attached[sets[i]] == listed[i].tracker);
            assert(m.attached[sets[j]] == listed[j].tracker);
            assert(listed[i] == listed[j]);
        }
    }
    assert forall|set: HashedView| #[trigger]
        m.attached.contains_key(set) && wanted(
            m.pool[m.attached[set]].tracker,
        ) implies sets.contains(set) by {
        assert(has_set(slots, set));
        let k = choose|k: int| 0 <= k < slots.len() && (#[trigger] slots[k]).set == set;
        assert(slots.contains(slots[k]));
        assert(listed.contains(slots[k]));
        let i = listed.index_of(slots[k]);
        assert(sets[i] == set);
    }
    assert(sets.len() == results.len());
}

proof fn lemma_slots_once(slots: Seq<SlotView>)
    requires
        distinct_sets(slots),
    ensures
        slots.no_duplicates(),
{
    assert forall|i: int, j: int| 0 <= i < slots.len() && 0 <= j < slots.len() && i
        != j implies slots[i] != slots[j] by {
        if i < j {
            assert(slots[i].set != slots[j].set);
        } else {
            assert(slots[j].set != slots[i].set);
        }
    }
}

/// Visiting the sets visits each once, with its own tracker.
pub proof fn law_sets_are_visited<
    A: Aggregator,
    R,
    F: FnMut(&HashedAttributes, &TrackerEntry<A>) -> R,
>(
    m: ShardedMap<A>,
    f: F,
    says: spec_fn(R, HashedView, TrackerView<A::State>) -> bool,
    results: Vec<R>,
)
    requires
        m.wf(),
        forall|set: &HashedAttributes, entry: &TrackerEntry<A>, result: R| #[trigger]
            f.ensures((set, entry), result) ==> says(result, set@, entry@),
        call_ensures(ShardedMap::<A>::for_each::<R, F>, (&m, f), results),
    ensures
        covers(m@, |tracker: TrackerView<A::State>| true, results@, says),
{
    let slots = m.slots();
    m.lemma_slots();
    lemma_slots_once(slots);
    assert forall|i: int| 0 <= i < slots.len() implies says(
        results@[i],
        (#[trigger] slots[i]).set,
        m@.pool[slots[i].tracker].tracker,
    ) by {
        assert(visited(f, slots[i].set, m@.pool[slots[i].tracker].tracker, results@[i]));
    }
    lemma_covers(m@, |tracker: TrackerView<A::State>| true, results@, says, slots, slots);
}

/// Collecting all puts one point for each set behind those that are there, made of the attributes of the
/// set and of the state of its tracker.
pub proof fn law_all_are_collected<A: Aggregator, Res, MapFn: FnMut(Vec<KeyValue>, &A) -> Res>(
    m: ShardedMap<A>,
    dest: &mut Vec<Res>,
    map_fn: MapFn,
    attrs: spec_fn(Res) -> Seq<KeyValueView>,
    state: spec_fn(Res) -> A::State,
)
    requires
        m.wf(),
        forall|list: Vec<KeyValue>, aggregator: &A, point: Res| #[trigger]
            map_fn.ensures((list, aggregator), point) ==> attrs(point) == attr_views(list@)
                && state(point) == aggregator.view(),
        call_ensures(ShardedMap::<A>::collect_all::<Res, MapFn>, (&m, dest, map_fn), ()),
    ensures
        old(dest)@.len() <= final(dest)@.len(),
        final(dest)@.take(old(dest)@.len() as int) == old(dest)@,
        covers(
            m@,
            |tracker: TrackerView<A::State>| true,
            final(dest)@.skip(old(dest)@.len() as int),
            |point: Res, set: HashedView, tracker: TrackerView<A::State>|
                attrs(point) == set.attrs && state(point) == tracker.aggregator,
        ),
{
    let slots = m.slots();
    let n = (*dest)@.len() as int;
    let points = (*final(dest))@;
    let says = |point: Res, set: HashedView, tracker: TrackerView<A::State>|
        attrs(point) == set.attrs && state(point) == tracker.aggregator;
    m.lemma_slots();
    lemma_slots_once(slots);
    assert(points.take(n) =~= (*dest)@);
    assert forall|i: int| 0 <= i < slots.len() implies says(
        points.skip(n)[i],
        (#[trigger] slots[i]).set,
        m@.pool[slots[i].tracker].tracker,
    ) by {
        assert(points.skip(n)[i] == points[n + i]);
        assert(read_point(
            map_fn,
            slots[i].set.attrs,
            m@.pool[slots[i].tracker].tracker.aggregator,
            points[n + i],
        ));
    }
    lemma_covers(
        m@,
        |tracker: TrackerView<A::State>| true,
        points.skip(n),
        says,
        slots,
        slots,
    );
}

/// Collecting what was updated puts one point for each set whose tracker was updated behind those that
/// are there, made of the attributes of the set and of the state of its tracker.
pub proof fn law_updated_are_collected<
    A: Aggregator,
    Res,
    MapFn: FnMut(Vec<KeyValue>, &mut A) -> Res,
>(
    m: &mut ShardedMap<A>,
    dest: &mut Vec<Res>,
    map_fn: MapFn,
    attrs: spec_fn(Res) -> Seq<KeyValueView>,
    state: spec_fn(Res) -> A::State,
)
    requires
        old(m).wf(),
        forall|list: Vec<KeyValue>, aggregator: &mut A, point: Res| #[trigger]
            map_fn.ensures((list, aggregator), point) ==> attrs(point) == attr_views(list@)
                && state(point) == (*aggregator).view(),
        call_ensures(ShardedMap::<A>::collect_updated::<Res, MapFn>, (m, dest, map_fn), ()),
    ensures
        old(dest)@.len() <= final(dest)@.len(),
        final(dest)@.take(old(dest)@.len() as int) == old(dest)@,
        covers(
            old(m)@,
            |tracker: TrackerView<A::State>| tracker.has_been_updated,
            final(dest)@.skip(old(dest)@.len() as int),
            |point: Res, set: HashedView, tracker: TrackerView<A::State>|
                attrs(point) == set.attrs && state(point) == tracker.aggregator,
        ),
{
    let before = *m;
    let v = before@;
    let slots = before.slots();
    let listed = due_slots(slots, v.pool);
    let n = (*dest)@.len() as int;
    let points = (*final(dest))@;
    let updated = |tracker: TrackerView<A::State>| tracker.has_been_updated;
    let says = |point: Res, set: HashedView, tracker: TrackerView<A::State>|
        attrs(point) == set.attrs && state(point) == tracker.aggregator;
    before.lemma_slots();
    before.lemma_wf();
    lemma_due_once(v, slots);
    assert(points.take(n) =~= (*dest)@);
    assert forall|i: int| 0 <= i < listed.len() implies says(
        points.skip(n)[i],
        (#[trigger] listed[i]).set,
        v.pool[listed[i].tracker].tracker,
    ) by {
        assert(v.attached.contains_key(listed[i].set));
    }
    lemma_covers(v, updated, points.skip(n), says, slots, listed);
}

proof fn lemma_due_once<S>(m: MapView<S>, slots: Seq<SlotView>)
    requires
        distinct_sets(slots),
        forall|i: int|
            0 <= i < slots.len() ==> m.attached.contains_key((#[trigger] slots[i]).set)
                && m.attached[slots[i].set] == slots[i].tracker,
        forall|set: HashedView| #[trigger]
            m.attached.contains_key(set) ==> !m.pool[m.attached[set]].tracker.evicted,
    ensures
        due_slots(slots, m.pool).no_duplicates(),
        forall|slot: SlotView| #[trigger]
            due_slots(slots, m.pool).contains(slot) <==> slots.contains(slot)
                && m.pool[slot.tracker].tracker.has_been_updated,
{
    let due = |slot: SlotView| is_due(m.pool[slot.tracker].tracker);
    lemma_slots_once(slots);
    assert(due_slots(slots, m.pool) == slots.filter(due));
    lemma_filter_once(slots, due);
    assert forall|slot: SlotView| #[trigger]
        due_slots(slots, m.pool).contains(slot) <==> slots.contains(slot)
            && m.pool[slot.tracker].tracker.has_been_updated by {
        if slots.contains(slot) {
            let k = slots.index_of(slot);
            assert(m.attached.contains_key(slots[k].set));
            if due(slot) {
                slots.lemma_filter_contains(due, k);
            }
        }
        if slots.filter(due).contains(slot) {
            slots.lemma_filter_contains_rev(due, slot);
            slots.lemma_filter_pred(due, slots.filter(due).index_of(slot));
        }
    }
}

proof fn lemma_filter_once(slots: Seq<SlotView>, p: spec_fn(SlotView) -> bool)
    requires
        slots.no_duplicates(),
    ensures
        slots.filter(p).no_duplicates(),
    decreases slots.len(),
{
    reveal(Seq::filter);
    if slots.len() > 0 {
        let front = slots.drop_last();
        let rest = front.filter(p);
        assert(front.no_duplicates());
        lemma_filter_once(front, p);
        assert(!rest.contains(slots.last())) by {
            if rest.contains(slots.last()) {
                front.lemma_filter_contains_rev(p, slots.last());
                let k = front.index_of(slots.last());
                assert(slots[k] == slots[slots.len() - 1]);
            }
        }
    }
}

/// What collecting what was updated leaves: the sets and the other trackers as they are, and each tracker
/// that a point was made of not updated, in the state that making the point has left.
pub proof fn law_updated_are_left<
    A: Aggregator,
    Res,
    MapFn: FnMut(Vec<KeyValue>, &mut A) -> Res,
>(
    m: &mut ShardedMap<A>,
    dest: &mut Vec<Res>,
    map_fn: MapFn,
    left: spec_fn(A::State) -> A::State,
)
    requires
        old(m).wf(),
        forall|list: Vec<KeyValue>, aggregator: &mut A, point: Res| #[trigger]
            map_fn.ensures((list, aggregator), point) ==> (*final(aggregator)).view() == left(
                (*aggregator).view(),
            ),
        call_ensures(ShardedMap::<A>::collect_updated::<Res, MapFn>, (m, dest, map_fn), ()),
    ensures
        final(m)@.attached == old(m)@.attached,
        final(m)@.pool.dom() == old(m)@.pool.dom(),
        forall|set: HashedView| #[trigger]
            old(m)@.attached.contains_key(set) ==> {
                let id = old(m)@.attached[set];
                let (before, after) = (old(m)@.pool[id], final(m)@.pool[id]);
                if before.tracker.has_been_updated {
                    &&& after.tracker.aggregator == left(before.tracker.aggregator)
                    &&& !after.tracker.has_been_updated
                    &&& after.tracker.evicted == before.tracker.evicted
                    &&& after.holders == before.holders
                } else {
                    after == before
                }
            },
        forall|id: usize| #[trigger]
            old(m)@.pool.contains_key(id) && (forall|set: HashedView| #[trigger]
                old(m)@.attached.contains_key(set) ==> old(m)@.attached[set] != id) ==> final(m)@.pool[id]
                == old(m)@.pool[id],
{
    let was = *m;
    let (before, after) = ((*m)@, (*final(m))@);
    let slots = was.slots();
    let due = due_slots(slots, before.pool);
    was.lemma_slots();
    was.lemma_wf();
    lemma_due_once(before, slots);
    assert forall|set: HashedView| #[trigger] before.attached.contains_key(set) implies {
        let id = before.attached[set];
        let (a, b) = (before.pool[id], after.pool[id]);
        if a.tracker.has_been_updated {
            &&& b.tracker.aggregator == left(a.tracker.aggregator)
            &&& !b.tracker.has_been_updated
            &&& b.tracker.evicted == a.tracker.evicted
            &&& b.holders == a.holders
        } else {
            b == a
        }
    } by {
        let id = before.attached[set];
        assert(is_attached(before, id));
        assert(before.pool.dom().contains(id));
        assert(after.pool.contains_key(id));
        if before.pool[id].tracker.has_been_updated {
            assert(has_set(slots, set));
            let k = choose|k: int| 0 <= k < slots.len() && (#[trigger] slots[k]).set == set;
            assert(slots.contains(slots[k]));
            assert(due.contains(slots[k]));
            let i = due.index_of(slots[k]);
            assert(due[i] == slots[k]);
            assert(before.attached.contains_key(due[i].set));
        }
    }
    assert forall|id: usize| #[trigger]
        before.pool.contains_key(id) && (forall|set: HashedView| #[trigger]
            before.attached.contains_key(set) ==> before.attached[set]
                != id) implies after.pool[id] == before.pool[id] by {
        assert(before.pool.dom().contains(id));
        assert(after.pool.contains_key(id));
        assert(!is_attached(before, id));
    }
}

} // verus!
