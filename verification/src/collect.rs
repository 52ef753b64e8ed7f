//! What a collection hands out: the points, and the changes that making them brings about.

use crate::aggregator::{Aggregator, TrackerView};
use crate::hashed_attributes::HashedView;
use crate::key_value::{attr_views, KeyValue, KeyValueView};
use crate::map_view::{evicted_cell, is_attached, MapView};
use crate::shard::SlotView;
use crate::tracker_pool::CellView;
use vstd::prelude::*;

verus! {

/// An attribute set with these attributes has a tracker in the state `state`.
pub open spec fn holds_state<S>(m: MapView<S>, attrs: Seq<KeyValueView>, state: S) -> bool {
    exists|set: HashedView|
        set.attrs == attrs && #[trigger] m.attached.contains_key(set)
            && m.pool[m.attached[set]].tracker.aggregator == state
}

/// A tracker that the next collection reports: one that is in the map and was updated since the
/// last collection.
pub open spec fn is_due<S>(tracker: TrackerView<S>) -> bool {
    tracker.has_been_updated && !tracker.evicted
}

/// The slots whose trackers the next collection reports, in the order in which they are visited.
pub open spec fn due_slots<S>(slots: Seq<SlotView>, pool: Map<usize, CellView<S>>) -> Seq<
    SlotView,
> {
    slots.filter(|slot: SlotView| is_due(pool[slot.tracker].tracker))
}

/// A tracker after a collection that has made a point of it: it counts as not updated, and is
/// otherwise as making the point has left it.
pub open spec fn collected_cell<S>(before: CellView<S>, state: S) -> CellView<S> {
    CellView {
        tracker: TrackerView {
            aggregator: state,
            has_been_updated: false,
            ..before.tracker
        },
        ..before
    }
}

/// The map after a collection. The sets stay, points were made of those of their trackers that were
/// updated, and the other trackers are unchanged.
pub open spec fn map_collected<S>(before: MapView<S>, after: MapView<S>) -> bool {
    &&& after.attached == before.attached
    &&& after.pool.dom() == before.pool.dom()
    &&& forall|id: usize| #[trigger]
        after.pool.contains_key(id) ==> after.pool[id] == if is_attached(before, id)
            && before.pool[id].tracker.has_been_updated {
            collected_cell(before.pool[id], after.pool[id].tracker.aggregator)
        } else {
            before.pool[id]
        }
}

/// The trackers after a collection. Points were made of those that were due, and the others are
/// unchanged.
pub open spec fn pool_collected<S>(
    before: Map<usize, CellView<S>>,
    after: Map<usize, CellView<S>>,
) -> bool {
    &&& after.dom() == before.dom()
    &&& forall|id: usize| #[trigger]
        after.contains_key(id) ==> after[id] == if is_due(before[id].tracker) {
            collected_cell(before[id], after[id].tracker.aggregator)
        } else {
            before[id]
        }
}

/// A tracker that has been reset, is marked as evicted and has lost the hold of the map.
pub open spec fn reset_cell<S>(cell: CellView<S>, initial: S) -> CellView<S> {
    evicted_cell(
        CellView { tracker: TrackerView { aggregator: initial, ..cell.tracker }, ..cell },
    )
}

/// The trackers after all attribute sets have been drained. Those that were in the map are reset
/// and marked as evicted, and stay only where a handle holds them.
pub open spec fn pool_reset<S>(before: Map<usize, CellView<S>>, initial: S) -> Map<
    usize,
    CellView<S>,
> {
    Map::new(
        |id: usize|
            before.contains_key(id) && (before[id].tracker.evicted || before[id].holders > 1),
        |id: usize|
            if before[id].tracker.evicted {
                before[id]
            } else {
                reset_cell(before[id], initial)
            },
    )
}

/// `point` is what `map_fn` may make of these attributes and of an aggregator in this state.
pub open spec fn read_point<A: Aggregator, Res, MapFn: FnMut(Vec<KeyValue>, &A) -> Res>(
    map_fn: MapFn,
    attrs: Seq<KeyValueView>,
    state: A::State,
    point: Res,
) -> bool {
    exists|list: Vec<KeyValue>, aggregator: &A|
        attr_views(list@) == attrs && aggregator.view() == state && #[trigger] map_fn.ensures(
            (list, aggregator),
            point,
        )
}

/// `point` is what `map_fn` may make of these attributes and of an aggregator in this state, which
/// it takes over.
pub open spec fn taken_point<A: Aggregator, Res, MapFn: FnMut(Vec<KeyValue>, A) -> Res>(
    map_fn: MapFn,
    attrs: Seq<KeyValueView>,
    state: A::State,
    point: Res,
) -> bool {
    exists|list: Vec<KeyValue>, aggregator: A|
        attr_views(list@) == attrs && aggregator.view() == state && #[trigger] map_fn.ensures(
            (list, aggregator),
            point,
        )
}

} // verus!
