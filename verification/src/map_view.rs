//! What the map from attribute sets to trackers holds, and how each operation changes it.

use crate::aggregator::{new_tracker, Aggregator, TrackerView};
use crate::hashed_attributes::HashedView;
use crate::tracker_pool::{one_less, one_more, with_tracker, CellView};
use vstd::prelude::*;

verus! {

/// What the map holds.
pub struct MapView<S> {
    /// Which tracker belongs to which attribute set.
    pub attached: Map<HashedView, usize>,
    /// The trackers: those of the attribute sets, and those that only bound handles hold.
    pub pool: Map<usize, CellView<S>>,
}

/// The tracker `id` belongs to an attribute set.
pub open spec fn is_attached<S>(m: MapView<S>, id: usize) -> bool {
    exists|set: HashedView| m.attached.contains_key(set) && #[trigger] m.attached[set] == id
}

/// The trackers of the attribute sets are in the pool and are not marked as evicted, and no two
/// sets share one. Every tracker has a holder.
pub open spec fn map_wf<S>(m: MapView<S>) -> bool {
    &&& m.attached.dom().finite()
    &&& forall|set: HashedView| #[trigger]
        m.attached.contains_key(set) ==> m.pool.contains_key(m.attached[set])
            && !m.pool[m.attached[set]].tracker.evicted
    &&& forall|a: HashedView, b: HashedView|
        m.attached.contains_key(a) && m.attached.contains_key(b) && #[trigger] m.attached[a]
            == #[trigger] m.attached[b] ==> a == b
    &&& forall|id: usize| #[trigger] m.pool.contains_key(id) ==> m.pool[id].holders >= 1
}

/// The set under which a measurement for `set` is counted: its own, where it has a tracker
/// already or the limit leaves room for one, and else the overflow set.
pub open spec fn target(
    attached: Map<HashedView, usize>,
    count: usize,
    limit: usize,
    set: HashedView,
    overflow: HashedView,
) -> HashedView {
    if attached.contains_key(set) || count < limit {
        set
    } else {
        overflow
    }
}

/// The count after a measurement for `set`: one more where the set is new and there is room. The
/// overflow set is not counted.
pub open spec fn count_after(
    attached: Map<HashedView, usize>,
    count: usize,
    limit: usize,
    set: HashedView,
    overflow: HashedView,
) -> int {
    if !attached.contains_key(set) && count < limit && set != overflow {
        count + 1
    } else {
        count as int
    }
}

/// `set` enters the map with a tracker that was not there before.
pub open spec fn enters<S>(
    before: MapView<S>,
    after: MapView<S>,
    set: HashedView,
    cell: CellView<S>,
) -> bool {
    let id = after.attached[set];
    &&& !before.attached.contains_key(set)
    &&& !before.pool.contains_key(id)
    &&& after.attached == before.attached.insert(set, id)
    &&& after.pool == before.pool.insert(id, cell)
}

/// A tracker after one more measurement.
pub open spec fn measured<A: Aggregator>(
    tracker: TrackerView<A::State>,
    value: A::PreComputedValue,
) -> TrackerView<A::State> {
    TrackerView {
        aggregator: A::updated(tracker.aggregator, value),
        has_been_updated: true,
        ..tracker
    }
}

/// The map after a measurement that is counted under `set`.
pub open spec fn measure_step<A: Aggregator>(
    before: MapView<A::State>,
    after: MapView<A::State>,
    set: HashedView,
    value: A::PreComputedValue,
    config: A::InitConfig,
) -> bool {
    if before.attached.contains_key(set) {
        let id = before.attached[set];
        &&& after.attached == before.attached
        &&& after.pool == with_tracker(
            before.pool,
            id,
            measured::<A>(before.pool[id].tracker, value),
        )
    } else {
        enters(
            before,
            after,
            set,
            CellView {
                tracker: measured::<A>(new_tracker(A::initial(config)), value),
                holders: 1,
            },
        )
    }
}

/// The map after a handle to the tracker of `set` has been given out.
pub open spec fn bind_step<A: Aggregator>(
    before: MapView<A::State>,
    after: MapView<A::State>,
    set: HashedView,
    config: A::InitConfig,
    id: usize,
) -> bool {
    if before.attached.contains_key(set) {
        let cell = before.pool[id];
        &&& id == before.attached[set]
        &&& after.attached == before.attached
        &&& after.pool == before.pool.insert(
            id,
            CellView { holders: one_more(cell.holders), ..cell },
        )
    } else {
        &&& id == after.attached[set]
        &&& enters(
            before,
            after,
            set,
            CellView { tracker: new_tracker(A::initial(config)), holders: 2 },
        )
    }
}

/// A set that enters with a tracker which is not evicted keeps the map well-formed.
pub proof fn lemma_enters_wf<S>(
    before: MapView<S>,
    after: MapView<S>,
    set: HashedView,
    cell: CellView<S>,
)
    requires
        map_wf(before),
        enters(before, after, set, cell),
        !cell.tracker.evicted,
        cell.holders >= 1,
    ensures
        map_wf(after),
        forall|i: usize| #[trigger]
            is_attached(after, i) <==> is_attached(before, i) || i == after.attached[set],
{
    let id = after.attached[set];
    assert forall|k: HashedView| #[trigger] after.attached.contains_key(k) implies after.pool.contains_key(
        after.attached[k],
    ) && !after.pool[after.attached[k]].tracker.evicted by {
        if k != set {
            assert(before.attached.contains_key(k));
        }
    }
    assert forall|a: HashedView, b: HashedView|
        after.attached.contains_key(a) && after.attached.contains_key(b)
            && #[trigger] after.attached[a] == #[trigger] after.attached[b] implies a == b by {
        if a != set && b != set {
            assert(before.attached[a] == before.attached[b]);
        } else if a != set {
            assert(before.attached.contains_key(a));
        } else if b != set {
            assert(before.attached.contains_key(b));
        }
    }
    assert forall|i: usize| #[trigger] is_attached(after, i) <==> is_attached(before, i) || i
        == id by {
        if is_attached(before, i) {
            let k = choose|k: HashedView|
                before.attached.contains_key(k) && #[trigger] before.attached[k] == i;
            assert(after.attached[k] == i);
        }
        if is_attached(after, i) && i != id {
            let k = choose|k: HashedView|
                after.attached.contains_key(k) && #[trigger] after.attached[k] == i;
            assert(before.attached[k] == i);
        }
    }
}

/// Changing trackers and their holders, but not which trackers there are nor which are evicted,
/// keeps the map well-formed.
pub proof fn lemma_same_trackers_wf<S>(before: MapView<S>, after: MapView<S>)
    requires
        map_wf(before),
        after.attached == before.attached,
        after.pool.dom() == before.pool.dom(),
        forall|id: usize| #[trigger]
            after.pool.contains_key(id) ==> after.pool[id].holders >= 1
                && after.pool[id].tracker.evicted == before.pool[id].tracker.evicted,
    ensures
        map_wf(after),
{
    assert forall|set: HashedView| #[trigger] after.attached.contains_key(set) implies after.pool.contains_key(
        after.attached[set],
    ) && !after.pool[after.attached[set]].tracker.evicted by {
        assert(before.pool.dom().contains(before.attached[set]));
        assert(after.pool.contains_key(after.attached[set]));
    }
}

/// `tracker` belongs to `set`.
pub open spec fn belongs<S>(m: MapView<S>, set: HashedView, tracker: TrackerView<S>) -> bool {
    m.attached.contains_key(set) && m.pool[m.attached[set]].tracker == tracker
}

/// The map after a handle to the tracker `id` has been given back. The hold that the map itself
/// has on the tracker of an attribute set cannot be given back.
pub open spec fn released<S>(m: MapView<S>, id: usize) -> MapView<S> {
    if m.pool.contains_key(id) && (!is_attached(m, id) || m.pool[id].holders > 1) {
        MapView { pool: one_less(m.pool, id), ..m }
    } else {
        m
    }
}

/// Giving a handle back keeps the map well-formed.
pub proof fn lemma_released_wf<S>(m: MapView<S>, id: usize)
    requires
        map_wf(m),
    ensures
        map_wf(released(m, id)),
{
    let after = released(m, id);
    assert forall|set: HashedView| #[trigger] after.attached.contains_key(set) implies after.pool.contains_key(
        after.attached[set],
    ) && !after.pool[after.attached[set]].tracker.evicted by {
        assert(m.attached.contains_key(set));
        assert(is_attached(m, m.attached[set]));
    }
}

/// The map with the state of the tracker `id` replaced.
pub open spec fn with_state<S>(m: MapView<S>, id: usize, state: S) -> MapView<S> {
    MapView {
        pool: with_tracker(
            m.pool,
            id,
            TrackerView { aggregator: state, ..m.pool[id].tracker },
        ),
        ..m
    }
}

/// Replacing the state of a tracker keeps the map well-formed.
pub proof fn lemma_with_state_wf<S>(m: MapView<S>, id: usize, state: S)
    requires
        map_wf(m),
        m.pool.contains_key(id),
    ensures
        map_wf(with_state(m, id, state)),
{
    assert(with_state(m, id, state).pool.dom() =~= m.pool.dom());
    lemma_same_trackers_wf(m, with_state(m, id, state));
}

/// The map with the updated flag of the tracker `id` set to `flag`.
pub open spec fn with_flag<S>(m: MapView<S>, id: usize, flag: bool) -> MapView<S> {
    MapView {
        pool: with_tracker(
            m.pool,
            id,
            TrackerView { has_been_updated: flag, ..m.pool[id].tracker },
        ),
        ..m
    }
}

/// The tracker `id` is that of one of the sets in `gone`.
pub open spec fn leaves<S>(m: MapView<S>, gone: Set<HashedView>, id: usize) -> bool {
    exists|set: HashedView|
        gone.contains(set) && m.attached.contains_key(set) && #[trigger] m.attached[set] == id
}

/// A tracker that is marked as evicted and has lost the hold of the map.
pub open spec fn evicted_cell<S>(cell: CellView<S>) -> CellView<S> {
    CellView {
        tracker: TrackerView { evicted: true, ..cell.tracker },
        holders: if cell.holders >= usize::MAX {
            cell.holders
        } else {
            (cell.holders - 1) as nat
        },
    }
}

/// The map after the sets in `gone` have been evicted. Their trackers are marked, and stay only
/// where a handle holds them.
pub open spec fn without_sets<S>(m: MapView<S>, gone: Set<HashedView>) -> MapView<S> {
    MapView {
        attached: m.attached.remove_keys(gone),
        pool: Map::new(
            |id: usize|
                m.pool.contains_key(id) && (leaves(m, gone, id) ==> m.pool[id].holders > 1),
            |id: usize|
                if leaves(m, gone, id) {
                    evicted_cell(m.pool[id])
                } else {
                    m.pool[id]
                },
        ),
    }
}

/// Evicting sets keeps the map well-formed.
pub proof fn lemma_without_sets_wf<S>(m: MapView<S>, gone: Set<HashedView>)
    requires
        map_wf(m),
    ensures
        map_wf(without_sets(m, gone)),
{
    let after = without_sets(m, gone);
    assert(after.attached.dom() =~= m.attached.dom().difference(gone));
    assert forall|set: HashedView| #[trigger] after.attached.contains_key(set) implies after.pool.contains_key(
        after.attached[set],
    ) && !after.pool[after.attached[set]].tracker.evicted by {
        assert(m.attached.contains_key(set));
        assert(!leaves(m, gone, m.attached[set]));
    }
    assert forall|a: HashedView, b: HashedView|
        after.attached.contains_key(a) && after.attached.contains_key(b)
            && #[trigger] after.attached[a] == #[trigger] after.attached[b] implies a == b by {
        assert(m.attached[a] == m.attached[b]);
    }
}

/// One set more that leaves takes one tracker more with it.
pub proof fn lemma_leaves_one_more<S>(m: MapView<S>, gone: Set<HashedView>, set: HashedView)
    requires
        map_wf(m),
        m.attached.contains_key(set),
        !gone.contains(set),
    ensures
        !leaves(m, gone, m.attached[set]),
        forall|id: usize| #[trigger]
            leaves(m, gone.insert(set), id) <==> leaves(m, gone, id) || id == m.attached[set],
{
    let id = m.attached[set];
    if leaves(m, gone, id) {
        let other = choose|other: HashedView|
            gone.contains(other) && m.attached.contains_key(other)
                && #[trigger] m.attached[other] == id;
        assert(m.attached[other] == m.attached[set]);
    }
    assert forall|i: usize| #[trigger] leaves(m, gone.insert(set), i) <==> leaves(m, gone, i) || i
        == id by {
        if leaves(m, gone, i) {
            let other = choose|other: HashedView|
                gone.contains(other) && m.attached.contains_key(other)
                    && #[trigger] m.attached[other] == i;
            assert(gone.insert(set).contains(other));
        }
        if i == id {
            assert(gone.insert(set).contains(set));
        }
    }
}

/// Evicting sets one after the other.
pub proof fn lemma_one_set_more<S>(m: MapView<S>, gone: Set<HashedView>, set: HashedView)
    requires
        map_wf(m),
        m.attached.contains_key(set),
        !gone.contains(set),
    ensures
        ({
            let id = m.attached[set];
            let before = without_sets(m, gone).pool;
            &&& before.contains_key(id)
            &&& before[id] == m.pool[id]
            &&& without_sets(m, gone.insert(set)).pool == one_less(
                with_tracker(before, id, TrackerView { evicted: true, ..before[id].tracker }),
                id,
            )
        }),
{
    let id = m.attached[set];
    let before = without_sets(m, gone).pool;
    assert(m.pool.contains_key(id));
    lemma_leaves_one_more(m, gone, set);
    let after = without_sets(m, gone.insert(set)).pool;
    let stepped = one_less(
        with_tracker(before, id, TrackerView { evicted: true, ..before[id].tracker }),
        id,
    );
    assert(after =~= stepped);
}

/// The map with the tracker `id` marked as evicted. The tracker of an attribute set cannot be
/// marked.
pub open spec fn with_mark<S>(m: MapView<S>, id: usize) -> MapView<S> {
    if m.pool.contains_key(id) && !is_attached(m, id) {
        MapView {
            pool: with_tracker(m.pool, id, TrackerView { evicted: true, ..m.pool[id].tracker }),
            ..m
        }
    } else {
        m
    }
}

/// Marking a tracker keeps the map well-formed.
pub proof fn lemma_with_mark_wf<S>(m: MapView<S>, id: usize)
    requires
        map_wf(m),
    ensures
        map_wf(with_mark(m, id)),
{
    let after = with_mark(m, id);
    assert forall|set: HashedView| #[trigger] after.attached.contains_key(set) implies after.pool.contains_key(
        after.attached[set],
    ) && !after.pool[after.attached[set]].tracker.evicted by {
        assert(m.attached.contains_key(set));
        assert(is_attached(m, m.attached[set]));
    }
}

/// The map without the sets in `gone`. Their trackers stay as they are, for whoever holds them.
pub open spec fn detached<S>(m: MapView<S>, gone: Set<HashedView>) -> MapView<S> {
    MapView { attached: m.attached.remove_keys(gone), ..m }
}

/// Taking sets out keeps the map well-formed.
pub proof fn lemma_detached_wf<S>(m: MapView<S>, gone: Set<HashedView>)
    requires
        map_wf(m),
    ensures
        map_wf(detached(m, gone)),
        forall|id: usize| #[trigger]
            is_attached(detached(m, gone), id) <==> is_attached(m, id) && !leaves(m, gone, id),
{
    let after = detached(m, gone);
    assert(after.attached.dom() =~= m.attached.dom().difference(gone));
    assert forall|set: HashedView| #[trigger] after.attached.contains_key(set) implies after.pool.contains_key(
        after.attached[set],
    ) && !after.pool[after.attached[set]].tracker.evicted by {
        assert(m.attached.contains_key(set));
    }
    assert forall|a: HashedView, b: HashedView|
        after.attached.contains_key(a) && after.attached.contains_key(b)
            && #[trigger] after.attached[a] == #[trigger] after.attached[b] implies a == b by {
        assert(m.attached[a] == m.attached[b]);
    }
    assert forall|id: usize| #[trigger] is_attached(after, id) <==> is_attached(m, id) && !leaves(
        m,
        gone,
        id,
    ) by {
        if is_attached(after, id) {
            let k = choose|k: HashedView|
                after.attached.contains_key(k) && #[trigger] after.attached[k] == id;
            assert(m.attached[k] == id);
            if leaves(m, gone, id) {
                let other = choose|other: HashedView|
                    gone.contains(other) && m.attached.contains_key(other)
                        && #[trigger] m.attached[other] == id;
                assert(m.attached[other] == m.attached[k]);
            }
        }
        if is_attached(m, id) && !leaves(m, gone, id) {
            let k = choose|k: HashedView|
                m.attached.contains_key(k) && #[trigger] m.attached[k] == id;
            assert(after.attached[k] == id);
        }
    }
}

} // verus!
