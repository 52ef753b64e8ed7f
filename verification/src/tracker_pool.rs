//! The trackers themselves, each with the number of its holders.
//!
//! A tracker lives as long as something holds it: the map, while its attribute set is in the map,
//! and each bound handle that was given out for it.

use crate::aggregator::{Aggregator, TrackerEntry, TrackerView};
use vstd::prelude::*;

verus! {

/// What one cell of the pool holds.
pub struct CellView<S> {
    pub tracker: TrackerView<S>,
    pub holders: nat,
}

/// The number of holders after one more has been added. A count that has reached the greatest
/// number stays there, and the tracker is then kept for good.
pub open spec fn one_more(holders: nat) -> nat {
    if holders < usize::MAX {
        holders + 1
    } else {
        holders
    }
}

/// The pool after the tracker `id` has lost one holder. The last holder takes the tracker with it.
pub open spec fn one_less<S>(pool: Map<usize, CellView<S>>, id: usize) -> Map<usize, CellView<S>> {
    let cell = pool[id];
    if cell.holders >= usize::MAX {
        pool
    } else if cell.holders <= 1 {
        pool.remove(id)
    } else {
        pool.insert(id, CellView { holders: (cell.holders - 1) as nat, ..cell })
    }
}

/// The pool with the tracker `id` replaced and its holders kept.
pub open spec fn with_tracker<S>(
    pool: Map<usize, CellView<S>>,
    id: usize,
    tracker: TrackerView<S>,
) -> Map<usize, CellView<S>> {
    pool.insert(id, CellView { tracker, ..pool[id] })
}

struct Cell<A> {
    tracker: TrackerEntry<A>,
    holders: usize,
    in_map: bool,
}

/// A pool of trackers. A place that has become free is used again.
pub struct TrackerPool<A> {
    cells: Vec<Option<Cell<A>>>,
    free: Vec<usize>,
}

impl<A: Aggregator> View for TrackerPool<A> {
    type V = Map<usize, CellView<A::State>>;

    closed spec fn view(&self) -> Map<usize, CellView<A::State>> {
        Map::new(
            |id: usize| id < self.cells.len() && self.cells[id as int] is Some,
            |id: usize|
                CellView {
                    tracker: self.cells[id as int]->0.tracker@,
                    holders: self.cells[id as int]->0.holders as nat,
                },
        )
    }
}

impl<A: Aggregator> TrackerPool<A> {
    /// Every tracker has a holder, and the free places are listed, each once.
    pub closed spec fn wf(&self) -> bool {
        &&& forall|i: int|
            0 <= i < self.cells.len() && (#[trigger] self.cells[i]) is Some ==> self.cells[i]->0.holders
                >= 1
        &&& self.free@.no_duplicates()
        &&& forall|j: int|
            0 <= j < self.free.len() ==> (#[trigger] self.free[j]) < self.cells.len()
                && self.cells[self.free[j] as int] is None
        &&& forall|i: int|
            0 <= i < self.cells.len() && (#[trigger] self.cells[i]) is None ==> self.free@.contains(
                i as usize,
            )
    }

    /// The trackers of which one holder is the map.
    pub closed spec fn in_map(&self) -> Set<usize> {
        Set::new(
            |id: usize|
                id < self.cells.len() && self.cells[id as int] is Some
                    && self.cells[id as int]->0.in_map,
        )
    }

    /// The trackers of which one holder is the map are in the pool.
    pub proof fn lemma_in_map(&self)
        ensures
            forall|id: usize| #[trigger] self.in_map().contains(id) ==> self@.contains_key(id),
    {
    }

    /// An empty pool.
    pub fn new() -> (pool: Self)
        ensures
            pool.wf(),
            pool@ == Map::<usize, CellView<A::State>>::empty(),
            pool.in_map() == Set::<usize>::empty(),
    {
        let pool = TrackerPool { cells: Vec::new(), free: Vec::new() };
        assert(pool.in_map() =~= Set::<usize>::empty());
        assert(pool@ =~= Map::<usize, CellView<A::State>>::empty());
        pool
    }

    /// Adds a tracker with one holder, the map.
    pub fn add(&mut self, tracker: TrackerEntry<A>) -> (id: usize)
        requires
            old(self).wf(),
        ensures
            final(self).wf(),
            !old(self)@.contains_key(id),
            final(self)@ == old(self)@.insert(id, CellView { tracker: tracker@, holders: 1 }),
            final(self).in_map() == old(self).in_map().insert(id),
    {
        let cell: Option<Cell<A>> = Some(Cell { tracker, holders: 1, in_map: true });
        match self.free.pop() {
            Some(id) => {
                self.cells[id] = cell;
                proof {
                    let before = old(self).free@;
                    assert forall|i: int|
                        0 <= i < self.cells.len() && (
                        #[trigger] self.cells[i]) is None implies self.free@.contains(i as usize) by {
                        assert(old(self).cells[i] is None);
                        let j = before.index_of(i as usize);
                        assert(self.free[j] == before[j]);
                    }
                }
                assert(self@ =~= old(self)@.insert(id, CellView { tracker: tracker@, holders: 1 }));
                assert(self.in_map() =~= old(self).in_map().insert(id));
                id
            },
            None => {
                let id: usize = self.cells.len();
                self.cells.push(cell);
                assert(self@ =~= old(self)@.insert(id, CellView { tracker: tracker@, holders: 1 }));
                assert(self.in_map() =~= old(self).in_map().insert(id));
                id
            },
        }
    }

    /// Gives a tracker.
    pub fn get(&self, id: usize) -> (found: Option<&TrackerEntry<A>>)
        ensures
            match found {
                Some(tracker) => self@.contains_key(id) && tracker@ == self@[id].tracker,
                None => !self@.contains_key(id),
            },
    {
        if id < self.cells.len() {
            match &self.cells[id] {
                Some(cell) => Some(&cell.tracker),
                None => None,
            }
        } else {
            None
        }
    }

    /// Gives a tracker, to be changed in place.
    pub fn get_mut(&mut self, id: usize) -> (found: Option<&mut TrackerEntry<A>>)
        requires
            old(self).wf(),
        ensures
            final(self).wf(),
            final(self).in_map() == old(self).in_map(),
            match found {
                Some(tracker) => {
                    &&& old(self)@.contains_key(id)
                    &&& (*tracker)@ == old(self)@[id].tracker
                    &&& final(self)@ == with_tracker(old(self)@, id, (*final(tracker))@)
                },
                None => !old(self)@.contains_key(id) && final(self)@ == old(self)@,
            },
    {
        if id < self.cells.len() {
            match &mut self.cells[id] {
                Some(cell) => Some(&mut cell.tracker),
                None => None,
            }
        } else {
            None
        }
    }

    /// Whether a tracker has more than one holder.
    pub fn is_shared(&self, id: usize) -> (shared: bool)
        ensures
            shared == (self@.contains_key(id) && self@[id].holders > 1),
    {
        if id < self.cells.len() {
            match &self.cells[id] {
                Some(cell) => cell.holders > 1,
                None => false,
            }
        } else {
            false
        }
    }

    /// Adds a holder to a tracker.
    pub fn hold(&mut self, id: usize)
        requires
            old(self).wf(),
            old(self)@.contains_key(id),
        ensures
            final(self).wf(),
            final(self)@ == old(self)@.insert(
                id,
                CellView { holders: one_more(old(self)@[id].holders), ..old(self)@[id] },
            ),
            final(self).in_map() == old(self).in_map(),
    {
        if let Some(cell) = &mut self.cells[id] {
            if cell.holders < usize::MAX {
                cell.holders = cell.holders + 1;
            }
        }
        assert(self@ =~= old(self)@.insert(
            id,
            CellView { holders: one_more(old(self)@[id].holders), ..old(self)@[id] },
        ));
        assert(self.in_map() =~= old(self).in_map());
    }

    /// Takes a holder from a tracker. The last holder takes the tracker with it.
    pub fn release(&mut self, id: usize)
        requires
            old(self).wf(),
            old(self)@.contains_key(id),
        ensures
            final(self).wf(),
            final(self)@ == one_less(old(self)@, id),
            final(self).in_map() == old(self).in_map().intersect(final(self)@.dom()),
    {
        let mut last: bool = false;
        if let Some(cell) = &mut self.cells[id] {
            if cell.holders < usize::MAX {
                if cell.holders <= 1 {
                    last = true;
                } else {
                    cell.holders = cell.holders - 1;
                }
            }
        }
        if last {
            self.cells[id] = None;
            self.free.push(id);
            proof {
                let before = old(self).free@;
                assert forall|i: int|
                    0 <= i < self.cells.len() && (
                    #[trigger] self.cells[i]) is None implies self.free@.contains(i as usize) by {
                    if i == id {
                        assert(self.free@.last() == id);
                    } else {
                        assert(old(self).cells[i] is None);
                        let j = before.index_of(i as usize);
                        assert(self.free[j] == before[j]);
                    }
                }
            }
        }
        assert(self@ =~= one_less(old(self)@, id));
        assert(self.in_map() =~= old(self).in_map().intersect(self@.dom()));
    }

    /// Whether one holder of a tracker is the map.
    pub fn is_in_map(&self, id: usize) -> (in_map: bool)
        ensures
            in_map == self.in_map().contains(id),
    {
        if id < self.cells.len() {
            match &self.cells[id] {
                Some(cell) => cell.in_map,
                None => false,
            }
        } else {
            false
        }
    }

    /// Takes over the hold that the map has on a tracker. The number of holders stays.
    pub fn take_over(&mut self, id: usize)
        requires
            old(self).wf(),
            old(self)@.contains_key(id),
        ensures
            final(self).wf(),
            final(self)@ == old(self)@,
            final(self).in_map() == old(self).in_map().remove(id),
    {
        if let Some(cell) = &mut self.cells[id] {
            cell.in_map = false;
        }
        assert(self@ =~= old(self)@);
        assert(self.in_map() =~= old(self).in_map().remove(id));
    }
}

} // verus!
