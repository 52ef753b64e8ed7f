//! One shard of the attribute map: which tracker belongs to which attribute set.

use crate::hashed_attributes::{HashedAttributes, HashedView, PassthroughBuildHasher};
use std::collections::HashMap;
use vstd::prelude::*;

verus! {

broadcast use vstd::std_specs::hash::group_hash_axioms;

/// What a [`Slot`] holds.
pub struct SlotView {
    pub set: HashedView,
    pub tracker: usize,
}

/// An attribute set and the place of its tracker in the pool.
pub struct Slot {
    pub attrs: HashedAttributes,
    pub tracker: usize,
}

impl View for Slot {
    type V = SlotView;

    open spec fn view(&self) -> SlotView {
        SlotView { set: self.attrs@, tracker: self.tracker }
    }
}

/// What the slots of `s` hold, one by one.
pub open spec fn slot_views(s: Seq<Slot>) -> Seq<SlotView> {
    s.map_values(|slot: Slot| slot@)
}

/// No two slots of `s` have the same attribute set.
pub open spec fn distinct_sets(s: Seq<SlotView>) -> bool {
    forall|i: int, j: int| 0 <= i < j < s.len() ==> (#[trigger] s[i]).set != (#[trigger] s[j]).set
}

/// A slot of `s` has the attribute set `set`.
pub open spec fn has_set(s: Seq<SlotView>, set: HashedView) -> bool {
    exists|i: int| 0 <= i < s.len() && (#[trigger] s[i]).set == set
}

/// The slots of a shard, in the order in which they came, and an index of their positions by
/// hash. Sets with the same hash share a list of positions.
pub struct Shard {
    slots: Vec<Slot>,
    index: HashMap<u64, Vec<usize>>,
}

impl View for Shard {
    type V = Seq<SlotView>;

    closed spec fn view(&self) -> Seq<SlotView> {
        slot_views(self.slots@)
    }
}

impl Shard {
    /// No attribute set occurs twice, and the index lists each position under the hash of its slot.
    pub closed spec fn wf(&self) -> bool {
        &&& distinct_sets(slot_views(self.slots@))
        &&& forall|hash: u64, j: int|
            self.index@.contains_key(hash) && 0 <= j < self.index@[hash].len() ==> (
            #[trigger] self.index@[hash][j]) < self.slots.len()
        &&& forall|i: int|
            0 <= i < self.slots.len() ==> {
                let hash = (#[trigger] self.slots[i]).attrs.hash;
                &&& self.index@.contains_key(hash)
                &&& self.index@[hash]@.contains(i as usize)
            }
    }

    /// The sets of a well-formed shard are distinct.
    pub broadcast proof fn lemma_wf_distinct(&self)
        requires
            #[trigger] self.wf(),
        ensures
            distinct_sets(self@),
    {
    }

    /// An empty shard with room for `capacity` sets.
    pub fn new(capacity: usize) -> (shard: Self)
        ensures
            shard.wf(),
            shard@ == Seq::<SlotView>::empty(),
    {
        let shard = Shard {
            slots: Vec::with_capacity(capacity),
            index: HashMap::with_capacity(capacity),
        };
        assert(shard@ =~= Seq::<SlotView>::empty());
        shard
    }

    /// The key of a set in the index: its hash, unchanged.
    fn index_key(attrs: &HashedAttributes) -> (key: u64)
        ensures
            key == attrs.hash,
    {
        let mut hasher = PassthroughBuildHasher.build_hasher();
        attrs.hash(&mut hasher);
        hasher.finish()
    }

    /// Finds the tracker of an attribute set.
    pub fn find(&self, attrs: &HashedAttributes) -> (found: Option<usize>)
        requires
            self.wf(),
        ensures
            match found {
                Some(tracker) => self@.contains(SlotView { set: attrs@, tracker }),
                None => !has_set(self@, attrs@),
            },
    {
        match self.index.get(&Self::index_key(attrs)) {
            Some(positions) => {
                let mut j: usize = 0;
                while j < positions.len()
                    invariant
                        self.wf(),
                        self.index@.contains_key(attrs.hash),
                        *positions == self.index@[attrs.hash],
                        j <= positions.len(),
                        forall|k: int|
                            0 <= k < j ==> self.slots[#[trigger] positions[k] as int].attrs@
                                != attrs@,
                    decreases positions.len() - j,
                {
                    assert(self.index@[attrs.hash][j as int] < self.slots.len());
                    let slot: &Slot = &self.slots[positions[j]];
                    if slot.attrs == *attrs {
                        assert(self@[positions[j as int] as int] == slot@);
                        return Some(slot.tracker);
                    }
                    j += 1;
                }
                proof {
                    if has_set(self@, attrs@) {
                        let i = choose|i: int| 0 <= i < self@.len() && (#[trigger] self@[i]).set
                            == attrs@;
                        assert(self@[i] == self.slots[i]@);
                        assert(self.slots[i].attrs@.hash == attrs@.hash);
                        let k = positions@.index_of(i as usize);
                        assert(positions@[k] == i);
                    }
                }
                None
            },
            None => {
                proof {
                    if has_set(self@, attrs@) {
                        let i = choose|i: int| 0 <= i < self@.len() && (#[trigger] self@[i]).set
                            == attrs@;
                        assert(self@[i] == self.slots[i]@);
                        assert(self.slots[i].attrs@.hash == attrs@.hash);
                    }
                }
                None
            },
        }
    }

    /// Adds a slot at the end.
    pub fn insert(&mut self, slot: Slot)
        requires
            old(self).wf(),
            !has_set(old(self)@, slot@.set),
        ensures
            final(self).wf(),
            final(self)@ == old(self)@.push(slot@),
    {
        let position: usize = self.slots.len();
        let key: u64 = Self::index_key(&slot.attrs);
        let mut positions: Vec<usize> = match self.index.remove(&key) {
            Some(positions) => positions,
            None => Vec::new(),
        };
        let ghost before = positions@;
        positions.push(position);
        self.index.insert(key, positions);
        let ghost view = slot@;
        self.slots.push(slot);
        proof {
            assert(self@ =~= old(self)@.push(view));
            assert(positions@.last() == position);
            assert forall|i: int| 0 <= i < self.slots.len() implies {
                let hash = (#[trigger] self.slots[i]).attrs.hash;
                &&& self.index@.contains_key(hash)
                &&& self.index@[hash]@.contains(i as usize)
            } by {
                if i < position {
                    assert(self.slots[i] == old(self).slots[i]);
                    if self.slots[i].attrs.hash == key {
                        let j = before.index_of(i as usize);
                        assert(positions@[j] == i as usize);
                    }
                }
            }
            assert forall|hash: u64, j: int|
                self.index@.contains_key(hash) && 0 <= j < self.index@[hash].len() implies (
            #[trigger] self.index@[hash][j]) < self.slots.len() by {
                if hash == key && j < before.len() {
                    assert(before[j] == old(self).index@[hash][j]);
                } else if hash != key {
                    assert(self.index@[hash] == old(self).index@[hash]);
                    assert(old(self).index@[hash][j] < old(self).slots.len());
                }
            }
        }
    }

    /// Takes all slots out of the shard.
    pub fn take_all(&mut self) -> (taken: Vec<Slot>)
        ensures
            final(self).wf(),
            final(self)@ == Seq::<SlotView>::empty(),
            slot_views(taken@) == old(self)@,
    {
        let mut taken: Vec<Slot> = Vec::new();
        core::mem::swap(&mut taken, &mut self.slots);
        self.index.clear();
        assert(self@ =~= Seq::<SlotView>::empty());
        taken
    }

    /// The number of slots.
    pub fn len(&self) -> (len: usize)
        ensures
            len == self@.len(),
    {
        self.slots.len()
    }

    /// The slot at a position.
    pub fn slot(&self, position: usize) -> (slot: &Slot)
        requires
            position < self@.len(),
        ensures
            slot@ == self@[position as int],
    {
        &self.slots[position]
    }
}

} // verus!
