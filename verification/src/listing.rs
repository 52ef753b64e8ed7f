//! The slots of all shards, one shard after the other.

use crate::hashed_attributes::HashedView;
use crate::shard::{distinct_sets, has_set, Shard, Slot, SlotView};
use vstd::prelude::*;

verus! {

broadcast use Shard::lemma_wf_distinct;

/// The number of shards, a power of two so that a bit mask selects one.
pub const NUM_SHARDS: usize = 16;

/// The tracker of `set` among these slots.
pub open spec fn tracker_of(slots: Seq<SlotView>, set: HashedView) -> usize {
    choose|tracker: usize| slots.contains(SlotView { set, tracker })
}

/// Which tracker belongs to which attribute set, by these slots.
pub open spec fn by_set(slots: Seq<SlotView>) -> Map<HashedView, usize> {
    Map::new(|set: HashedView| has_set(slots, set), |set: HashedView| tracker_of(slots, set))
}

/// The slots of the first `n` shards, one shard after the other.
pub open spec fn listing(shards: Seq<Shard>, n: nat) -> Seq<SlotView>
    decreases n,
{
    if n == 0 {
        Seq::empty()
    } else {
        listing(shards, (n - 1) as nat) + shards[n - 1]@
    }
}

pub proof fn lemma_by_set(slots: Seq<SlotView>, i: int)
    requires
        distinct_sets(slots),
        0 <= i < slots.len(),
    ensures
        by_set(slots).contains_key(slots[i].set),
        by_set(slots)[slots[i].set] == slots[i].tracker,
{
    let set = slots[i].set;
    assert(slots.contains(SlotView { set, tracker: slots[i].tracker }));
    let found = SlotView { set, tracker: tracker_of(slots, set) };
    assert(slots.contains(found));
    let j = slots.index_of(found);
    if i < j {
        assert(slots[i].set != slots[j].set);
    } else if j < i {
        assert(slots[j].set != slots[i].set);
    }
}

/// The slots of the shards are those of each shard.
pub proof fn lemma_listing_contains(shards: Seq<Shard>, n: nat, slot: SlotView)
    requires
        n <= shards.len(),
    ensures
        listing(shards, n).contains(slot) <==> exists|j: int|
            0 <= j < n && (#[trigger] shards[j])@.contains(slot),
    decreases n,
{
    if n > 0 {
        let front = listing(shards, (n - 1) as nat);
        let last = shards[n - 1]@;
        lemma_listing_contains(shards, (n - 1) as nat, slot);
        if (front + last).contains(slot) {
            let i = (front + last).index_of(slot);
            if i < front.len() {
                assert(front[i] == slot);
            } else {
                assert(last[i - front.len()] == slot);
                assert(shards[n - 1]@.contains(slot));
            }
        }
        if front.contains(slot) {
            let i = front.index_of(slot);
            assert((front + last)[i] == slot);
        }
        if last.contains(slot) {
            let i = last.index_of(slot);
            assert((front + last)[front.len() + i] == slot);
        }
    }
}

/// Each shard holds the sets whose hash selects it.
pub open spec fn placed(shards: Seq<Shard>) -> bool {
    forall|j: int, i: int|
        0 <= j < shards.len() && 0 <= i < shards[j]@.len() ==> (
        #[trigger] shards[j]@[i]).set.hash % 16 == j
}

pub proof fn lemma_listing_distinct(shards: Seq<Shard>, n: nat)
    requires
        n <= shards.len(),
        placed(shards),
        forall|j: int| 0 <= j < shards.len() ==> distinct_sets((#[trigger] shards[j])@),
    ensures
        distinct_sets(listing(shards, n)),
    decreases n,
{
    if n > 0 {
        let front = listing(shards, (n - 1) as nat);
        let last = shards[n - 1]@;
        lemma_listing_distinct(shards, (n - 1) as nat);
        assert forall|i: int, j: int| 0 <= i < j < (front + last).len() implies (#[trigger] (front
            + last)[i]).set != (#[trigger] (front + last)[j]).set by {
            if j < front.len() {
                assert(front[i].set != front[j].set);
            } else if i >= front.len() {
                assert(last[i - front.len()].set != last[j - front.len()].set);
            } else {
                lemma_listing_contains(shards, (n - 1) as nat, front[i]);
                let k = choose|k: int|
                    0 <= k < n - 1 && (#[trigger] shards[k])@.contains(front[i]);
                let p = shards[k]@.index_of(front[i]);
                assert(shards[k]@[p].set.hash % 16 == k);
                assert(shards[n - 1]@[j - front.len()].set.hash % 16 == n - 1);
            }
        }
    }
}

pub proof fn lemma_listing_empty(shards: Seq<Shard>, n: nat)
    requires
        n <= shards.len(),
        forall|j: int| 0 <= j < n ==> (#[trigger] shards[j])@ == Seq::<SlotView>::empty(),
    ensures
        listing(shards, n) == Seq::<SlotView>::empty(),
    decreases n,
{
    if n > 0 {
        lemma_listing_empty(shards, (n - 1) as nat);
        assert(listing(shards, n) =~= Seq::<SlotView>::empty());
    }
}

/// A slot more in the shard that its hash selects attaches its tracker to its set, and changes
/// nothing else.
pub proof fn lemma_slot_added(before: Seq<Shard>, after: Seq<Shard>, k: int, slot: SlotView)
    requires
        before.len() == 16,
        after.len() == 16,
        0 <= k < 16,
        slot.set.hash % 16 == k,
        placed(before),
        forall|j: int| 0 <= j < 16 ==> distinct_sets((#[trigger] before[j])@),
        !has_set(before[k]@, slot.set),
        after[k]@ == before[k]@.push(slot),
        forall|j: int| 0 <= j < 16 && j != k ==> (#[trigger] after[j])@ == before[j]@,
    ensures
        placed(after),
        forall|j: int| 0 <= j < 16 ==> distinct_sets((#[trigger] after[j])@),
        !by_set(listing(before, 16)).contains_key(slot.set),
        by_set(listing(after, 16)) == by_set(listing(before, 16)).insert(slot.set, slot.tracker),
{
    let (a, b) = (listing(before, 16), listing(after, 16));
    assert(placed(after)) by {
        assert forall|j: int, i: int| 0 <= j < after.len() && 0 <= i < after[j]@.len() implies (
        #[trigger] after[j]@[i]).set.hash % 16 == j by {
            if j != k || i < before[k]@.len() {
                assert(before[j]@[i].set.hash % 16 == j);
            }
        }
    }
    assert forall|j: int| 0 <= j < 16 implies distinct_sets((#[trigger] after[j])@) by {
        assert(distinct_sets(before[j]@));
    }
    lemma_listing_distinct(before, 16);
    lemma_listing_distinct(after, 16);
    assert forall|x: SlotView| #[trigger] b.contains(x) <==> a.contains(x) || x == slot by {
        lemma_listing_contains(before, 16, x);
        lemma_listing_contains(after, 16, x);
        if b.contains(x) {
            let j = choose|j: int| 0 <= j < 16 && (#[trigger] after[j])@.contains(x);
            if j != k {
                assert(before[j]@.contains(x));
            } else {
                let i = after[k]@.index_of(x);
                if i < before[k]@.len() {
                    assert(before[k]@[i] == x);
                }
            }
        }
        if a.contains(x) {
            let j = choose|j: int| 0 <= j < 16 && (#[trigger] before[j])@.contains(x);
            let i = before[j]@.index_of(x);
            assert(after[j]@[i] == x);
        }
        if x == slot {
            assert(after[k]@[before[k]@.len() as int] == slot);
            assert(after[k]@.contains(x));
        }
    }
    assert(!has_set(a, slot.set)) by {
        if has_set(a, slot.set) {
            let i = choose|i: int| 0 <= i < a.len() && (#[trigger] a[i]).set == slot.set;
            assert(a.contains(a[i]));
            lemma_listing_contains(before, 16, a[i]);
            let j = choose|j: int| 0 <= j < 16 && (#[trigger] before[j])@.contains(a[i]);
            let p = before[j]@.index_of(a[i]);
            assert(before[j]@[p].set.hash % 16 == j);
        }
    }
    assert forall|set: HashedView| has_set(b, set) <==> has_set(a, set) || set == slot.set by {
        if has_set(b, set) {
            let i = choose|i: int| 0 <= i < b.len() && (#[trigger] b[i]).set == set;
            assert(b.contains(b[i]));
            if b[i] != slot {
                let p = a.index_of(b[i]);
                assert(a[p].set == set);
            }
        }
        if has_set(a, set) {
            let i = choose|i: int| 0 <= i < a.len() && (#[trigger] a[i]).set == set;
            assert(a.contains(a[i]));
            assert(b.contains(a[i]));
            let p = b.index_of(a[i]);
            assert(b[p].set == set);
        }
        if set == slot.set {
            assert(b.contains(slot));
            let p = b.index_of(slot);
            assert(b[p].set == set);
        }
    }
    assert forall|set: HashedView| has_set(b, set) implies by_set(b)[set] == by_set(a).insert(
        slot.set,
        slot.tracker,
    )[set] by {
        if set == slot.set {
            assert(b.contains(slot));
            lemma_by_set(b, b.index_of(slot));
        } else {
            let i = choose|i: int| 0 <= i < a.len() && (#[trigger] a[i]).set == set;
            assert(a.contains(a[i]));
            assert(b.contains(a[i]));
            lemma_by_set(a, i);
            lemma_by_set(b, b.index_of(a[i]));
        }
    }
    assert(by_set(b) =~= by_set(a).insert(slot.set, slot.tracker));
}

/// The slots of the first `n` shards come one shard after the other.
pub proof fn lemma_listing_index(shards: Seq<Shard>, n: nat, k: nat, i: int)
    requires
        k < n <= shards.len(),
        0 <= i < shards[k as int]@.len(),
    ensures
        listing(shards, k).len() + i < listing(shards, n).len(),
        listing(shards, n)[listing(shards, k).len() + i] == shards[k as int]@[i],
    decreases n,
{
    if k < n - 1 {
        lemma_listing_index(shards, (n - 1) as nat, k, i);
    }
}

/// Lists the attribute sets of all shards, each with its tracker.
pub fn list_slots(shards: &Vec<Shard>) -> (listed: Vec<&Slot>)
    requires
        shards.len() == 16,
    ensures
        listed.len() == listing(shards@, 16).len(),
        forall|i: int| 0 <= i < listed.len() ==> (#[trigger] listed[i])@ == listing(shards@, 16)[i],
{
    let mut listed: Vec<&Slot> = Vec::new();
    let mut k: usize = 0;
    while k < NUM_SHARDS
        invariant
            k <= NUM_SHARDS,
            shards.len() == 16,
            listed.len() == listing(shards@, k as nat).len(),
            forall|i: int|
                0 <= i < listed.len() ==> (#[trigger] listed[i])@ == listing(shards@, k as nat)[i],
        decreases NUM_SHARDS - k,
    {
        let shard: &Shard = &shards[k];
        let ghost before = listing(shards@, k as nat);
        let mut i: usize = 0;
        while i < shard.len()
            invariant
                i <= shard@.len(),
                listed.len() == before.len() + i,
                forall|j: int|
                    0 <= j < listed.len() ==> (#[trigger] listed[j])@ == (before + shard@)[j],
            decreases shard@.len() - i,
        {
            listed.push(shard.slot(i));
            i += 1;
        }
        assert(listing(shards@, (k + 1) as nat) == before + shard@);
        k += 1;
    }
    listed
}

/// The slots whose sets are not in `gone`.
pub open spec fn outside(gone: Set<HashedView>) -> spec_fn(SlotView) -> bool {
    |slot: SlotView| !gone.contains(slot.set)
}

/// `now` has the slots of `was` whose sets are not in `gone`, in the same order.
pub open spec fn kept_of(now: Seq<SlotView>, was: Seq<SlotView>, gone: Set<HashedView>) -> bool {
    now == was.filter(outside(gone))
}

/// Two conditions that agree on the slots pick the same slots.
pub proof fn lemma_same_filter(
    slots: Seq<SlotView>,
    p: spec_fn(SlotView) -> bool,
    q: spec_fn(SlotView) -> bool,
)
    requires
        forall|i: int| 0 <= i < slots.len() ==> p(#[trigger] slots[i]) == q(slots[i]),
    ensures
        slots.filter(p) == slots.filter(q),
    decreases slots.len(),
{
    reveal(Seq::filter);
    if slots.len() > 0 {
        let front = slots.drop_last();
        assert forall|i: int| 0 <= i < front.len() implies p(#[trigger] front[i]) == q(
            front[i],
        ) by {
            assert(front[i] == slots[i]);
        }
        lemma_same_filter(front, p, q);
        assert(slots.last() == slots[slots.len() - 1]);
    }
}

/// Picking slots by one condition and then by another picks those that meet both.
pub proof fn lemma_filter_twice(
    slots: Seq<SlotView>,
    p: spec_fn(SlotView) -> bool,
    q: spec_fn(SlotView) -> bool,
    both: spec_fn(SlotView) -> bool,
)
    requires
        forall|i: int|
            0 <= i < slots.len() ==> both(#[trigger] slots[i]) == (p(slots[i]) && q(slots[i])),
    ensures
        slots.filter(p).filter(q) == slots.filter(both),
    decreases slots.len(),
{
    reveal(Seq::filter);
    if slots.len() > 0 {
        let front = slots.drop_last();
        let slot = slots.last();
        assert forall|i: int| 0 <= i < front.len() implies both(#[trigger] front[i]) == (p(front[i])
            && q(front[i])) by {
            assert(front[i] == slots[i]);
        }
        lemma_filter_twice(front, p, q, both);
        assert(slot == slots[slots.len() - 1]);
        if p(slot) {
            front.filter(p).lemma_filter_push(slot, q);
        }
    }
}

/// What is kept are the slots that were there and whose sets are not in `gone`.
pub proof fn lemma_kept_contains(now: Seq<SlotView>, was: Seq<SlotView>, gone: Set<HashedView>)
    requires
        kept_of(now, was, gone),
    ensures
        forall|slot: SlotView| #[trigger]
            now.contains(slot) <==> was.contains(slot) && !gone.contains(slot.set),
{
    let p = outside(gone);
    assert forall|slot: SlotView| #[trigger] now.contains(slot) <==> was.contains(slot)
        && !gone.contains(slot.set) by {
        if now.contains(slot) {
            was.lemma_filter_contains_rev(p, slot);
            was.lemma_filter_pred(p, now.index_of(slot));
        }
        if was.contains(slot) && !gone.contains(slot.set) {
            let i = was.index_of(slot);
            assert(p(was[i]));
            was.lemma_filter_contains(p, i);
        }
    }
}

/// The slots of shards that each lose the sets in `gone` are those that were there without these
/// sets.
proof fn lemma_listing_kept(
    before: Seq<Shard>,
    after: Seq<Shard>,
    n: nat,
    gone: Set<HashedView>,
)
    requires
        n <= before.len(),
        n <= after.len(),
        forall|j: int| 0 <= j < n ==> kept_of((#[trigger] after[j])@, before[j]@, gone),
    ensures
        listing(after, n) == listing(before, n).filter(outside(gone)),
    decreases n,
{
    reveal(Seq::filter);
    if n > 0 {
        lemma_listing_kept(before, after, (n - 1) as nat, gone);
        assert(kept_of(after[n - 1]@, before[n - 1]@, gone));
        Seq::filter_distributes_over_add(
            listing(before, (n - 1) as nat),
            before[n - 1]@,
            outside(gone),
        );
    }
}

/// The attribute sets of the map are those in the slots of the shards that their hashes select.
pub proof fn lemma_attached(shards: Seq<Shard>)
    requires
        shards.len() == 16,
        placed(shards),
        forall|j: int| 0 <= j < 16 ==> distinct_sets((#[trigger] shards[j])@),
    ensures
        forall|j: int, i: int|
            0 <= j < 16 && 0 <= i < shards[j]@.len() ==> {
                let slot = #[trigger] shards[j]@[i];
                &&& by_set(listing(shards, 16)).contains_key(slot.set)
                &&& by_set(listing(shards, 16))[slot.set] == slot.tracker
            },
        forall|set: HashedView| #[trigger]
            by_set(listing(shards, 16)).contains_key(set) ==> has_set(
                shards[set.hash as int % 16]@,
                set,
            ),
{
    let all = listing(shards, 16);
    lemma_listing_distinct(shards, 16);
    assert forall|j: int, i: int| 0 <= j < 16 && 0 <= i < shards[j]@.len() implies {
        let slot = #[trigger] shards[j]@[i];
        &&& by_set(all).contains_key(slot.set)
        &&& by_set(all)[slot.set] == slot.tracker
    } by {
        lemma_listing_index(shards, 16, j as nat, i);
        lemma_by_set(all, listing(shards, j as nat).len() + i);
    }
    assert forall|set: HashedView| #[trigger] by_set(all).contains_key(set) implies has_set(
        shards[set.hash as int % 16]@,
        set,
    ) by {
        let p = choose|p: int| 0 <= p < all.len() && (#[trigger] all[p]).set == set;
        lemma_listing_contains(shards, 16, all[p]);
        assert(all.contains(all[p]));
        let j = choose|j: int| 0 <= j < 16 && (#[trigger] shards[j])@.contains(all[p]);
        let i = shards[j]@.index_of(all[p]);
        assert(shards[j]@[i].set.hash % 16 == j);
    }
}

/// Dropping the slots of the sets in `gone` from every shard takes these sets out of the map.
pub proof fn lemma_shards_kept(before: Seq<Shard>, after: Seq<Shard>, gone: Set<HashedView>)
    requires
        before.len() == 16,
        after.len() == 16,
        placed(before),
        forall|j: int| 0 <= j < 16 ==> distinct_sets((#[trigger] before[j])@),
        forall|j: int| 0 <= j < 16 ==> distinct_sets((#[trigger] after[j])@),
        forall|j: int| 0 <= j < 16 ==> kept_of((#[trigger] after[j])@, before[j]@, gone),
    ensures
        placed(after),
        by_set(listing(after, 16)) == by_set(listing(before, 16)).remove_keys(gone),
        listing(after, 16) == listing(before, 16).filter(outside(gone)),
{
    lemma_listing_kept(before, after, 16, gone);
    assert forall|j: int, i: int| 0 <= j < after.len() && 0 <= i < after[j]@.len() implies (
    #[trigger] after[j]@[i]).set.hash % 16 == j by {
        let slot = after[j]@[i];
        assert(kept_of(after[j]@, before[j]@, gone));
        lemma_kept_contains(after[j]@, before[j]@, gone);
        assert(after[j]@.contains(slot));
        let p = before[j]@.index_of(slot);
        assert(before[j]@[p].set.hash % 16 == j);
    }
    lemma_attached(before);
    lemma_attached(after);
    let (a, b) = (by_set(listing(before, 16)), by_set(listing(after, 16)));
    assert forall|set: HashedView| #[trigger]
        b.contains_key(set) <==> a.contains_key(set) && !gone.contains(set) by {
        let j = set.hash as int % 16;
        assert(kept_of(after[j]@, before[j]@, gone));
        lemma_kept_contains(after[j]@, before[j]@, gone);
        if b.contains_key(set) {
            let i = choose|i: int| 0 <= i < after[j]@.len() && (#[trigger] after[j]@[i]).set == set;
            assert(after[j]@.contains(after[j]@[i]));
            let p = before[j]@.index_of(after[j]@[i]);
            assert(before[j]@[p].set == set);
        }
        if a.contains_key(set) && !gone.contains(set) {
            let i = choose|i: int|
                0 <= i < before[j]@.len() && (#[trigger] before[j]@[i]).set == set;
            assert(before[j]@.contains(before[j]@[i]));
            assert(after[j]@.contains(before[j]@[i]));
            let p = after[j]@.index_of(before[j]@[i]);
            assert(after[j]@[p].set == set);
        }
    }
    assert forall|set: HashedView| b.contains_key(set) implies b[set] == a[set] by {
        let j = set.hash as int % 16;
        assert(kept_of(after[j]@, before[j]@, gone));
        lemma_kept_contains(after[j]@, before[j]@, gone);
        let i = choose|i: int| 0 <= i < after[j]@.len() && (#[trigger] after[j]@[i]).set == set;
        assert(after[j]@.contains(after[j]@[i]));
        let p = before[j]@.index_of(after[j]@[i]);
        assert(before[j]@[p].set == set);
    }
    assert(b =~= a.remove_keys(gone));
}

/// One slot more of a shard, which is kept or dropped.
pub proof fn lemma_kept_step(now: Seq<SlotView>, slots: Seq<SlotView>, n: int, gone: Set<HashedView>)
    requires
        0 <= n < slots.len(),
        distinct_sets(slots),
        kept_of(now, slots.take(n), gone),
        gone.contains(slots[n].set) ==> has_set(slots.take(n), slots[n].set),
    ensures
        !gone.contains(slots[n].set),
        !has_set(now, slots[n].set),
        kept_of(now.push(slots[n]), slots.take(n + 1), gone),
        kept_of(now, slots.take(n + 1), gone.insert(slots[n].set)),
        forall|set: HashedView| #[trigger]
            has_set(slots.take(n + 1), set) <==> has_set(slots.take(n), set) || set
                == slots[n].set,
{
    let slot = slots[n];
    let (front, more) = (slots.take(n), slots.take(n + 1));
    assert forall|i: int| 0 <= i < n implies (#[trigger] front[i]).set != slot.set by {
        assert(slots[i].set != slots[n].set);
    }
    lemma_kept_contains(now, front, gone);
    if has_set(now, slot.set) {
        let i = choose|i: int| 0 <= i < now.len() && (#[trigger] now[i]).set == slot.set;
        assert(now.contains(now[i]));
        assert(front[front.index_of(now[i])].set == slot.set);
    }
    assert(more =~= front.push(slot));
    front.lemma_filter_push(slot, outside(gone));
    front.lemma_filter_push(slot, outside(gone.insert(slot.set)));
    lemma_same_filter(front, outside(gone), outside(gone.insert(slot.set)));
    assert forall|set: HashedView| #[trigger] has_set(more, set) <==> has_set(front, set) || set
        == slot.set by {
        if has_set(more, set) {
            let i = choose|i: int| 0 <= i < more.len() && (#[trigger] more[i]).set == set;
            if i < n {
                assert(front[i].set == set);
            }
        }
        if has_set(front, set) {
            let i = choose|i: int| 0 <= i < front.len() && (#[trigger] front[i]).set == set;
            assert(more[i].set == set);
        }
        assert(more[n].set == slot.set);
    }
}

/// Dropping a set touches no other shard than the one that its hash selects.
pub proof fn lemma_kept_elsewhere(
    shards: Seq<Shard>,
    j: int,
    now: Seq<SlotView>,
    gone: Set<HashedView>,
    set: HashedView,
)
    requires
        placed(shards),
        0 <= j < shards.len(),
        set.hash % 16 != j,
        kept_of(now, shards[j]@, gone),
    ensures
        kept_of(now, shards[j]@, gone.insert(set)),
{
    assert forall|i: int| 0 <= i < shards[j]@.len() implies (#[trigger] shards[j]@[i]).set != set by {
        assert(shards[j]@[i].set.hash % 16 == j);
    }
    lemma_same_filter(shards[j]@, outside(gone), outside(gone.insert(set)));
}

} // verus!
