//! The replacement policies as a state machine: what one access does to the
//! resident items, for each policy.

use crate::laws::lemma_touch_shape;
use crate::model::{first_index, lemma_first_index_is_first, touch};
use vstd::prelude::*;

verus! {

/// How the victim of an eviction is chosen.
#[derive(Clone, Copy, Debug, PartialEq, Eq, Structural)]
pub enum Policy {
    /// The item that was inserted first leaves.
    Fifo,
    /// The item whose last access is the oldest leaves.
    Lru,
    /// The item whose last access is the newest leaves.
    Mru,
    /// The item with the fewest accesses since its insertion leaves; of
    /// several, the one that stands first in insertion order.
    Lfu,
    /// An item picked by a generator of numbers that starts from a seed.
    Random,
    /// The item with the least credit leaves, and every other item pays that
    /// credit; of several, the one that stands first in insertion order.
    Landlord,
}

/// One resident item with its bookkeeping. The weight is the number of
/// accesses under `Lfu`, the credit under `Landlord`, and unused elsewhere.
#[derive(Clone, Copy, Debug, PartialEq, Eq, Structural)]
pub struct Entry {
    pub item: u32,
    pub cost: u64,
    pub weight: u64,
}

/// What an access came to.
#[derive(Clone, Copy, Debug, PartialEq, Eq)]
pub struct Outcome {
    /// Whether the item was resident.
    pub hit: bool,
    /// The item that left to make room, if one did.
    pub evicted: Option<u32>,
}

/// The state of a cache, as the policies see it. The entries stand in
/// insertion order under `Fifo`, `Lfu`, `Random` and `Landlord`, and in order
/// of their last access under `Lru` and `Mru`, the oldest first.
pub ghost struct CacheView {
    pub policy: Policy,
    pub capacity: u64,
    pub entries: Seq<Entry>,
    pub seed: u64,
}

/// The resident items, in the order of the entries.
pub open spec fn items(entries: Seq<Entry>) -> Seq<u32> {
    Seq::new(entries.len(), |i: int| entries[i].item)
}

/// The generator's modulus: seeds are smaller.
pub open spec fn seed_limit() -> u64 {
    2147483647
}

/// The next number of the generator.
pub open spec fn next_seed(seed: u64) -> u64 {
    ((seed * 48271 + 12345) % 2147483647) as u64
}

/// The first index that holds the least weight; 0 for no entries.
pub open spec fn min_index(entries: Seq<Entry>) -> int
    decreases entries.len(),
{
    if entries.len() <= 1 {
        0
    } else {
        let m = min_index(entries.drop_last());
        if entries.last().weight < entries[m].weight {
            entries.len() - 1
        } else {
            m
        }
    }
}

/// The entries with their weights lowered by `by`.
pub open spec fn lowered(entries: Seq<Entry>, by: u64) -> Seq<Entry> {
    Seq::new(
        entries.len(),
        |i: int|
            Entry { item: entries[i].item, cost: entries[i].cost, weight: (entries[i].weight - by) as u64 },
    )
}

/// The entry of an item that has just come in.
pub open spec fn fresh(policy: Policy, item: u32, cost: u64) -> Entry {
    Entry {
        item,
        cost,
        weight: match policy {
            Policy::Landlord => cost,
            Policy::Lfu => 1,
            _ => 0,
        },
    }
}

/// The index of the entry that leaves a full cache.
pub open spec fn victim(policy: Policy, entries: Seq<Entry>, seed: u64) -> int {
    match policy {
        Policy::Fifo | Policy::Lru => 0,
        Policy::Mru => entries.len() - 1,
        Policy::Lfu | Policy::Landlord => min_index(entries),
        Policy::Random => next_seed(seed) as int % entries.len() as int,
    }
}

/// The entries after a hit on the entry at `p`.
pub open spec fn after_hit(policy: Policy, entries: Seq<Entry>, p: int) -> Seq<Entry> {
    match policy {
        Policy::Lru | Policy::Mru => entries.remove(p).push(entries[p]),
        Policy::Lfu => entries.update(
            p,
            Entry {
                item: entries[p].item,
                cost: entries[p].cost,
                weight: if entries[p].weight < u64::MAX {
                    (entries[p].weight + 1) as u64
                } else {
                    entries[p].weight
                },
            },
        ),
        _ => entries,
    }
}

/// The entries after the one at `v` has left.
pub open spec fn after_eviction(policy: Policy, entries: Seq<Entry>, v: int) -> Seq<Entry> {
    match policy {
        Policy::Landlord => lowered(entries, entries[v].weight).remove(v),
        _ => entries.remove(v),
    }
}

/// One access: the state after it, and what it came to.
///
/// A resident item is a hit. Else the item comes in, where there is room; a
/// full cache first loses its victim. A cache of capacity 0 takes the item in
/// and loses it at once.
pub open spec fn step(c: CacheView, item: u32, cost: u64) -> (CacheView, Outcome) {
    let p = first_index(items(c.entries), item);
    if p < c.entries.len() {
        (
            CacheView { entries: after_hit(c.policy, c.entries, p), ..c },
            Outcome { hit: true, evicted: None },
        )
    } else if c.capacity == 0 {
        (c, Outcome { hit: false, evicted: Some(item) })
    } else if c.entries.len() < c.capacity {
        (
            CacheView { entries: c.entries.push(fresh(c.policy, item, cost)), ..c },
            Outcome { hit: false, evicted: None },
        )
    } else {
        let v = victim(c.policy, c.entries, c.seed);
        (
            CacheView {
                entries: after_eviction(c.policy, c.entries, v).push(fresh(c.policy, item, cost)),
                seed: if c.policy == Policy::Random {
                    next_seed(c.seed)
                } else {
                    c.seed
                },
                ..c
            },
            Outcome { hit: false, evicted: Some(c.entries[v].item) },
        )
    }
}

/// What holds of every state of a cache: no more items are resident than the
/// capacity allows, none is resident twice, and under `Landlord` no credit
/// is above its item's cost.
pub open spec fn valid(c: CacheView) -> bool {
    &&& c.entries.len() <= c.capacity
    &&& items(c.entries).no_duplicates()
    &&& c.seed < seed_limit()
    &&& c.policy == Policy::Landlord ==> forall|i: int|
        0 <= i < c.entries.len() ==> (#[trigger] c.entries[i]).weight <= c.entries[i].cost
}

/// The first least weight is a weight of the entries, and none is below it.
pub proof fn lemma_min_index(entries: Seq<Entry>)
    requires
        entries.len() > 0,
    ensures
        0 <= min_index(entries) < entries.len(),
        forall|i: int|
            0 <= i < entries.len() ==> entries[min_index(entries)].weight <= (
            #[trigger] entries[i]).weight,
        forall|i: int|
            0 <= i < min_index(entries) ==> entries[min_index(entries)].weight < (
            #[trigger] entries[i]).weight,
    decreases entries.len(),
{
    if entries.len() > 1 {
        let rest = entries.drop_last();
        lemma_min_index(rest);
        let m = min_index(rest);
        assert(rest[m] == entries[m]);
        assert forall|i: int| 0 <= i < entries.len() implies entries[min_index(entries)].weight <= (
        #[trigger] entries[i]).weight by {
            if i < entries.len() - 1 {
                assert(rest[i] == entries[i]);
            }
        }
        assert forall|i: int| 0 <= i < min_index(entries) implies entries[min_index(
            entries,
        )].weight < (#[trigger] entries[i]).weight by {
            if i < entries.len() - 1 {
                assert(rest[i] == entries[i]);
            }
        }
    }
}

/// The victim is one of the entries of a cache that holds any.
pub proof fn lemma_victim_in_range(policy: Policy, entries: Seq<Entry>, seed: u64)
    requires
        entries.len() > 0,
    ensures
        0 <= victim(policy, entries, seed) < entries.len(),
{
    lemma_min_index(entries);
}

/// A sequence without repetitions that loses one position has none, and
/// holds nothing new.
pub proof fn lemma_remove_shape(s: Seq<u32>, v: int)
    requires
        s.no_duplicates(),
        0 <= v < s.len(),
    ensures
        s.remove(v).no_duplicates(),
        forall|y: u32| s.remove(v).contains(y) ==> s.contains(y) && y != s[v],
        forall|y: u32| s.contains(y) && y != s[v] ==> s.remove(v).contains(y),
{
    let r = s.remove(v);
    assert forall|i: int, j: int| 0 <= i < r.len() && 0 <= j < r.len() && i != j implies r[i]
        != r[j] by {
        let a = if i < v { i } else { i + 1 };
        let b = if j < v { j } else { j + 1 };
        assert(r[i] == s[a] && r[j] == s[b]);
    }
    assert forall|y: u32| r.contains(y) implies s.contains(y) && y != s[v] by {
        let i = choose|i: int| 0 <= i < r.len() && r[i] == y;
        let a = if i < v { i } else { i + 1 };
        assert(s[a] == y);
    }
    assert forall|y: u32| s.contains(y) && y != s[v] implies r.contains(y) by {
        let a = choose|a: int| 0 <= a < s.len() && s[a] == y;
        let i = if a < v { a } else { a - 1 };
        assert(r[i] == y);
    }
}

/// What one access does to the resident items: the accessed item is
/// resident after it unless the capacity is 0, the victim is not, and every
/// other item stays as it was.
pub proof fn lemma_step_items(c: CacheView, item: u32, cost: u64)
    requires
        valid(c),
    ensures
        valid(step(c, item, cost).0),
        step(c, item, cost).1.hit <==> items(c.entries).contains(item),
        forall|y: u32| #[trigger]
            items(step(c, item, cost).0.entries).contains(y) <==> (c.capacity > 0 && y == item) || (
            items(c.entries).contains(y) && (step(c, item, cost).1.hit || step(
                c,
                item,
                cost,
            ).1.evicted != Some(y))),
        step(c, item, cost).1.evicted is Some && c.capacity > 0 ==> c.entries.len() == c.capacity
            && items(c.entries).contains(step(c, item, cost).1.evicted.unwrap()),
{
    let old_items = items(c.entries);
    let p = first_index(old_items, item);
    let next = step(c, item, cost).0;
    let n = c.entries.len() as int;
    lemma_first_index_is_first(old_items, item);
    if p < n {
        match c.policy {
            Policy::Lru | Policy::Mru => {
                assert(items(next.entries) =~= touch(old_items, item));
                lemma_touch_shape(old_items, item);
            },
            _ => {
                assert(items(next.entries) =~= old_items);
            },
        }
    } else if c.capacity == 0 {
        assert forall|y: u32| !old_items.contains(y) by {
            if old_items.contains(y) {
                let i = choose|i: int| 0 <= i < old_items.len() && old_items[i] == y;
            }
        }
    } else if n < c.capacity {
        assert(items(next.entries) =~= touch(old_items, item));
        lemma_touch_shape(old_items, item);
    } else {
        let v = victim(c.policy, c.entries, c.seed);
        lemma_victim_in_range(c.policy, c.entries, c.seed);
        lemma_min_index(c.entries);
        let kept = old_items.remove(v);
        lemma_remove_shape(old_items, v);
        lemma_first_index_is_first(kept, item);
        assert(items(after_eviction(c.policy, c.entries, v)) =~= kept);
        assert(items(next.entries) =~= touch(kept, item));
        lemma_touch_shape(kept, item);
        assert(old_items[v] == c.entries[v].item);
        assert(old_items.contains(c.entries[v].item));
    }
}

} // verus!
