//! A cache of bounded capacity that replays accesses under a replacement
//! policy.

use crate::model::{first_index, lemma_first_index};
use crate::policy::{
    items, lemma_min_index, lemma_step_items, lemma_victim_in_range, lowered, min_index,
    seed_limit, step, valid, CacheView, Entry, Outcome, Policy,
};
use vstd::prelude::*;

verus! {

/// Why a cache could not be made.
#[derive(Clone, Copy, Debug, PartialEq, Eq)]
pub enum CacheError {
    /// The capacity is negative.
    InvalidConfiguration,
}

/// A simulated cache: the resident items with the policy's bookkeeping.
#[derive(Debug)]
pub struct Cache {
    policy: Policy,
    capacity: u64,
    entries: Vec<Entry>,
    seed: u64,
}

impl View for Cache {
    type V = CacheView;

    closed spec fn view(&self) -> CacheView {
        CacheView {
            policy: self.policy,
            capacity: self.capacity,
            entries: self.entries@,
            seed: self.seed,
        }
    }
}

/// The accesses to the given items, each of cost 1.
pub open spec fn unit_cost(items: Seq<u32>) -> Seq<(u32, u64)> {
    Seq::new(items.len(), |i: int| (items[i], 1u64))
}

/// The state after a sequence of accesses, each an item with its cost.
pub open spec fn run(c: CacheView, accesses: Seq<(u32, u64)>) -> CacheView
    decreases accesses.len(),
{
    if accesses.len() == 0 {
        c
    } else {
        step(run(c, accesses.drop_last()), accesses.last().0, accesses.last().1).0
    }
}

/// What the last of a sequence of accesses came to.
pub open spec fn last_outcome(c: CacheView, accesses: Seq<(u32, u64)>) -> Outcome
    recommends
        accesses.len() > 0,
{
    step(run(c, accesses.drop_last()), accesses.last().0, accesses.last().1).1
}

/// How many of the accesses were hits.
pub open spec fn hits(c: CacheView, accesses: Seq<(u32, u64)>) -> nat
    decreases accesses.len(),
{
    if accesses.len() == 0 {
        0
    } else {
        hits(c, accesses.drop_last()) + if last_outcome(c, accesses).hit {
            1nat
        } else {
            0nat
        }
    }
}

/// How many of the accesses made an item leave.
pub open spec fn evictions(c: CacheView, accesses: Seq<(u32, u64)>) -> nat
    decreases accesses.len(),
{
    if accesses.len() == 0 {
        0
    } else {
        evictions(c, accesses.drop_last()) + if last_outcome(c, accesses).evicted is Some {
            1nat
        } else {
            0nat
        }
    }
}

/// The first index of `entries` whose item is `item`, or their number where
/// none is.
fn find_entry(entries: &Vec<Entry>, item: u32) -> (p: usize)
    ensures
        p == first_index(items(entries@), item),
        p <= entries@.len(),
{
    let mut p: usize = 0;
    while p < entries.len() && entries[p].item != item
        invariant
            0 <= p <= entries@.len(),
            forall|q: int| 0 <= q < p ==> items(entries@)[q] != item,
        decreases entries@.len() - p,
    {
        p = p + 1;
    }
    proof {
        lemma_first_index(items(entries@), item, p as int);
    }
    p
}

/// The first index of `entries` that holds the least weight.
fn least_entry(entries: &Vec<Entry>) -> (m: usize)
    requires
        entries@.len() > 0,
    ensures
        m == min_index(entries@),
        m < entries@.len(),
{
    let mut m: usize = 0;
    let mut i: usize = 1;
    assert(entries@.take(1).len() == 1);
    while i < entries.len()
        invariant
            1 <= i <= entries@.len(),
            m < i,
            m == min_index(entries@.take(i as int)),
        decreases entries@.len() - i,
    {
        proof {
            assert(entries@.take(i + 1).drop_last() =~= entries@.take(i as int));
        }
        if entries[i].weight < entries[m].weight {
            m = i;
        }
        i = i + 1;
    }
    assert(entries@.take(i as int) =~= entries@);
    m
}

/// Lower the weight of every entry by `by`.
fn lower_all(entries: &mut Vec<Entry>, by: u64)
    requires
        forall|i: int| 0 <= i < old(entries)@.len() ==> by <= (#[trigger] old(entries)@[i]).weight,
    ensures
        final(entries)@ == lowered(old(entries)@, by),
{
    let ghost before = entries@;
    let mut i: usize = 0;
    while i < entries.len()
        invariant
            0 <= i <= entries@.len(),
            entries@.len() == before.len(),
            forall|k: int| 0 <= k < before.len() ==> by <= (#[trigger] before[k]).weight,
            forall|k: int| 0 <= k < i ==> entries@[k] == lowered(before, by)[k],
            forall|k: int| i <= k < before.len() ==> entries@[k] == before[k],
        decreases entries@.len() - i,
    {
        let e: Entry = entries[i];
        assert(by <= before[i as int].weight);
        entries.set(i, Entry { item: e.item, cost: e.cost, weight: e.weight - by });
        i = i + 1;
    }
    assert(entries@ =~= lowered(before, by));
}

impl Cache {
    /// What holds of every cache: see `valid`.
    pub open spec fn well_formed(&self) -> bool {
        valid(self@)
    }

    /// An empty cache of the given capacity. A capacity of 0 is in order; a
    /// negative one is refused. The seed starts the generator of the
    /// `Random` policy, so that a run can be repeated.
    pub fn new(capacity: i64, policy: Policy, seed: u64) -> (made: Result<Cache, CacheError>)
        ensures
            capacity < 0 <==> made == Err::<Cache, CacheError>(CacheError::InvalidConfiguration),
            capacity >= 0 ==> made is Ok && made.unwrap().well_formed() && made.unwrap()@ == (
            CacheView {
                policy,
                capacity: capacity as u64,
                entries: Seq::empty(),
                seed: seed % seed_limit(),
            }),
    {
        if capacity < 0 {
            Err(CacheError::InvalidConfiguration)
        } else {
            Ok(Cache { policy, capacity: capacity as u64, entries: Vec::new(), seed: seed % 2147483647 })
        }
    }

    /// The capacity.
    pub fn capacity(&self) -> (c: u64)
        ensures
            c == self@.capacity,
    {
        self.capacity
    }

    /// The policy.
    pub fn policy(&self) -> (p: Policy)
        ensures
            p == self@.policy,
    {
        self.policy
    }

    /// The number of resident items.
    pub fn len(&self) -> (n: usize)
        ensures
            n == self@.entries.len(),
    {
        self.entries.len()
    }

    /// Whether the item is resident.
    pub fn contains(&self, item: u32) -> (b: bool)
        ensures
            b == items(self@.entries).contains(item),
    {
        let p = find_entry(&self.entries, item);
        proof {
            crate::model::lemma_first_index_is_first(items(self.entries@), item);
        }
        p < self.entries.len()
    }

    /// The resident items, in the order of the policy's bookkeeping.
    pub fn resident(&self) -> (out: Vec<u32>)
        ensures
            out@ == items(self@.entries),
    {
        let mut out: Vec<u32> = Vec::new();
        let mut i: usize = 0;
        while i < self.entries.len()
            invariant
                0 <= i <= self.entries@.len(),
                out@ == items(self.entries@).take(i as int),
            decreases self.entries@.len() - i,
        {
            out.push(self.entries[i].item);
            assert(out@ =~= items(self.entries@).take(i + 1));
            i = i + 1;
        }
        assert(items(self.entries@).take(i as int) =~= items(self.entries@));
        out
    }

    /// The credit of a resident item under `Landlord`, its number of accesses
    /// under `Lfu`; `None` for an item that is not resident.
    pub fn weight(&self, item: u32) -> (w: Option<u64>)
        ensures
            w == (if first_index(items(self@.entries), item) < self@.entries.len() {
                Some(self@.entries[first_index(items(self@.entries), item)].weight)
            } else {
                None
            }),
    {
        let p = find_entry(&self.entries, item);
        if p < self.entries.len() {
            Some(self.entries[p].weight)
        } else {
            None
        }
    }

    /// Process one access to an item of the given cost.
    pub fn process_weighted(&mut self, item: u32, cost: u64) -> (out: Outcome)
        requires
            old(self).well_formed(),
        ensures
            final(self).well_formed(),
            final(self)@ == step(old(self)@, item, cost).0,
            out == step(old(self)@, item, cost).1,
    {
        proof {
            lemma_step_items(self@, item, cost);
        }
        let p = find_entry(&self.entries, item);
        let n = self.entries.len();
        if p < n {
            match self.policy {
                Policy::Lru | Policy::Mru => {
                    let e = self.entries.remove(p);
                    self.entries.push(e);
                },
                Policy::Lfu => {
                    let e: Entry = self.entries[p];
                    let w: u64 = if e.weight < u64::MAX {
                        e.weight + 1
                    } else {
                        e.weight
                    };
                    self.entries.set(p, Entry { item: e.item, cost: e.cost, weight: w });
                },
                _ => {},
            }
            Outcome { hit: true, evicted: None }
        } else if self.capacity == 0 {
            Outcome { hit: false, evicted: Some(item) }
        } else {
            let weight: u64 = match self.policy {
                Policy::Landlord => cost,
                Policy::Lfu => 1,
                _ => 0,
            };
            let entry = Entry { item, cost, weight };
            if (n as u64) < self.capacity {
                self.entries.push(entry);
                Outcome { hit: false, evicted: None }
            } else {
                proof {
                    lemma_victim_in_range(self.policy, self.entries@, self.seed);
                    lemma_min_index(self.entries@);
                }
                let v: usize = match self.policy {
                    Policy::Fifo | Policy::Lru => 0,
                    Policy::Mru => n - 1,
                    Policy::Lfu | Policy::Landlord => least_entry(&self.entries),
                    Policy::Random => {
                        self.seed = (self.seed * 48271 + 12345) % 2147483647;
                        (self.seed % (n as u64)) as usize
                    },
                };
                let gone: Entry = self.entries[v];
                if self.policy == Policy::Landlord {
                    lower_all(&mut self.entries, gone.weight);
                }
                self.entries.remove(v);
                self.entries.push(entry);
                Outcome { hit: false, evicted: Some(gone.item) }
            }
        }
    }

    /// Process one access to an item of cost 1.
    pub fn process(&mut self, item: u32) -> (out: Outcome)
        requires
            old(self).well_formed(),
        ensures
            final(self).well_formed(),
            final(self)@ == step(old(self)@, item, 1).0,
            out == step(old(self)@, item, 1).1,
    {
        self.process_weighted(item, 1)
    }

    /// Process the accesses in their order, each of cost 1, and count the
    /// hits and the misses.
    pub fn process_all(&mut self, accesses: &Vec<u32>) -> (counts: (usize, usize))
        requires
            old(self).well_formed(),
        ensures
            final(self).well_formed(),
            final(self)@ == run(old(self)@, unit_cost(accesses@)),
            counts.0 == hits(old(self)@, unit_cost(accesses@)),
            counts.0 + counts.1 == accesses@.len(),
    {
        let ghost start = self@;
        let ghost all = unit_cost(accesses@);
        let mut hit_count: usize = 0;
        let mut miss_count: usize = 0;
        let mut i: usize = 0;
        while i < accesses.len()
            invariant
                0 <= i <= accesses@.len(),
                all == unit_cost(accesses@),
                self.well_formed(),
                self@ == run(start, all.take(i as int)),
                hit_count == hits(start, all.take(i as int)),
                hit_count + miss_count == i,
            decreases accesses@.len() - i,
        {
            proof {
                assert(all.take(i + 1).drop_last() =~= all.take(i as int));
                assert(all.take(i + 1).last() == (accesses@[i as int], 1u64));
            }
            let out = self.process(accesses[i]);
            if out.hit {
                hit_count = hit_count + 1;
            } else {
                miss_count = miss_count + 1;
            }
            i = i + 1;
        }
        assert(all.take(i as int) =~= all);
        (hit_count, miss_count)
    }
}

} // verus!
