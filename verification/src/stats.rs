//! Observers: accumulators that watch the accesses of a cache, one event per
//! access.

use crate::cache::{hits, run, unit_cost, Cache};
use crate::condition::{lemma_selected_len, selected, Condition};
use crate::model::frequencies;
use crate::policy::{items, step, valid, CacheView, Outcome};
use crate::trace::{bump, Trace};
use std::collections::HashMap;
use std::collections::HashSet;
use vstd::prelude::*;

verus! {

/// An observer records the accesses it is told of, and keeps the frequency
/// table of those at which its condition holds. With `Condition::Always`
/// that is the frequency histogram of all the accesses.
pub struct Observer {
    condition: Condition,
    history: Trace,
    counts: HashMap<u32, usize>,
}

/// A condition looks at the access at the position and at those before it
/// only: accesses that follow do not change whether it holds.
pub proof fn lemma_holds_of_prefix(condition: Condition, s: Seq<u32>, x: u32, i: int)
    requires
        0 <= i < s.len(),
    ensures
        condition.holds(s.push(x), i) == condition.holds(s, i),
{
    match condition {
        Condition::After(context) => {
            if context@.len() <= i {
                assert(s.push(x).subrange(i - context@.len(), i) =~= s.subrange(
                    i - context@.len(),
                    i,
                ));
            }
        },
        _ => {},
    }
}

/// One more access does not change what was selected before it.
pub proof fn lemma_selected_of_prefix(condition: Condition, s: Seq<u32>, x: u32, n: int)
    requires
        0 <= n <= s.len(),
    ensures
        selected(s.push(x), condition, n) == selected(s, condition, n),
    decreases n,
{
    if n > 0 {
        lemma_selected_of_prefix(condition, s, x, n - 1);
        lemma_holds_of_prefix(condition, s, x, n - 1);
    }
}

impl Observer {
    /// The accesses that the observer was told of, in their order.
    pub closed spec fn seen(&self) -> Seq<u32> {
        self.history@
    }

    /// The condition of the observer.
    pub closed spec fn watched(&self) -> Condition {
        self.condition
    }

    /// The frequency table of the observer.
    pub closed spec fn counted(&self) -> Map<u32, usize> {
        self.counts@
    }

    /// The table is that of the accesses seen at which the condition holds.
    pub open spec fn well_formed(&self) -> bool {
        self.counted() == frequencies(
            selected(self.seen(), self.watched(), self.seen().len() as int),
        )
    }

    /// An observer that has seen nothing yet.
    pub fn new(condition: Condition) -> (made: Observer)
        ensures
            made.well_formed(),
            made.seen() == Seq::<u32>::empty(),
            made.watched() == condition,
    {
        let made = Observer { condition, history: Trace::default(), counts: HashMap::new() };
        assert(made.counts@ =~= frequencies(selected(made.history@, made.condition, 0)));
        made
    }

    /// Take note of one access: of the items that were resident before it,
    /// of the item accessed, and of the item that left, if one did. The
    /// access is recorded, and counted where the condition holds of it.
    pub fn update(&mut self, resident: &HashSet<u32>, next: u32, evicted: Option<u32>)
        requires
            old(self).well_formed(),
            old(self).seen().len() < usize::MAX,
        ensures
            final(self).well_formed(),
            final(self).seen() == old(self).seen().push(next),
            final(self).watched() == old(self).watched(),
    {
        let ghost before = self.history@;
        let n: usize = self.history.len();
        self.history.update(resident, next, evicted);
        proof {
            lemma_selected_of_prefix(self.condition, before, next, n as int);
            lemma_selected_len(before, self.condition, n as int);
        }
        if self.condition.evaluate(&self.history, n) {
            bump(&mut self.counts, next, Ghost(selected(before, self.condition, n as int)));
        }
    }

    /// The trace of the accesses seen.
    pub fn trace(&self) -> (t: &Trace)
        ensures
            t@ == self.seen(),
    {
        &self.history
    }

    /// The frequency table.
    pub fn table(&self) -> (t: &HashMap<u32, usize>)
        ensures
            t@ == self.counted(),
    {
        &self.counts
    }
}

/// Process one access and tell every observer of it, in their order: each
/// is told of the items that were resident before the access, of the item,
/// and of the item that left.
pub fn process_observed(cache: &mut Cache, item: u32, observers: &mut Vec<Observer>) -> (out: Outcome)
    requires
        old(cache).well_formed(),
        forall|k: int|
            0 <= k < old(observers)@.len() ==> (#[trigger] old(observers)@[k]).well_formed()
                && old(observers)@[k].seen().len() < usize::MAX,
    ensures
        final(cache).well_formed(),
        final(cache)@ == step(old(cache)@, item, 1).0,
        out == step(old(cache)@, item, 1).1,
        final(observers)@.len() == old(observers)@.len(),
        forall|k: int|
            0 <= k < old(observers)@.len() ==> (#[trigger] final(observers)@[k]).well_formed()
                && final(observers)@[k].seen() == old(observers)@[k].seen().push(item)
                && final(observers)@[k].watched() == old(observers)@[k].watched(),
{
    let resident = resident_set(cache);
    let out = cache.process(item);
    let ghost start = observers@;
    let mut i: usize = 0;
    while i < observers.len()
        invariant
            0 <= i <= observers@.len(),
            observers@.len() == start.len(),
            forall|k: int|
                0 <= k < i ==> (#[trigger] observers@[k]).well_formed() && observers@[k].seen()
                    == start[k].seen().push(item) && observers@[k].watched() == start[k].watched(),
            forall|k: int| i <= k < start.len() ==> observers@[k] == start[k],
            forall|k: int|
                0 <= k < start.len() ==> (#[trigger] start[k]).well_formed() && start[k].seen().len()
                    < usize::MAX,
        decreases observers@.len() - i,
    {
        observers[i].update(&resident, item, out.evicted);
        i = i + 1;
    }
    out
}

/// The set of the resident items of a cache.
pub fn resident_set(cache: &Cache) -> (set: HashSet<u32>)
    ensures
        set@ == items(cache@.entries).to_set(),
{
    broadcast use vstd::std_specs::hash::group_hash_axioms;

    let list = cache.resident();
    let mut set: HashSet<u32> = HashSet::new();
    let mut i: usize = 0;
    while i < list.len()
        invariant
            0 <= i <= list@.len(),
            set@ == list@.take(i as int).to_set(),
        decreases list@.len() - i,
    {
        set.insert(list[i]);
        assert(list@.take(i + 1).to_set() =~= list@.take(i as int).to_set().insert(list@[i as int])) by {
            let a = list@.take(i + 1);
            let b = list@.take(i as int);
            assert forall|v: u32| a.contains(v) <==> (b.contains(v) || v == list@[i as int]) by {
                if a.contains(v) {
                    let k = choose|k: int| 0 <= k < a.len() && a[k] == v;
                    if k < i {
                        assert(b[k] == v);
                    }
                }
                if b.contains(v) {
                    let k = choose|k: int| 0 <= k < b.len() && b[k] == v;
                    assert(a[k] == v);
                }
                if v == list@[i as int] {
                    assert(a[i as int] == v);
                }
            }
        }
        i = i + 1;
    }
    assert(list@.take(i as int) =~= list@);
    set
}

/// A cache together with its observers. The observers are fixed when the
/// simulation is made, so that each of them sees every access.
pub struct Simulation {
    cache: Cache,
    observers: Vec<Observer>,
}

impl Simulation {
    /// The state of the cache.
    pub closed spec fn state(&self) -> CacheView {
        self.cache@
    }

    /// The observers, in their order.
    pub closed spec fn watchers(&self) -> Seq<Observer> {
        self.observers@
    }

    /// The cache is valid, and so is every observer.
    pub open spec fn well_formed(&self) -> bool {
        &&& valid(self.state())
        &&& forall|k: int|
            0 <= k < self.watchers().len() ==> (#[trigger] self.watchers()[k]).well_formed()
    }

    /// Whether every observer can take note of `n` more accesses.
    pub open spec fn has_room(&self, n: nat) -> bool {
        forall|k: int|
            0 <= k < self.watchers().len() ==> (#[trigger] self.watchers()[k]).seen().len() + n
                <= usize::MAX
    }

    /// A simulation of the given cache, watched by the given observers.
    pub fn new(cache: Cache, observers: Vec<Observer>) -> (made: Simulation)
        requires
            cache.well_formed(),
            forall|k: int| 0 <= k < observers@.len() ==> (#[trigger] observers@[k]).well_formed(),
        ensures
            made.well_formed(),
            made.state() == cache@,
            made.watchers() == observers@,
    {
        Simulation { cache, observers }
    }

    /// Process one access, of cost 1, and tell every observer of it.
    pub fn process(&mut self, item: u32) -> (out: Outcome)
        requires
            old(self).well_formed(),
            old(self).has_room(1),
        ensures
            final(self).well_formed(),
            final(self).state() == step(old(self).state(), item, 1).0,
            out == step(old(self).state(), item, 1).1,
            final(self).watchers().len() == old(self).watchers().len(),
            forall|k: int|
                0 <= k < old(self).watchers().len() ==> (#[trigger] final(self).watchers()[k]).seen()
                    == old(self).watchers()[k].seen().push(item)
                    && final(self).watchers()[k].watched() == old(self).watchers()[k].watched(),
    {
        process_observed(&mut self.cache, item, &mut self.observers)
    }

    /// Process the accesses in their order, each of cost 1, tell every
    /// observer of each, and count the hits and the misses.
    pub fn process_all(&mut self, accesses: &Vec<u32>) -> (counts: (usize, usize))
        requires
            old(self).well_formed(),
            old(self).has_room(accesses@.len()),
        ensures
            final(self).well_formed(),
            final(self).state() == run(old(self).state(), unit_cost(accesses@)),
            counts.0 == hits(old(self).state(), unit_cost(accesses@)),
            counts.0 + counts.1 == accesses@.len(),
            final(self).watchers().len() == old(self).watchers().len(),
            forall|k: int|
                0 <= k < old(self).watchers().len() ==> (#[trigger] final(self).watchers()[k]).seen()
                    == old(self).watchers()[k].seen() + accesses@
                    && final(self).watchers()[k].watched() == old(self).watchers()[k].watched(),
    {
        let ghost start = self.state();
        let ghost first = self.watchers();
        let ghost all = unit_cost(accesses@);
        let mut hit_count: usize = 0;
        let mut miss_count: usize = 0;
        let mut i: usize = 0;
        assert forall|k: int| 0 <= k < first.len() implies (#[trigger] self.watchers()[k]).seen()
            == first[k].seen() + accesses@.take(0) by {
            assert(first[k].seen() + accesses@.take(0) =~= first[k].seen());
        }
        while i < accesses.len()
            invariant
                0 <= i <= accesses@.len(),
                all == unit_cost(accesses@),
                self.well_formed(),
                self.state() == run(start, all.take(i as int)),
                hit_count == hits(start, all.take(i as int)),
                hit_count + miss_count == i,
                self.watchers().len() == first.len(),
                forall|k: int|
                    0 <= k < first.len() ==> (#[trigger] first[k]).seen().len() + accesses@.len()
                        <= usize::MAX,
                forall|k: int|
                    0 <= k < first.len() ==> (#[trigger] self.watchers()[k]).seen() == first[k].seen()
                        + accesses@.take(i as int) && self.watchers()[k].watched()
                        == first[k].watched(),
            decreases accesses@.len() - i,
        {
            proof {
                assert(all.take(i + 1).drop_last() =~= all.take(i as int));
                assert(all.take(i + 1).last() == (accesses@[i as int], 1u64));
                assert forall|k: int| 0 <= k < first.len() implies (first[k].seen() + accesses@.take(
                    i as int,
                )).push(accesses@[i as int]) == #[trigger] first[k].seen() + accesses@.take(
                    i + 1,
                ) by {
                    assert((first[k].seen() + accesses@.take(i as int)).push(accesses@[i as int])
                        =~= first[k].seen() + accesses@.take(i + 1));
                }
            }
            let out = self.process(accesses[i]);
            if out.hit {
                hit_count = hit_count + 1;
            } else {
                miss_count = miss_count + 1;
            }
            i = i + 1;
        }
        assert(all.take(i as int) =~= all);
        assert(accesses@.take(i as int) =~= accesses@);
        (hit_count, miss_count)
    }

    /// The cache.
    pub fn cache(&self) -> (c: &Cache)
        ensures
            c@ == self.state(),
    {
        &self.cache
    }

    /// The observers, in their order.
    pub fn observers(&self) -> (list: &Vec<Observer>)
        ensures
            list@ == self.watchers(),
    {
        &self.observers
    }
}

} // verus!
