//! A trace of accesses.

use crate::condition::{contexts_upto, lemma_selected_len, selected, views, Condition};
use crate::laws::lemma_distance_counts_distinct;
use crate::model::{
    count, distance_at, distance_by_count, distances, first_index, frequencies, lemma_count_bound,
    lemma_count_step, lemma_first_index, lemma_frequencies_push, recency,
};
use crate::text::{list_items, listed, space_items, spaced};
use std::collections::HashMap;
use std::collections::HashSet;
use vstd::prelude::*;

verus! {

/// A trace: the items that were accessed, in the order of the accesses.
#[derive(Debug, PartialEq, Eq, Hash)]
pub struct Trace {
    inner: Vec<u32>,
}

impl Default for Trace {
    /// The empty trace.
    fn default() -> (t: Self)
        ensures
            t@ == Seq::<u32>::empty(),
    {
        Trace { inner: Vec::new() }
    }
}

impl From<Vec<u32>> for Trace {
    /// The trace of the given accesses.
    fn from(trace: Vec<u32>) -> (t: Self)
        ensures
            t@ == trace@,
    {
        Trace { inner: trace }
    }
}

impl vstd::std_specs::convert::FromSpecImpl<Vec<u32>> for Trace {
    open spec fn obeys_from_spec() -> bool {
        true
    }

    closed spec fn from_spec(trace: Vec<u32>) -> Self {
        Trace { inner: trace }
    }
}

impl View for Trace {
    type V = Seq<u32>;

    closed spec fn view(&self) -> Seq<u32> {
        self.inner@
    }
}

/// The first position of `stack` that holds `x`, or the length of `stack`
/// where none does.
fn position(stack: &Vec<u32>, x: u32) -> (p: usize)
    ensures
        p == first_index(stack@, x),
        p <= stack@.len(),
{
    let mut p: usize = 0;
    while p < stack.len() && stack[p] != x
        invariant
            0 <= p <= stack@.len(),
            forall|q: int| 0 <= q < p ==> stack@[q] != x,
        decreases stack@.len() - p,
    {
        p = p + 1;
    }
    proof {
        lemma_first_index(stack@, x, p as int);
    }
    p
}

/// Count one more occurrence of `item` in a frequency table.
pub(crate) fn bump(freqs: &mut HashMap<u32, usize>, item: u32, Ghost(seen): Ghost<Seq<u32>>)
    requires
        old(freqs)@ == frequencies(seen),
        seen.len() < usize::MAX,
    ensures
        final(freqs)@ == frequencies(seen.push(item)),
{
    broadcast use vstd::std_specs::hash::group_hash_axioms;

    let known: usize = match freqs.get(&item) {
        Some(c) => *c,
        None => 0,
    };
    proof {
        lemma_frequencies_push(seen, item);
    }
    freqs.insert(item, known + 1);
}

/// Whether two sequences of items are the same.
fn same_items(a: &Vec<u32>, b: &Vec<u32>) -> (same: bool)
    ensures
        same == (a@ == b@),
{
    if a.len() != b.len() {
        return false;
    }
    let mut k: usize = 0;
    while k < a.len()
        invariant
            0 <= k <= a@.len(),
            a@.len() == b@.len(),
            forall|m: int| 0 <= m < k ==> a@[m] == b@[m],
        decreases a@.len() - k,
    {
        if a[k] != b[k] {
            return false;
        }
        k = k + 1;
    }
    assert(a@ =~= b@);
    true
}

/// Whether one of the windows found is the given one.
fn holds_window(found: &Vec<Vec<u32>>, window: &Vec<u32>) -> (held: bool)
    ensures
        held == views(found@).contains(window@),
{
    let mut k: usize = 0;
    while k < found.len()
        invariant
            0 <= k <= found@.len(),
            forall|m: int| 0 <= m < k ==> views(found@)[m] != window@,
        decreases found@.len() - k,
    {
        if same_items(&found[k], window) {
            assert(views(found@)[k as int] == window@);
            return true;
        }
        k = k + 1;
    }
    false
}

/// Whether every item is smaller than 26, and so has a letter.
pub open spec fn all_below_26(s: Seq<u32>) -> bool {
    forall|i: int| 0 <= i < s.len() ==> s[i] < 26
}

impl Trace {
    /// Calculate the frequency histogram: each item of the trace with the
    /// number of its accesses.
    #[must_use]
    pub fn frequency_histogram(&self) -> (freqs: HashMap<u32, usize>)
        ensures
            freqs@ == frequencies(self@),
    {
        let mut freqs: HashMap<u32, usize> = HashMap::new();
        let n: usize = self.inner.len();
        let mut i: usize = 0;
        assert(freqs@ =~= frequencies(self@.take(0)));
        while i < n
            invariant
                n == self.inner@.len(),
                0 <= i <= n,
                freqs@ == frequencies(self@.take(i as int)),
            decreases n - i,
        {
            assert(self@.take(i as int).push(self@[i as int]) =~= self@.take(i + 1));
            bump(&mut freqs, self.inner[i], Ghost(self@.take(i as int)));
            i = i + 1;
        }
        assert(self@.take(n as int) =~= self@);
        freqs
    }

    /// Calculate the frequency histogram of the accesses at which the
    /// condition holds: each item of such an access with the number of such
    /// accesses to it.
    #[must_use]
    pub fn conditional_frequency_histogram(&self, condition: &Condition) -> (freqs: HashMap<
        u32,
        usize,
    >)
        ensures
            freqs@ == frequencies(selected(self@, *condition, self@.len() as int)),
    {
        let mut freqs: HashMap<u32, usize> = HashMap::new();
        let n: usize = self.inner.len();
        let mut i: usize = 0;
        assert(freqs@ =~= frequencies(selected(self@, *condition, 0)));
        while i < n
            invariant
                n == self.inner@.len(),
                0 <= i <= n,
                freqs@ == frequencies(selected(self@, *condition, i as int)),
            decreases n - i,
        {
            if condition.evaluate(self, i) {
                proof {
                    lemma_selected_len(self@, *condition, i as int);
                }
                bump(&mut freqs, self.inner[i], Ghost(selected(self@, *condition, i as int)));
            }
            i = i + 1;
        }
        freqs
    }

    /// The distinct contexts of length `n`: each sequence of `n` accesses
    /// that stands just before an access, once, in the order of their first
    /// occurrences.
    #[must_use]
    pub fn contexts(&self, n: usize) -> (found: Vec<Vec<u32>>)
        ensures
            views(found@) == contexts_upto(self@, n as int, self@.len() as int),
    {
        let mut found: Vec<Vec<u32>> = Vec::new();
        let len: usize = self.inner.len();
        if n > len {
            assert(views(found@) =~= contexts_upto(self@, n as int, len as int));
            return found;
        }
        let mut i: usize = n;
        assert(views(found@) =~= contexts_upto(self@, n as int, n as int));
        while i < len
            invariant
                n <= i <= len,
                len == self.inner@.len(),
                views(found@) == contexts_upto(self@, n as int, i as int),
            decreases len - i,
        {
            let mut window: Vec<u32> = Vec::new();
            let mut k: usize = i - n;
            while k < i
                invariant
                    n <= i < len,
                    i - n <= k <= i,
                    len == self.inner@.len(),
                    window@ == self.inner@.subrange(i - n, k as int),
                decreases i - k,
            {
                window.push(self.inner[k]);
                assert(window@ =~= self.inner@.subrange(i - n, k + 1));
                k = k + 1;
            }
            if !holds_window(&found, &window) {
                let ghost before = views(found@);
                found.push(window);
                assert(views(found@) =~= before.push(window@));
            }
            i = i + 1;
        }
        found
    }

    /// Calculate the stack distances: for each access, the depth of its item
    /// in the recency stack that the accesses before it have left. That is
    /// the number of distinct items accessed since the last access to the
    /// same item, and infinite for the first access to an item.
    #[must_use]
    pub fn stack_distances(&self) -> (result: StackDistance)
        ensures
            result@ == distances(self@),
            result@.len() == self@.len(),
            forall|i: int|
                0 <= i < self@.len() ==> (#[trigger] result@[i]) == distance_by_count(self@, i),
    {
        let n: usize = self.inner.len();
        let mut found: Vec<Option<usize>> = Vec::new();
        let mut stack: Vec<u32> = Vec::new();
        let mut i: usize = 0;
        while i < n
            invariant
                n == self.inner@.len(),
                0 <= i <= n,
                stack@ == recency(self@.take(i as int)),
                stack@.len() <= i,
                found@.len() == i,
                forall|k: int| 0 <= k < i ==> found@[k] == distance_at(self@, k),
                forall|k: int| 0 <= k < i ==> (#[trigger] found@[k]) is Some ==> found@[k].unwrap() < n,
            decreases n - i,
        {
            let curr: u32 = self.inner[i];
            let p: usize = position(&stack, curr);
            proof {
                assert(self@.take(i + 1).drop_last() =~= self@.take(i as int));
                assert(self@.take(i + 1).last() == curr);
            }
            if p < stack.len() {
                found.push(Some(stack.len() - p - 1));
                stack.remove(p);
            } else {
                found.push(None);
            }
            stack.push(curr);
            i = i + 1;
        }
        assert(found@ =~= distances(self@));
        assert forall|i: int| 0 <= i < self@.len() implies (#[trigger] found@[i])
            == distance_by_count(self@, i) by {
            lemma_distance_counts_distinct(self@, i);
        }
        StackDistance { inner: found }
    }

    /// Get a reference to the items of the trace.
    #[must_use]
    pub fn inner(&self) -> (items: &[u32])
        ensures
            items@ == self@,
    {
        self.inner.as_slice()
    }

    /// Take ownership of the items of the trace.
    ///
    /// The ith element of the vector is the ith access of the trace.
    #[must_use]
    pub fn into_inner(self) -> (items: Vec<u32>)
        ensures
            items@ == self@,
    {
        self.inner
    }

    /// Record one more access: `next` becomes the last item of the trace.
    /// The resident set and the evicted item play no part.
    pub fn update(&mut self, resident: &HashSet<u32>, next: u32, evicted: Option<u32>)
        ensures
            final(self)@ == old(self)@.push(next),
    {
        self.inner.push(next);
    }

    /// Display the trace as a list separated by a comma and a space. If the
    /// items are all smaller than 26, they are displayed as capital letters,
    /// else as decimal numerals.
    #[must_use]
    pub fn pretty_print(&self) -> (text: String)
        ensures
            text@ == listed(self@, all_below_26(self@)),
    {
        let mut letters: bool = true;
        let mut i: usize = 0;
        while i < self.inner.len()
            invariant
                0 <= i <= self.inner@.len(),
                letters == (forall|k: int| 0 <= k < i ==> self.inner@[k] < 26),
            decreases self.inner@.len() - i,
        {
            if self.inner[i] >= 26 {
                letters = false;
            }
            i = i + 1;
        }
        list_items(&self.inner, letters)
    }

    /// The items as decimal numerals, each followed by a space.
    #[must_use]
    pub fn to_text(&self) -> (text: String)
        ensures
            text@ == spaced(self@),
    {
        space_items(&self.inner)
    }

    /// Get the length of the trace.
    #[must_use]
    pub fn len(&self) -> (n: usize)
        ensures
            n == self@.len(),
    {
        self.inner.len()
    }

    /// Check whether the trace is empty.
    #[must_use]
    pub fn is_empty(&self) -> (b: bool)
        ensures
            b == (self@.len() == 0),
    {
        self.inner.len() == 0
    }
}

/// The stack distances of each access in the trace.
///
/// Infinities are represented by `None`; finite distances by `Some(n)`.
pub struct StackDistance {
    inner: Vec<Option<usize>>,
}

impl View for StackDistance {
    type V = Seq<Option<usize>>;

    closed spec fn view(&self) -> Seq<Option<usize>> {
        self.inner@
    }
}

impl StackDistance {
    /// Every finite distance is smaller than the number of accesses.
    #[verifier::type_invariant]
    closed spec fn bounded(&self) -> bool {
        forall|k: int|
            0 <= k < self.inner@.len() ==> (#[trigger] self.inner@[k]) is Some
                ==> self.inner@[k].unwrap() < self.inner@.len()
    }

    /// Calculate the stack distance histogram.
    ///
    /// Returns the frequency of each finite distance from 0 up to the largest
    /// one that occurs, and the count of infinities. Where no distance is
    /// finite, there are no frequencies.
    pub fn histogram(&self) -> (result: (Vec<usize>, usize))
        ensures
            forall|k: int|
                0 <= k < self@.len() ==> (#[trigger] self@[k]) is Some ==> self@[k].unwrap()
                    < result.0@.len(),
            result.0@.len() > 0 ==> self@.contains(Some((result.0@.len() - 1) as usize)),
            forall|d: int|
                0 <= d < result.0@.len() ==> (#[trigger] result.0@[d]) == count(
                    self@,
                    Some(d as usize),
                ),
            result.1 == count(self@, None::<usize>),
    {
        proof {
            use_type_invariant(self);
        }
        let n: usize = self.inner.len();
        let mut buckets: usize = 0;
        let mut i: usize = 0;
        while i < n
            invariant
                n == self.inner@.len(),
                0 <= i <= n,
                buckets <= n,
                self.bounded(),
                forall|k: int|
                    0 <= k < i ==> (#[trigger] self.inner@[k]) is Some ==> self.inner@[k].unwrap()
                        < buckets,
                buckets > 0 ==> self.inner@.contains(Some((buckets - 1) as usize)),
            decreases n - i,
        {
            if let Some(d) = self.inner[i] {
                if d >= buckets {
                    buckets = d + 1;
                    assert(self.inner@[i as int] == Some((buckets - 1) as usize));
                }
            }
            i = i + 1;
        }
        let mut freqs: Vec<usize> = Vec::new();
        while freqs.len() < buckets
            invariant
                freqs@.len() <= buckets,
                forall|d: int| 0 <= d < freqs@.len() ==> freqs@[d] == 0,
            decreases buckets - freqs@.len(),
        {
            freqs.push(0);
        }
        let mut infinities: usize = 0;
        let mut j: usize = 0;
        while j < n
            invariant
                n == self.inner@.len(),
                0 <= j <= n,
                freqs@.len() == buckets,
                forall|k: int|
                    0 <= k < n ==> (#[trigger] self.inner@[k]) is Some ==> self.inner@[k].unwrap()
                        < buckets,
                forall|d: int|
                    0 <= d < buckets ==> (#[trigger] freqs@[d]) == count(
                        self.inner@.take(j as int),
                        Some(d as usize),
                    ),
                infinities == count(self.inner@.take(j as int), None::<usize>),
            decreases n - j,
        {
            proof {
                let next = self.inner@.take(j + 1);
                lemma_count_bound(next, None::<usize>);
                lemma_count_step(self.inner@, j as int, None::<usize>);
                assert forall|v: Option<usize>| #[trigger]
                    count(next, v) == count(self.inner@.take(j as int), v) + if self.inner@[j as int]
                        == v {
                        1nat
                    } else {
                        0nat
                    } && count(next, v) <= n by {
                    lemma_count_bound(next, v);
                    lemma_count_step(self.inner@, j as int, v);
                }
            }
            match self.inner[j] {
                Some(d) => {
                    let seen: usize = freqs[d];
                    assert(count(self.inner@.take(j + 1), Some(d)) == seen + 1);
                    freqs.set(d, seen + 1);
                },
                None => {
                    infinities = infinities + 1;
                },
            }
            j = j + 1;
        }
        assert(self.inner@.take(n as int) =~= self.inner@);
        (freqs, infinities)
    }

    /// Get a reference to the distances.
    ///
    /// The ith element is the distance of the ith access of the trace.
    #[must_use]
    pub fn inner(&self) -> (items: &[Option<usize>])
        ensures
            items@ == self@,
    {
        self.inner.as_slice()
    }

    /// Take ownership of the distances.
    ///
    /// The ith element of the vector is the distance of the ith access of the
    /// trace.
    #[must_use]
    pub fn into_inner(self) -> (items: Vec<Option<usize>>)
        ensures
            items@ == self@,
    {
        self.inner
    }
}

} // verus!
