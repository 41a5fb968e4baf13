//! Conditions: which accesses of a trace count towards a frequency table.

use crate::laws::lemma_frequencies_total;
use crate::model::{frequencies, total};
use crate::trace::Trace;
use vstd::prelude::*;

verus! {

/// A predicate over a trace and a position of it. It looks at the access at
/// the position and at those before it only.
#[derive(Debug)]
pub enum Condition {
    /// Holds of every access.
    Always,
    /// Holds where the access before is to the same item.
    EqualsPrevious,
    /// Holds where the accesses just before are to the given items, in their
    /// order.
    After(Vec<u32>),
}

impl Condition {
    /// Whether the condition holds at position `i` of `s`.
    pub open spec fn holds(&self, s: Seq<u32>, i: int) -> bool {
        match self {
            Condition::Always => true,
            Condition::EqualsPrevious => i > 0 && s[i - 1] == s[i],
            Condition::After(context) => context@.len() <= i && window_before(
                s,
                context@.len() as int,
                i,
            ) == context@,
        }
    }

    /// Evaluate the condition at a position of a trace.
    pub fn evaluate(&self, trace: &Trace, i: usize) -> (b: bool)
        requires
            i < trace@.len(),
        ensures
            b == self.holds(trace@, i as int),
    {
        let items = trace.inner();
        match self {
            Condition::Always => true,
            Condition::EqualsPrevious => i > 0 && items[i - 1] == items[i],
            Condition::After(context) => {
                let n: usize = context.len();
                if n > i {
                    return false;
                }
                let ghost window = trace@.subrange(i - n, i as int);
                let mut k: usize = 0;
                while k < n
                    invariant
                        0 <= k <= n <= i < trace@.len(),
                        n == context@.len(),
                        items@ == trace@,
                        window == trace@.subrange(i - n, i as int),
                        self.holds(trace@, i as int) == (window == context@),
                        forall|m: int| 0 <= m < k ==> window[m] == context@[m],
                    decreases n - k,
                {
                    if items[i - n + k] != context[k] {
                        assert(window[k as int] != context@[k as int]);
                        return false;
                    }
                    k = k + 1;
                }
                assert(window =~= context@);
                true
            },
        }
    }
}

/// The items of the first `n` accesses of `s` at which the condition holds,
/// in their order.
pub open spec fn selected(s: Seq<u32>, condition: Condition, n: int) -> Seq<u32>
    decreases n,
{
    if n <= 0 {
        Seq::empty()
    } else if condition.holds(s, n - 1) {
        selected(s, condition, n - 1).push(s[n - 1])
    } else {
        selected(s, condition, n - 1)
    }
}

/// The number of positions among the first `n` of `s` at which the condition
/// holds.
pub open spec fn positions(s: Seq<u32>, condition: Condition, n: int) -> nat
    decreases n,
{
    if n <= 0 {
        0
    } else {
        positions(s, condition, n - 1) + if condition.holds(s, n - 1) {
            1nat
        } else {
            0nat
        }
    }
}

/// The `n` accesses just before position `i` of `s`.
pub open spec fn window_before(s: Seq<u32>, n: int, i: int) -> Seq<u32> {
    s.subrange(i - n, i)
}

/// Whether `w` is the window before one of the accesses before position `m`.
pub open spec fn is_context(s: Seq<u32>, n: int, m: int, w: Seq<u32>) -> bool {
    exists|i: int| n <= i < m && #[trigger] window_before(s, n, i) == w
}

/// The contents of a list of sequences of items.
pub open spec fn views(list: Seq<Vec<u32>>) -> Seq<Seq<u32>> {
    Seq::new(list.len(), |k: int| list[k]@)
}

/// The distinct contexts of length `n` of the accesses before position `m`
/// of `s`: each sequence of `n` accesses that stands just before one of
/// them, once, in the order of their first occurrences.
pub open spec fn contexts_upto(s: Seq<u32>, n: int, m: int) -> Seq<Seq<u32>>
    decreases m,
{
    if m <= n || m <= 0 {
        Seq::empty()
    } else {
        let rest = contexts_upto(s, n, m - 1);
        let window = window_before(s, n, m - 1);
        if rest.contains(window) {
            rest
        } else {
            rest.push(window)
        }
    }
}

/// The contexts are the windows before the accesses: each stands before
/// some access, each window before an access is among them, and none of
/// them stands twice.
pub proof fn lemma_contexts(s: Seq<u32>, n: int, m: int)
    requires
        0 <= n,
        m <= s.len(),
    ensures
        contexts_upto(s, n, m).no_duplicates(),
        forall|i: int|
            n <= i < m ==> contexts_upto(s, n, m).contains(#[trigger] window_before(s, n, i)),
        forall|k: int|
            0 <= k < contexts_upto(s, n, m).len() ==> is_context(
                s,
                n,
                m,
                #[trigger] contexts_upto(s, n, m)[k],
            ),
    decreases m,
{
    if m > n && m > 0 {
        lemma_contexts(s, n, m - 1);
        let rest = contexts_upto(s, n, m - 1);
        let all = contexts_upto(s, n, m);
        let window = window_before(s, n, m - 1);
        assert forall|i: int| n <= i < m implies all.contains(#[trigger] window_before(s, n, i)) by {
            if i < m - 1 {
                let k = choose|k: int| 0 <= k < rest.len() && rest[k] == window_before(s, n, i);
                assert(all[k] == window_before(s, n, i));
            } else if rest.contains(window) {
            } else {
                assert(all[rest.len() as int] == window);
            }
        }
        assert forall|k: int| 0 <= k < all.len() implies is_context(s, n, m, #[trigger] all[k]) by {
            if k < rest.len() {
                assert(all[k] == rest[k]);
                assert(is_context(s, n, m - 1, rest[k]));
                let i = choose|i: int| n <= i < m - 1 && #[trigger] window_before(s, n, i) == rest[k];
                assert(n <= i < m && window_before(s, n, i) == all[k]);
            } else {
                assert(window_before(s, n, m - 1) == all[k]);
            }
        }
    }
}

/// As many items are selected as there are positions at which the condition
/// holds, and no more than there are positions.
pub proof fn lemma_selected_len(s: Seq<u32>, condition: Condition, n: int)
    requires
        0 <= n <= s.len(),
    ensures
        selected(s, condition, n).len() == positions(s, condition, n) <= n,
    decreases n,
{
    if n > 0 {
        lemma_selected_len(s, condition, n - 1);
    }
}

/// The counts of the frequency table of a condition sum to the number of
/// positions at which the condition holds.
pub proof fn lemma_conditional_total(s: Seq<u32>, condition: Condition)
    requires
        s.len() <= usize::MAX,
    ensures
        total(frequencies(selected(s, condition, s.len() as int))) == positions(
            s,
            condition,
            s.len() as int,
        ),
{
    lemma_selected_len(s, condition, s.len() as int);
    lemma_frequencies_total(selected(s, condition, s.len() as int));
}

/// Under the condition that always holds, every access is selected.
pub proof fn lemma_always_selects_all(s: Seq<u32>, n: int)
    requires
        0 <= n <= s.len(),
    ensures
        selected(s, Condition::Always, n) == s.take(n),
    decreases n,
{
    if n > 0 {
        lemma_always_selects_all(s, n - 1);
        assert(s.take(n - 1).push(s[n - 1]) =~= s.take(n));
    } else {
        assert(s.take(n) =~= Seq::<u32>::empty());
    }
}

} // verus!
