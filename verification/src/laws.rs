//! What holds of the frequency table and of the stack distances of every
//! trace.

use crate::model::{
    count, distance_by_count, distances, distinct_between, first_index, frequencies, last_access,
    lemma_count_positive, lemma_first_index, lemma_first_index_is_first, occurs_after, recency,
    total, touch,
};
use crate::cache::{evictions, hits, last_outcome, run};
use crate::policy::{items, lemma_step_items, step, valid, victim, CacheView, Policy};
use vstd::prelude::*;

verus! {

/// Taking one key out of a finite table takes its count out of the total.
pub proof fn lemma_total_remove(m: Map<u32, usize>, k: u32)
    requires
        m.dom().finite(),
        m.dom().contains(k),
    ensures
        total(m) == m[k] as nat + total(m.remove(k)),
    decreases m.dom().len(),
{
    broadcast use vstd::set::group_set_axioms, vstd::map::group_map_axioms;

    let c = m.dom().choose();
    assert(m.dom().len() != 0);
    assert(m.dom().contains(c));
    if c != k {
        assert(m.remove(c).dom().len() < m.dom().len());
        assert(m.remove(k).dom().len() < m.dom().len());
        lemma_total_remove(m.remove(c), k);
        lemma_total_remove(m.remove(k), c);
        assert(m.remove(c).remove(k) =~= m.remove(k).remove(c));
    }
}

/// Setting the count of one key changes the total by what the count changes.
pub proof fn lemma_total_insert(m: Map<u32, usize>, k: u32, v: usize)
    requires
        m.dom().finite(),
    ensures
        m.insert(k, v).dom().finite(),
        total(m.insert(k, v)) + (if m.dom().contains(k) {
            m[k] as nat
        } else {
            0nat
        }) == total(m) + v as nat,
{
    broadcast use vstd::set::group_set_axioms, vstd::map::group_map_axioms;

    let after = m.insert(k, v);
    lemma_total_remove(after, k);
    assert(after.remove(k) =~= m.remove(k));
    if m.dom().contains(k) {
        lemma_total_remove(m, k);
    } else {
        assert(m.remove(k) =~= m);
    }
}

/// The counts of the frequency table of a trace sum to the length of the
/// trace.
pub proof fn lemma_frequencies_total(s: Seq<u32>)
    requires
        s.len() <= usize::MAX,
    ensures
        frequencies(s).dom().finite(),
        total(frequencies(s)) == s.len(),
    decreases s.len(),
{
    broadcast use vstd::set::group_set_axioms, vstd::map::group_map_axioms;

    if s.len() == 0 {
        assert(frequencies(s).dom() =~= Set::<u32>::empty());
    } else {
        let before = s.drop_last();
        let x = s.last();
        lemma_frequencies_total(before);
        crate::model::lemma_count_bound(before, x);
        lemma_count_positive(before, x);
        assert forall|k: u32| s.contains(k) <==> (before.contains(k) || k == x) by {
            lemma_count_positive(s, k);
            lemma_count_positive(before, k);
        }
        let seen = count(before, x);
        assert(frequencies(s) =~= frequencies(before).insert(x, (seen + 1) as usize));
        lemma_total_insert(frequencies(before), x, (seen + 1) as usize);
    }
}

/// One more access keeps a recency stack free of repetitions, puts the item
/// last, and adds no other item.
pub proof fn lemma_touch_shape(stack: Seq<u32>, x: u32)
    requires
        stack.no_duplicates(),
    ensures
        touch(stack, x).no_duplicates(),
        touch(stack, x).len() > 0,
        touch(stack, x).last() == x,
        touch(stack, x).len() == stack.len() + if stack.contains(x) {
            0int
        } else {
            1int
        },
        forall|y: u32| touch(stack, x).contains(y) <==> (stack.contains(y) || y == x),
{
    lemma_first_index_is_first(stack, x);
    let p = first_index(stack, x);
    let after = touch(stack, x);
    let n = stack.len() as int;
    if p < n {
        assert forall|i: int, j: int| 0 <= i < after.len() && 0 <= j < after.len() && i != j implies after[i] != after[j] by {
            let a = if i == n - 1 { p } else if i < p { i } else { i + 1 };
            let b = if j == n - 1 { p } else if j < p { j } else { j + 1 };
            assert(after[i] == stack[a]);
            assert(after[j] == stack[b]);
        }
        assert forall|y: u32| after.contains(y) <==> (stack.contains(y) || y == x) by {
            if after.contains(y) {
                let i = choose|i: int| 0 <= i < after.len() && after[i] == y;
                let a = if i == n - 1 { p } else if i < p { i } else { i + 1 };
                assert(stack[a] == y);
            }
            if stack.contains(y) {
                let a = choose|a: int| 0 <= a < n && stack[a] == y;
                let i = if a == p { n - 1 } else if a < p { a } else { a - 1 };
                assert(after[i] == y);
            }
            if y == x {
                assert(after[n - 1] == y);
            }
        }
    } else {
        assert forall|i: int, j: int| 0 <= i < after.len() && 0 <= j < after.len() && i != j implies after[i] != after[j] by {
            if i < n {
                assert(after[i] == stack[i]);
            }
            if j < n {
                assert(after[j] == stack[j]);
            }
        }
        assert forall|y: u32| after.contains(y) <==> (stack.contains(y) || y == x) by {
            if after.contains(y) {
                let i = choose|i: int| 0 <= i < after.len() && after[i] == y;
                if i < n {
                    assert(stack[i] == y);
                }
            }
            if stack.contains(y) {
                let a = choose|a: int| 0 <= a < n && stack[a] == y;
                assert(after[a] == y);
            }
            if y == x {
                assert(after[n] == y);
            }
        }
    }
}

/// The recency stack of a trace holds each item of the trace once, and no
/// other; the item of the last access is its last.
pub proof fn lemma_recency_shape(s: Seq<u32>)
    ensures
        recency(s).no_duplicates(),
        recency(s).len() <= s.len(),
        s.len() > 0 ==> recency(s).len() > 0 && recency(s).last() == s.last(),
        forall|y: u32| recency(s).contains(y) <==> s.contains(y),
    decreases s.len(),
{
    if s.len() > 0 {
        let before = s.drop_last();
        let x = s.last();
        lemma_recency_shape(before);
        lemma_touch_shape(recency(before), x);
        assert forall|y: u32| recency(s).contains(y) <==> s.contains(y) by {
            if s.contains(y) {
                let i = choose|i: int| 0 <= i < s.len() && s[i] == y;
                if i < s.len() - 1 {
                    assert(before[i] == y);
                }
            }
            if before.contains(y) {
                let i = choose|i: int| 0 <= i < before.len() && before[i] == y;
                assert(s[i] == y);
            }
            if y == x {
                assert(s[s.len() - 1] == y);
            }
        }
    }
}

/// The stack distance of an access is infinite exactly where no earlier
/// access is to the same item: that of the first occurrence of any item is
/// infinite, that of every later one finite.
pub proof fn lemma_first_occurrence_is_infinite(s: Seq<u32>, i: int)
    requires
        0 <= i < s.len(),
    ensures
        distances(s)[i] is None <==> !s.take(i).contains(s[i]),
{
    lemma_recency_shape(s.take(i));
    lemma_first_index_is_first(recency(s.take(i)), s[i]);
}

/// The stack distance of an access to the item of the access just before it
/// is 0.
pub proof fn lemma_immediate_repeat_is_zero(s: Seq<u32>, i: int)
    requires
        0 < i < s.len(),
        s[i] == s[i - 1],
    ensures
        distances(s)[i] == Some(0usize),
{
    let before = s.take(i);
    let stack = recency(before);
    lemma_recency_shape(before);
    assert(before.last() == s[i - 1]);
    let top = stack.len() - 1;
    assert forall|q: int| 0 <= q < top implies stack[q] != s[i] by {
        assert(stack[top] == s[i]);
    }
    lemma_first_index(stack, s[i], top);
}

/// A finite stack distance is smaller than the number of distinct items that
/// were accessed before, and so than the position of the access.
pub proof fn lemma_distance_bound(s: Seq<u32>, i: int)
    requires
        0 <= i < s.len(),
        s.len() <= usize::MAX,
    ensures
        distances(s)[i] is Some ==> distances(s)[i].unwrap() < recency(s.take(i)).len() <= i,
{
    lemma_recency_shape(s.take(i));
    lemma_first_index_is_first(recency(s.take(i)), s[i]);
}

/// What `last_access` finds: a position that holds `x` with none after it
/// that does, or -1 where no position holds `x`.
pub proof fn lemma_last_access(s: Seq<u32>, x: u32)
    ensures
        -1 <= last_access(s, x) < s.len(),
        last_access(s, x) >= 0 ==> s[last_access(s, x)] == x,
        forall|m: int| last_access(s, x) < m < s.len() ==> s[m] != x,
        last_access(s, x) >= 0 <==> s.contains(x),
    decreases s.len(),
{
    if s.len() > 0 {
        if s.last() == x {
            assert(s[s.len() - 1] == x);
        } else {
            let before = s.drop_last();
            lemma_last_access(before, x);
            let j = last_access(before, x);
            assert forall|m: int| j < m < s.len() implies s[m] != x by {
                if m < s.len() - 1 {
                    assert(before[m] == s[m]);
                }
            }
            if j >= 0 {
                assert(s[j] == x);
            }
        }
    }
}

/// One more item at the end: what stands after a position is what stood
/// there before, and the new item.
proof fn lemma_occurs_after_push(s: Seq<u32>, from: int, y: u32, v: u32)
    requires
        -1 <= from < s.len(),
    ensures
        occurs_after(s.push(y), from, v) <==> (occurs_after(s, from, v) || v == y),
{
    let t = s.push(y);
    if occurs_after(t, from, v) {
        let k = choose|k: int| from < k < t.len() && t[k] == v;
        if k < s.len() {
            assert(s[k] == v);
        }
    }
    if occurs_after(s, from, v) {
        let k = choose|k: int| from < k < s.len() && s[k] == v;
        assert(t[k] == v);
    }
    if v == y {
        assert(t[s.len() as int] == v);
    }
}

/// An access to `y` moves `x`, which is another item of the stack, down by
/// one place where `y` stood below it, and leaves it in its place otherwise;
/// above it stand then the items that stood there before, and `y`.
proof fn lemma_touch_above(stack: Seq<u32>, x: u32, y: u32)
    requires
        stack.no_duplicates(),
        x != y,
        stack.contains(x),
    ensures
        first_index(touch(stack, y), x) < touch(stack, y).len(),
        forall|v: u32|
            occurs_after(touch(stack, y), first_index(touch(stack, y), x), v) <==> (occurs_after(
                stack,
                first_index(stack, x),
                v,
            ) || v == y),
{
    lemma_first_index_is_first(stack, x);
    lemma_first_index_is_first(stack, y);
    let p = first_index(stack, x);
    let q = first_index(stack, y);
    let n = stack.len() as int;
    let after = touch(stack, y);
    if q >= n {
        assert(after[p] == x);
        assert forall|r: int| 0 <= r < p implies after[r] != x by {
            assert(after[r] == stack[r]);
        }
        lemma_first_index(after, x, p);
        assert forall|v: u32|
            occurs_after(after, p, v) <==> (occurs_after(stack, p, v) || v == y) by {
            lemma_occurs_after_push(stack, p, y, v);
        }
    } else {
        let to = if q < p { p - 1 } else { p };
        assert(after[to] == x);
        assert forall|r: int| 0 <= r < to implies after[r] != x by {
            let a = if r < q { r } else { r + 1 };
            assert(after[r] == stack[a]);
        }
        lemma_first_index(after, x, to);
        assert forall|v: u32|
            occurs_after(after, to, v) <==> (occurs_after(stack, p, v) || v == y) by {
            if occurs_after(after, to, v) {
                let k = choose|k: int| to < k < after.len() && after[k] == v;
                if k < n - 1 {
                    let a = if k < q { k } else { k + 1 };
                    assert(stack[a] == v);
                    assert(p < a < n);
                }
            }
            if occurs_after(stack, p, v) && v != y {
                let a = choose|a: int| p < a < n && stack[a] == v;
                let k = if a < q { a } else { a - 1 };
                assert(after[k] == v);
                assert(to < k < after.len());
            }
            if v == y {
                assert(after[n - 1] == v);
                assert(to < n - 1);
            }
        }
    }
}

/// The recency stack holds the items in the order of their last accesses:
/// above `x` stand the items that were accessed after the last access to `x`.
pub proof fn lemma_recency_order(s: Seq<u32>, x: u32)
    ensures
        first_index(recency(s), x) < recency(s).len() <==> last_access(s, x) >= 0,
        forall|v: u32|
            last_access(s, x) >= 0 ==> (occurs_after(recency(s), first_index(recency(s), x), v)
                <==> occurs_after(s, last_access(s, x), v)),
    decreases s.len(),
{
    lemma_recency_shape(s);
    lemma_last_access(s, x);
    lemma_first_index_is_first(recency(s), x);
    if s.len() > 0 {
        let before = s.drop_last();
        let y = s.last();
        let stack = recency(before);
        let after = recency(s);
        lemma_recency_shape(before);
        lemma_last_access(before, x);
        lemma_first_index_is_first(stack, x);
        if x == y {
            let top = after.len() - 1;
            assert forall|r: int| 0 <= r < top implies after[r] != x by {
                assert(after[top] == x);
            }
            lemma_first_index(after, x, top);
        } else if last_access(s, x) >= 0 {
            lemma_recency_order(before, x);
            lemma_touch_above(stack, x, y);
            assert(before.push(y) =~= s);
            assert forall|v: u32|
                occurs_after(after, first_index(after, x), v) <==> occurs_after(
                    s,
                    last_access(s, x),
                    v,
                ) by {
                lemma_occurs_after_push(before, last_access(before, x), y, v);
            }
        }
    }
}

/// The stack distance of an access is the number of distinct items that
/// were accessed strictly between it and the last access to the same item
/// before it, and infinite where there is no such access.
pub proof fn lemma_distance_counts_distinct(s: Seq<u32>, i: int)
    requires
        0 <= i < s.len(),
        s.len() <= usize::MAX,
    ensures
        distances(s)[i] == distance_by_count(s, i),
        distance_by_count(s, i) is Some ==> distinct_between(s, last_access(s.take(i), s[i]), i)
            < i,
{
    let t = s.take(i);
    let x = s[i];
    let stack = recency(t);
    let p = first_index(stack, x);
    let j = last_access(t, x);
    lemma_recency_order(t, x);
    lemma_recency_shape(t);
    lemma_last_access(t, x);
    lemma_first_index_is_first(stack, x);
    if j >= 0 {
        let above = stack.subrange(p + 1, stack.len() as int);
        let between = s.subrange(j + 1, i);
        assert forall|a: int, b: int|
            0 <= a < above.len() && 0 <= b < above.len() && a != b implies above[a] != above[b] by {
            assert(above[a] == stack[p + 1 + a] && above[b] == stack[p + 1 + b]);
        }
        above.unique_seq_to_set();
        assert forall|v: u32| above.to_set().contains(v) <==> between.to_set().contains(v) by {
            if above.contains(v) {
                let a = choose|a: int| 0 <= a < above.len() && above[a] == v;
                assert(stack[p + 1 + a] == v);
                assert(occurs_after(stack, p, v));
                assert(occurs_after(t, j, v));
                let m = choose|m: int| j < m < t.len() && t[m] == v;
                assert(between[m - j - 1] == v);
            }
            if between.contains(v) {
                let b = choose|b: int| 0 <= b < between.len() && between[b] == v;
                assert(t[j + 1 + b] == v);
                assert(occurs_after(t, j, v));
                assert(occurs_after(stack, p, v));
                let k = choose|k: int| p < k < stack.len() && stack[k] == v;
                assert(above[k - p - 1] == v);
            }
        }
        assert(above.to_set() =~= between.to_set());
    }
}

/// The items of a sequence of accesses, without their costs.
pub open spec fn accessed(accesses: Seq<(u32, u64)>) -> Seq<u32> {
    Seq::new(accesses.len(), |i: int| accesses[i].0)
}

/// Every state that a cache reaches is valid, and holds only items that were
/// accessed or were resident at the start.
pub proof fn lemma_run_valid(c: CacheView, accesses: Seq<(u32, u64)>)
    requires
        valid(c),
    ensures
        valid(run(c, accesses)),
        run(c, accesses).capacity == c.capacity,
        run(c, accesses).policy == c.policy,
        forall|y: u32| #[trigger]
            items(run(c, accesses).entries).contains(y) ==> items(c.entries).contains(y)
                || accessed(accesses).contains(y),
    decreases accesses.len(),
{
    if accesses.len() > 0 {
        let before = accesses.drop_last();
        let item = accesses.last().0;
        lemma_run_valid(c, before);
        lemma_step_items(run(c, before), item, accesses.last().1);
        assert forall|y: u32| #[trigger]
            items(run(c, accesses).entries).contains(y) implies items(c.entries).contains(y)
            || accessed(accesses).contains(y) by {
            if y == item {
                assert(accessed(accesses)[accesses.len() - 1] == y);
            } else {
                assert(items(run(c, before).entries).contains(y));
                if accessed(before).contains(y) {
                    let i = choose|i: int| 0 <= i < before.len() && accessed(before)[i] == y;
                    assert(accessed(accesses)[i] == y);
                }
            }
        }
    }
}

/// Where the capacity is at least the number of distinct items of the
/// accesses, a cache that starts empty evicts nothing, whatever its policy.
pub proof fn lemma_no_eviction_when_all_fits(c: CacheView, accesses: Seq<(u32, u64)>)
    requires
        valid(c),
        c.entries.len() == 0,
        accessed(accesses).to_set().len() <= c.capacity,
    ensures
        evictions(c, accesses) == 0,
    decreases accesses.len(),
{
    broadcast use vstd::seq_lib::seq_to_set_is_finite;

    if accesses.len() > 0 {
        let before = accesses.drop_last();
        let item = accesses.last().0;
        let cost = accesses.last().1;
        let all = accessed(accesses).to_set();
        assert(accessed(accesses)[accesses.len() - 1] == item);
        assert(all.contains(item));
        assert forall|y: u32| accessed(before).to_set().contains(y) implies all.contains(y) by {
            let i = choose|i: int| 0 <= i < before.len() && accessed(before)[i] == y;
            assert(accessed(accesses)[i] == y);
        }
        vstd::set_lib::lemma_len_subset(accessed(before).to_set(), all);
        lemma_no_eviction_when_all_fits(c, before);
        let now = run(c, before);
        lemma_run_valid(c, before);
        lemma_step_items(now, item, cost);
        if step(now, item, cost).1.evicted is Some {
            if now.capacity == 0 {
                assert(all.len() == 0);
                assert(all =~= Set::<u32>::empty());
            } else {
                let held = items(now.entries);
                let with_item = held.push(item);
                assert forall|i: int, j: int|
                    0 <= i < with_item.len() && 0 <= j < with_item.len() && i != j implies with_item[i]
                    != with_item[j] by {
                    if i < held.len() {
                        assert(held.contains(with_item[i]));
                    }
                    if j < held.len() {
                        assert(held.contains(with_item[j]));
                    }
                }
                assert forall|y: u32| with_item.to_set().contains(y) implies all.contains(y) by {
                    let i = choose|i: int| 0 <= i < with_item.len() && with_item[i] == y;
                    if i < held.len() {
                        assert(held.contains(y));
                        assert(items(now.entries).contains(y));
                        assert(!items(c.entries).contains(y));
                        let k = choose|k: int| 0 <= k < before.len() && accessed(before)[k] == y;
                        assert(accessed(accesses)[k] == y);
                    }
                }
                with_item.unique_seq_to_set();
                vstd::set_lib::lemma_len_subset(with_item.to_set(), all);
                assert(false);
            }
        }
    }
}

/// With capacity 0 an access is a miss, and no item is resident after it.
pub proof fn lemma_capacity_zero_step(c: CacheView, item: u32, cost: u64)
    requires
        valid(c),
        c.capacity == 0,
    ensures
        !step(c, item, cost).1.hit,
        step(c, item, cost).0.entries.len() == 0,
{
    lemma_step_items(c, item, cost);
    crate::model::lemma_first_index_is_first(items(c.entries), item);
}

/// With capacity 0 no access of a run is a hit, and no item is resident at
/// its end.
pub proof fn lemma_capacity_zero_run(c: CacheView, accesses: Seq<(u32, u64)>)
    requires
        valid(c),
        c.capacity == 0,
    ensures
        hits(c, accesses) == 0,
        run(c, accesses).entries.len() == 0,
    decreases accesses.len(),
{
    if accesses.len() > 0 {
        let before = accesses.drop_last();
        lemma_capacity_zero_run(c, before);
        lemma_run_valid(c, before);
        lemma_capacity_zero_step(run(c, before), accesses.last().0, accesses.last().1);
    }
}

/// Under `Landlord` the credit of every resident item is at most its cost,
/// after every access, an eviction included. (It is never negative: it is an
/// unsigned number, and the credit that every item pays at an eviction is
/// the least of all.)
pub proof fn lemma_landlord_credit(c: CacheView, item: u32, cost: u64)
    requires
        valid(c),
        c.policy == Policy::Landlord,
    ensures
        forall|i: int|
            0 <= i < step(c, item, cost).0.entries.len() ==> 0 <= (#[trigger] step(
                c,
                item,
                cost,
            ).0.entries[i]).weight <= step(c, item, cost).0.entries[i].cost,
{
    lemma_step_items(c, item, cost);
}

/// The last `capacity` items of a recency stack, or all of a shorter one.
pub open spec fn most_recent(stack: Seq<u32>, capacity: u64) -> Seq<u32> {
    if stack.len() <= capacity {
        stack
    } else {
        stack.subrange(stack.len() - capacity, stack.len() as int)
    }
}

/// Under `Lru` a cache that starts empty holds the most recent items of the
/// recency stack of the accesses, as many as its capacity allows, in the
/// stack's order.
pub proof fn lemma_lru_resident(c: CacheView, accesses: Seq<(u32, u64)>)
    requires
        valid(c),
        c.policy == Policy::Lru,
        c.entries.len() == 0,
    ensures
        items(run(c, accesses).entries) == most_recent(recency(accessed(accesses)), c.capacity),
    decreases accesses.len(),
{
    if accesses.len() == 0 {
        assert(items(c.entries) =~= Seq::<u32>::empty());
    } else {
        let before = accesses.drop_last();
        let x = accesses.last().0;
        let now = run(c, before);
        lemma_lru_resident(c, before);
        lemma_run_valid(c, before);
        assert(accessed(accesses).drop_last() =~= accessed(before));
        assert(accessed(accesses).last() == x);
        let stack = recency(accessed(before));
        let held = items(now.entries);
        lemma_recency_shape(accessed(before));
        lemma_lru_window(stack, c.capacity, x);
        let n = stack.len() as int;
        let lo = if n <= c.capacity { 0 } else { n - c.capacity };
        let p = first_index(stack, x);
        let next = step(now, x, accesses.last().1).0;
        let goal = most_recent(touch(stack, x), c.capacity);
        lemma_first_index_is_first(stack, x);
        lemma_first_index_is_first(held, x);
        let after = items(next.entries);
        let moved = touch(stack, x);
        if lo <= p < n {
            let q = p - lo;
            assert(moved.len() == n);
            assert(after.len() == goal.len());
            assert forall|e: int| 0 <= e < goal.len() implies after[e] == goal[e] by {
                assert(goal[e] == moved[lo + e]);
                if e < q {
                    assert(held[e] == stack[lo + e]);
                } else if e < held.len() - 1 {
                    assert(held[e + 1] == stack[lo + e + 1]);
                }
            }
            assert(after =~= goal);
        } else if c.capacity == 0 {
            assert(after =~= goal);
        } else if held.len() < c.capacity {
            assert(after =~= goal);
        } else {
            assert(victim(now.policy, now.entries, now.seed) == 0);
            assert(after.len() == goal.len());
            let from = moved.len() - c.capacity;
            assert forall|e: int| 0 <= e < goal.len() implies after[e] == goal[e] by {
                assert(goal[e] == moved[from + e]);
                if e < held.len() - 1 {
                    assert(held[e + 1] == stack[lo + e + 1]);
                }
            }
            assert(after =~= goal);
        }
    }
}

/// Where an item stands in the window of the most recent items of a recency
/// stack: at its place in the stack, counted from the start of the window,
/// if that lies in the window, and nowhere otherwise.
proof fn lemma_lru_window(stack: Seq<u32>, capacity: u64, x: u32)
    requires
        stack.no_duplicates(),
    ensures
        ({
            let n = stack.len() as int;
            let lo = if n <= capacity { 0 } else { n - capacity };
            let p = first_index(stack, x);
            let q = first_index(most_recent(stack, capacity), x);
            if lo <= p < n {
                q == p - lo
            } else {
                q == most_recent(stack, capacity).len()
            }
        }),
{
    let n = stack.len() as int;
    let lo = if n <= capacity { 0 } else { n - capacity };
    let p = first_index(stack, x);
    let window = most_recent(stack, capacity);
    lemma_first_index_is_first(stack, x);
    lemma_first_index_is_first(window, x);
    assert forall|e: int| 0 <= e < window.len() implies window[e] == stack[lo + e] by {}
    if lo <= p < n {
        assert forall|e: int| 0 <= e < p - lo implies window[e] != x by {
            assert(window[e] == stack[lo + e]);
        }
        assert(window[p - lo] == x);
        lemma_first_index(window, x, p - lo);
    } else {
        assert forall|e: int| 0 <= e < window.len() implies window[e] != x by {
            assert(window[e] == stack[lo + e]);
            if p < n {
                assert(stack[p] == x);
            }
        }
        lemma_first_index(window, x, window.len() as int);
    }
}

/// Under `Lru` an access is a hit exactly where its stack distance is
/// smaller than the capacity: the stack distances of a trace tell the hits
/// of a cache of every capacity.
pub proof fn lemma_lru_hits_by_distance(c: CacheView, accesses: Seq<(u32, u64)>, i: int)
    requires
        valid(c),
        c.policy == Policy::Lru,
        c.entries.len() == 0,
        0 <= i < accesses.len() <= usize::MAX,
    ensures
        last_outcome(c, accesses.take(i + 1)).hit <==> (distances(accessed(accesses))[i] is Some
            && distances(accessed(accesses))[i].unwrap() < c.capacity),
{
    let before = accesses.take(i);
    let x = accesses[i].0;
    assert(accesses.take(i + 1).drop_last() =~= before);
    assert(accesses.take(i + 1).last() == accesses[i]);
    assert(accessed(accesses).take(i) =~= accessed(before));
    let stack = recency(accessed(before));
    lemma_lru_resident(c, before);
    lemma_run_valid(c, before);
    lemma_recency_shape(accessed(before));
    lemma_lru_window(stack, c.capacity, x);
    lemma_first_index_is_first(stack, x);
}

} // verus!
