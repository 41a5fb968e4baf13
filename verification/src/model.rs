//! The mathematical model of a trace and of what is derived from it.

use vstd::prelude::*;

verus! {

/// How many positions of `s` hold `x`.
pub open spec fn count<T>(s: Seq<T>, x: T) -> nat
    decreases s.len(),
{
    if s.len() == 0 {
        0
    } else {
        count(s.drop_last(), x) + if s.last() == x {
            1nat
        } else {
            0nat
        }
    }
}

/// The frequency table of a trace: every item that occurs, with its number of
/// occurrences.
pub open spec fn frequencies(s: Seq<u32>) -> Map<u32, usize> {
    Map::new(|k: u32| s.contains(k), |k: u32| count(s, k) as usize)
}

/// The sum of all the counts in a finite table.
pub open spec fn total(m: Map<u32, usize>) -> nat
    decreases m.dom().len(),
    when m.dom().finite()
{
    if m.dom().len() == 0 {
        0
    } else {
        let k = m.dom().choose();
        m[k] as nat + total(m.remove(k))
    }
}

/// The index of the first position of `stack` that holds `x`, or the length
/// of `stack` where none does.
pub open spec fn first_index(stack: Seq<u32>, x: u32) -> int
    decreases stack.len(),
{
    if stack.len() == 0 {
        0
    } else if stack[0] == x {
        0
    } else {
        1 + first_index(stack.drop_first(), x)
    }
}

/// The recency stack after one more access to `x`: `x` leaves its place, if
/// it has one, and becomes the most recent item, which is the last.
pub open spec fn touch(stack: Seq<u32>, x: u32) -> Seq<u32> {
    let p = first_index(stack, x);
    if p < stack.len() {
        stack.remove(p).push(x)
    } else {
        stack.push(x)
    }
}

/// The recency stack after all the accesses of `s`, least recent item first.
pub open spec fn recency(s: Seq<u32>) -> Seq<u32>
    decreases s.len(),
{
    if s.len() == 0 {
        Seq::empty()
    } else {
        touch(recency(s.drop_last()), s.last())
    }
}

/// The depth of `x` in a recency stack, counted from the most recent item
/// (depth 0); `None`, which stands for infinity, where the stack lacks `x`.
pub open spec fn depth(stack: Seq<u32>, x: u32) -> Option<usize> {
    let p = first_index(stack, x);
    if p < stack.len() {
        Some((stack.len() - p - 1) as usize)
    } else {
        None
    }
}

/// The stack distance of the access at position `i` of `s`.
pub open spec fn distance_at(s: Seq<u32>, i: int) -> Option<usize> {
    depth(recency(s.take(i)), s[i])
}

/// The stack distances of all the accesses of `s`.
pub open spec fn distances(s: Seq<u32>) -> Seq<Option<usize>> {
    Seq::new(s.len(), |i: int| distance_at(s, i))
}

/// The position of the last access to `x` in `s`, or -1 where there is none.
pub open spec fn last_access(s: Seq<u32>, x: u32) -> int
    decreases s.len(),
{
    if s.len() == 0 {
        -1
    } else if s.last() == x {
        s.len() - 1
    } else {
        last_access(s.drop_last(), x)
    }
}

/// The number of distinct items that are accessed strictly between the
/// positions `from` and `to` of `s`.
pub open spec fn distinct_between(s: Seq<u32>, from: int, to: int) -> nat {
    s.subrange(from + 1, to).to_set().len()
}

/// The stack distance of the access at position `i` of `s`, by counting: the
/// number of distinct items accessed strictly between that access and the
/// last one before it to the same item; `None`, which stands for infinity,
/// where there is no such access.
pub open spec fn distance_by_count(s: Seq<u32>, i: int) -> Option<usize> {
    let j = last_access(s.take(i), s[i]);
    if j < 0 {
        None
    } else {
        Some(distinct_between(s, j, i) as usize)
    }
}

/// Whether `v` stands at a position of `s` after `from`.
pub open spec fn occurs_after(s: Seq<u32>, from: int, v: u32) -> bool {
    exists|k: int| from < k < s.len() && s[k] == v
}

/// No position holds a count larger than the sequence is long.
pub proof fn lemma_count_bound<T>(s: Seq<T>, x: T)
    ensures
        count(s, x) <= s.len(),
    decreases s.len(),
{
    if s.len() > 0 {
        lemma_count_bound(s.drop_last(), x);
    }
}

/// An item has a positive count exactly where the sequence holds it.
pub proof fn lemma_count_positive<T>(s: Seq<T>, x: T)
    ensures
        count(s, x) > 0 <==> s.contains(x),
    decreases s.len(),
{
    if s.len() > 0 {
        lemma_count_positive(s.drop_last(), x);
        if s.last() == x {
            assert(s[s.len() - 1] == x);
        } else if s.contains(x) {
            let i = choose|i: int| 0 <= i < s.len() && s[i] == x;
            assert(s.drop_last()[i] == x);
        } else if s.drop_last().contains(x) {
            let i = choose|i: int| 0 <= i < s.drop_last().len() && s.drop_last()[i] == x;
            assert(s[i] == x);
        }
    }
}

/// Counting in a prefix that grows by one position.
pub proof fn lemma_count_step<T>(s: Seq<T>, i: int, x: T)
    requires
        0 <= i < s.len(),
    ensures
        count(s.take(i + 1), x) == count(s.take(i), x) + if s[i] == x {
            1nat
        } else {
            0nat
        },
{
    assert(s.take(i + 1).drop_last() =~= s.take(i));
}

/// The frequency table of a sequence that grows by one item.
pub proof fn lemma_frequencies_push(s: Seq<u32>, x: u32)
    ensures
        frequencies(s.push(x)) == frequencies(s).insert(x, (count(s, x) + 1) as usize),
        frequencies(s).dom().contains(x) <==> count(s, x) > 0,
        count(s, x) <= s.len(),
{
    let after = s.push(x);
    assert(after.drop_last() =~= s);
    lemma_count_bound(s, x);
    lemma_count_positive(s, x);
    assert forall|k: u32| after.contains(k) <==> (s.contains(k) || k == x) by {
        lemma_count_positive(after, k);
        lemma_count_positive(s, k);
    }
    assert(frequencies(after) =~= frequencies(s).insert(x, (count(s, x) + 1) as usize));
}

/// What `first_index` finds: `p` is it, where nothing before `p` is `x` and
/// `p` is the end or holds `x`.
pub proof fn lemma_first_index(stack: Seq<u32>, x: u32, p: int)
    requires
        0 <= p <= stack.len(),
        forall|q: int| 0 <= q < p ==> stack[q] != x,
        p < stack.len() ==> stack[p] == x,
    ensures
        first_index(stack, x) == p,
    decreases stack.len(),
{
    if stack.len() > 0 && p > 0 {
        assert(stack[0] != x);
        let rest = stack.drop_first();
        assert forall|q: int| 0 <= q < p - 1 implies rest[q] != x by {
            assert(rest[q] == stack[q + 1]);
        }
        lemma_first_index(rest, x, p - 1);
    }
}

/// `first_index` is a position that holds `x` and none before it does, or it
/// is the length and no position holds `x`.
pub proof fn lemma_first_index_is_first(stack: Seq<u32>, x: u32)
    ensures
        0 <= first_index(stack, x) <= stack.len(),
        first_index(stack, x) < stack.len() ==> stack[first_index(stack, x)] == x,
        forall|q: int| 0 <= q < first_index(stack, x) ==> stack[q] != x,
        first_index(stack, x) < stack.len() <==> stack.contains(x),
    decreases stack.len(),
{
    if stack.len() > 0 && stack[0] != x {
        let rest = stack.drop_first();
        lemma_first_index_is_first(rest, x);
        let p = first_index(rest, x);
        assert forall|q: int| 0 <= q < p + 1 implies stack[q] != x by {
            if q > 0 {
                assert(rest[q - 1] == stack[q]);
            }
        }
        if p < rest.len() {
            assert(stack[p + 1] == rest[p]);
        }
        if stack.contains(x) {
            let i = choose|i: int| 0 <= i < stack.len() && stack[i] == x;
            assert(rest[i - 1] == x);
        }
    } else if stack.len() > 0 {
        assert(stack[0] == x);
    }
}

} // verus!
