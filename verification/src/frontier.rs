//! The priority frontier of the cost-guided searches: a binary heap of
//! candidates, ordered so that the candidate with the smallest estimated
//! total cost leaves first and, among candidates of one estimate, the one
//! with the largest accumulated cost.
//!
//! Entries are never removed from the middle of the heap. An entry that was
//! overtaken by a cheaper route to its node stays where it is, and the search
//! discards it when it leaves.

use std::cmp::Ordering;
use vstd::multiset::Multiset;
use vstd::prelude::*;

verus! {

/// A candidate of the frontier: the node at `index` of the registry, reached
/// at `cost`, with `estimated_cost` as the estimate of the cost of a whole
/// path through it.
#[derive(Clone, Copy, Debug)]
pub struct SmallestCostHolder {
    pub estimated_cost: u64,
    pub cost: u64,
    pub index: usize,
}

/// `a` leaves the frontier before `b`: its estimate is smaller, or the
/// estimates are equal and its cost is larger.
pub open spec fn outranks(a: SmallestCostHolder, b: SmallestCostHolder) -> bool {
    a.estimated_cost < b.estimated_cost || (a.estimated_cost == b.estimated_cost && a.cost > b.cost)
}

/// `b` does not leave the frontier before `a`.
pub open spec fn ranks_with(a: SmallestCostHolder, b: SmallestCostHolder) -> bool {
    !outranks(b, a)
}

impl SmallestCostHolder {
    /// The order of the heap, in which the greater candidate leaves first:
    /// by estimate, the smaller being the greater candidate, then by cost,
    /// the larger being the greater candidate. The position plays no part.
    pub fn cmp(&self, other: &Self) -> (order: Ordering)
        ensures
            (order == Ordering::Greater) == outranks(*self, *other),
            (order == Ordering::Less) == outranks(*other, *self),
    {
        match other.estimated_cost.cmp(&self.estimated_cost) {
            Ordering::Equal => self.cost.cmp(&other.cost),
            s => s,
        }
    }
}

/// Whether `a` leaves the frontier before `b`.
fn leaves_first(a: &SmallestCostHolder, b: &SmallestCostHolder) -> (first: bool)
    ensures
        first == outranks(*a, *b),
{
    matches!(a.cmp(b), Ordering::Greater)
}

/// The entry at `j` does not leave before the entry above it.
pub open spec fn in_order(s: Seq<SmallestCostHolder>, j: int) -> bool {
    ranks_with(s[(j - 1) / 2], s[j])
}

/// The entry at `j` does not leave before the entry above the entry at `i`.
pub open spec fn in_order_above(s: Seq<SmallestCostHolder>, i: int, j: int) -> bool {
    ranks_with(s[(i - 1) / 2], s[j])
}

/// The heap order: no entry leaves before the entry above it.
pub open spec fn heap_ordered(s: Seq<SmallestCostHolder>) -> bool {
    forall|j: int| 0 < j < s.len() ==> #[trigger] in_order(s, j)
}

/// The heap order but for the entry at `i`, which may leave before the
/// entries above it; the entries below `i` are in order with the entry above
/// `i`.
pub open spec fn ordered_but_up(s: Seq<SmallestCostHolder>, i: int) -> bool {
    &&& forall|j: int| 0 < j < s.len() && j != i ==> #[trigger] in_order(s, j)
    &&& forall|j: int| 0 < j < s.len() && (j - 1) / 2 == i && i > 0 ==> #[trigger] in_order_above(s, i, j)
}

/// The heap order but for the entry at `i`, before which the entries below
/// it may leave; the entries below `i` are in order with the entry above
/// `i`.
pub open spec fn ordered_but_down(s: Seq<SmallestCostHolder>, i: int) -> bool {
    &&& forall|j: int| 0 < j < s.len() && (j - 1) / 2 != i ==> #[trigger] in_order(s, j)
    &&& forall|j: int| 0 < j < s.len() && (j - 1) / 2 == i && i > 0 ==> #[trigger] in_order_above(s, i, j)
}

/// In a heap no entry leaves before the first.
pub proof fn lemma_root_leaves_first(s: Seq<SmallestCostHolder>, j: int)
    requires
        heap_ordered(s),
        0 <= j < s.len(),
    ensures
        ranks_with(s[0], s[j]),
    decreases j,
{
    if j > 0 {
        lemma_root_leaves_first(s, (j - 1) / 2);
        assert(in_order(s, j));
    }
}

/// The sequence with the entries at `i` and `j` exchanged.
pub open spec fn exchanged(s: Seq<SmallestCostHolder>, i: int, j: int) -> Seq<SmallestCostHolder> {
    s.update(i, s[j]).update(j, s[i])
}

/// A heap with one more entry at its end is in order but for that entry.
pub proof fn lemma_order_after_push(s: Seq<SmallestCostHolder>, entry: SmallestCostHolder)
    requires
        heap_ordered(s),
    ensures
        ordered_but_up(s.push(entry), s.len() as int),
{
    let t = s.push(entry);
    let i = s.len() as int;
    assert forall|j: int| 0 < j < t.len() && j != i implies #[trigger] in_order(t, j) by {
        assert(in_order(s, j));
    }
}

/// Moving an entry that leaves before the entry above it one level up
/// leaves the heap in order but for the entry at its new place.
pub proof fn lemma_order_after_rise(s: Seq<SmallestCostHolder>, i: int)
    requires
        ordered_but_up(s, i),
        0 < i < s.len(),
        outranks(s[i], s[(i - 1) / 2]),
    ensures
        ordered_but_up(exchanged(s, i, (i - 1) / 2), (i - 1) / 2),
{
    let p = (i - 1) / 2;
    let t = exchanged(s, i, p);
    assert forall|j: int| 0 < j < t.len() && j != p implies #[trigger] in_order(t, j) by {
        if j == i {
        } else if (j - 1) / 2 == i {
            assert(in_order_above(s, i, j));
        } else if (j - 1) / 2 == p {
            assert(in_order(s, j));
        } else {
            assert(in_order(s, j));
        }
    }
    assert forall|j: int| 0 < j < t.len() && (j - 1) / 2 == p && p > 0 implies #[trigger] in_order_above(
        t,
        p,
        j,
    ) by {
        assert(in_order(s, p));
        if j != i {
            assert(in_order(s, j));
        }
    }
}

/// A heap that is in order but for one entry, which does not leave before
/// the entry above it, is in order.
pub proof fn lemma_order_risen(s: Seq<SmallestCostHolder>, i: int)
    requires
        ordered_but_up(s, i),
        0 <= i < s.len(),
        i == 0 || ranks_with(s[(i - 1) / 2], s[i]),
    ensures
        heap_ordered(s),
{
    assert forall|j: int| 0 < j < s.len() implies #[trigger] in_order(s, j) by {
        if j != i {
            assert(in_order(s, j));
        }
    }
}

/// A heap whose first entry was replaced by its last is in order but for the
/// first entry.
pub proof fn lemma_order_after_pop(s: Seq<SmallestCostHolder>)
    requires
        heap_ordered(s),
        s.len() >= 2,
    ensures
        ordered_but_down(s.drop_last().update(0, s.last()), 0),
{
    let t = s.drop_last().update(0, s.last());
    assert forall|j: int| 0 < j < t.len() && (j - 1) / 2 != 0 implies #[trigger] in_order(t, j) by {
        assert(in_order(s, j));
    }
}

/// Moving an entry one level down, in exchange for the entry below it that
/// leaves first, leaves the heap in order but for the entry at its new
/// place.
pub proof fn lemma_order_after_sink(s: Seq<SmallestCostHolder>, i: int, below: int)
    requires
        ordered_but_down(s, i),
        0 <= i < s.len(),
        0 < below < s.len(),
        (below - 1) / 2 == i,
        outranks(s[below], s[i]),
        forall|j: int| 0 < j < s.len() && (j - 1) / 2 == i ==> ranks_with(s[below], #[trigger] s[j]),
    ensures
        ordered_but_down(exchanged(s, i, below), below),
{
    let t = exchanged(s, i, below);
    assert forall|j: int| 0 < j < t.len() && (j - 1) / 2 != below
        implies #[trigger] in_order(t, j) by {
        if j == i {
            assert(in_order_above(s, i, below));
        } else if (j - 1) / 2 == i {
            assert(ranks_with(s[below], s[j]));
        } else {
            assert(in_order(s, j));
        }
    }
    assert forall|j: int| 0 < j < t.len() && (j - 1) / 2 == below && below > 0 implies #[trigger] in_order_above(
        t,
        below,
        j,
    ) by {
        assert(in_order(s, j));
    }
}

/// A heap that is in order but for one entry, before which none of the
/// entries below it leaves, is in order.
pub proof fn lemma_order_sunk(s: Seq<SmallestCostHolder>, i: int)
    requires
        ordered_but_down(s, i),
        0 <= i,
        forall|j: int| 0 < j < s.len() && (j - 1) / 2 == i ==> ranks_with(s[i], #[trigger] s[j]),
    ensures
        heap_ordered(s),
{
    assert forall|j: int| 0 < j < s.len() implies #[trigger] in_order(s, j) by {
        if (j - 1) / 2 == i {
            assert(ranks_with(s[i], s[j]));
        } else {
            assert(in_order(s, j));
        }
    }
}

/// Exchanges two entries. The entries held stay the same.
fn exchange(heap: &mut Vec<SmallestCostHolder>, i: usize, j: usize)
    requires
        i < old(heap).len(),
        j < old(heap).len(),
    ensures
        final(heap)@ == exchanged(old(heap)@, i as int, j as int),
        final(heap)@.to_multiset() == old(heap)@.to_multiset(),
{
    let a = heap[i];
    let b = heap[j];
    heap.set(i, b);
    heap.set(j, a);
    proof {
        broadcast use vstd::seq_lib::to_multiset_update;
        broadcast use vstd::seq_lib::group_to_multiset_ensures;
        broadcast use vstd::multiset::group_multiset_axioms;

        let s0 = old(heap)@;
        let s1 = s0.update(i as int, b);
        assert(s0[i as int] == a && s0[j as int] == b);
        assert(s0.contains(a) && s0.contains(b));
        assert(s0.to_multiset().count(a) > 0 && s0.to_multiset().count(b) > 0);
        assert(s1[j as int] == b);
        assert(s1.to_multiset() == s0.to_multiset().insert(b).remove(a));
        assert(heap@ == s1.update(j as int, a));
        assert(heap@.to_multiset() == s1.to_multiset().insert(a).remove(s1[j as int]));
        assert(heap@.to_multiset() =~= s0.to_multiset());
    }
}

/// The candidates that wait to be expanded.
pub struct Frontier {
    heap: Vec<SmallestCostHolder>,
}

impl Frontier {
    /// The candidates held, each as often as it was pushed and has not left.
    pub closed spec fn view(&self) -> Multiset<SmallestCostHolder> {
        self.heap@.to_multiset()
    }

    /// The entries are in heap order.
    pub closed spec fn wf(&self) -> bool {
        heap_ordered(self.heap@)
    }

    /// A frontier without candidates.
    pub fn new() -> (frontier: Self)
        ensures
            frontier.wf(),
            frontier@ == Multiset::<SmallestCostHolder>::empty(),
    {
        let frontier = Frontier { heap: Vec::new() };
        proof {
            broadcast use vstd::seq_lib::group_to_multiset_ensures;

            assert(frontier.heap@.to_multiset() =~= Multiset::<SmallestCostHolder>::empty());
        }
        frontier
    }

    /// The number of candidates held.
    pub fn len(&self) -> (n: usize)
        ensures
            n == self@.len(),
    {
        proof {
            broadcast use vstd::seq_lib::group_to_multiset_ensures;

        }
        self.heap.len()
    }

    /// Adds a candidate.
    pub fn push(&mut self, entry: SmallestCostHolder)
        requires
            old(self).wf(),
        ensures
            final(self).wf(),
            final(self)@ == old(self)@.insert(entry),
    {
        self.heap.push(entry);
        proof {
            broadcast use vstd::seq_lib::group_to_multiset_ensures;

            assert(self.heap@ == old(self).heap@.push(entry));
            assert(self.heap@.to_multiset() == old(self).heap@.to_multiset().insert(entry));
            lemma_order_after_push(old(self).heap@, entry);
        }
        let mut i: usize = self.heap.len() - 1;
        let ghost held = self.heap@.to_multiset();
        while i > 0
            invariant
                i < self.heap.len(),
                self.heap@.to_multiset() == held,
                ordered_but_up(self.heap@, i as int),
            ensures
                i < self.heap.len(),
                i > 0 ==> heap_ordered(self.heap@),
                i == 0 ==> ordered_but_up(self.heap@, 0),
                self.heap@.to_multiset() == held,
            decreases i,
        {
            let above = (i - 1) / 2;
            if !leaves_first(&self.heap[i], &self.heap[above]) {
                proof {
                    lemma_order_risen(self.heap@, i as int);
                }
                break ;
            }
            proof {
                lemma_order_after_rise(self.heap@, i as int);
            }
            exchange(&mut self.heap, i, above);
            i = above;
        }
        proof {
            if i == 0 {
                lemma_order_risen(self.heap@, 0);
            }
        }
    }

    /// Takes out a candidate that leaves first: one with the smallest
    /// estimate and, among those, with the largest cost. `None` when no
    /// candidate is held.
    pub fn pop(&mut self) -> (first: Option<SmallestCostHolder>)
        requires
            old(self).wf(),
        ensures
            final(self).wf(),
            match first {
                None => old(self)@.len() == 0 && final(self)@ == old(self)@,
                Some(entry) => {
                    &&& old(self)@.count(entry) > 0
                    &&& final(self)@ == old(self)@.remove(entry)
                    &&& forall|other: SmallestCostHolder|
                        old(self)@.count(other) > 0 ==> #[trigger] ranks_with(entry, other)
                },
            },
    {
        let ghost before = self.heap@;
        proof {
            broadcast use vstd::seq_lib::group_to_multiset_ensures;

        }
        let last = match self.heap.pop() {
            Some(last) => last,
            None => {
                return None;
            },
        };
        let n = self.heap.len();
        let first = if n == 0 {
            last
        } else {
            let first = self.heap[0];
            self.heap.set(0, last);
            first
        };
        proof {
            broadcast use vstd::seq_lib::group_to_multiset_ensures;
            broadcast use vstd::seq_lib::to_multiset_update;
            broadcast use vstd::multiset::group_multiset_axioms;

            let short = before.drop_last();
            assert(short == before.remove(before.len() - 1));
            assert(short.to_multiset() == before.to_multiset().remove(last));
            assert(first == before[0]);
            assert(before.to_multiset().count(first) > 0);
            if n > 0 {
                assert(self.heap@ == short.update(0, last));
                assert(self.heap@.to_multiset() == short.to_multiset().insert(last).remove(first));
            }
            assert(self.heap@.to_multiset() =~= before.to_multiset().remove(first));
            assert forall|other: SmallestCostHolder| before.to_multiset().count(other) > 0 implies #[trigger] ranks_with(
                first,
                other,
            ) by {
                assert(before.contains(other));
                let j = choose|j: int| 0 <= j < before.len() && before[j] == other;
                lemma_root_leaves_first(before, j);
            }
            if n > 0 {
                lemma_order_after_pop(before);
            }
        }
        let ghost held = self.heap@.to_multiset();
        let mut i: usize = 0;
        while i < n / 2
            invariant
                n == self.heap.len(),
                self.heap@.to_multiset() == held,
                n > 0 ==> ordered_but_down(self.heap@, i as int),
            ensures
                n == self.heap.len(),
                i < n / 2 ==> heap_ordered(self.heap@),
                i >= n / 2 && n > 0 ==> ordered_but_down(self.heap@, i as int),
                self.heap@.to_multiset() == held,
            decreases n - i,
        {
            let left = 2 * i + 1;
            let right = left + 1;
            let below = if right < n && leaves_first(&self.heap[right], &self.heap[left]) {
                right
            } else {
                left
            };
            proof {
                let s = self.heap@;
                assert forall|j: int| 0 < j < s.len() && (j - 1) / 2 == i implies ranks_with(
                    s[below as int],
                    #[trigger] s[j],
                ) by {
                    assert(j == left || j == right);
                }
            }
            if !leaves_first(&self.heap[below], &self.heap[i]) {
                proof {
                    let s = self.heap@;
                    assert forall|j: int| 0 < j < s.len() && (j - 1) / 2 == i implies ranks_with(
                        s[i as int],
                        #[trigger] s[j],
                    ) by {
                        assert(j == left || j == right);
                        assert(ranks_with(s[below as int], s[j]));
                    }
                    lemma_order_sunk(s, i as int);
                }
                break ;
            }
            proof {
                lemma_order_after_sink(self.heap@, i as int, below as int);
            }
            exchange(&mut self.heap, i, below);
            i = below;
        }
        proof {
            let s = self.heap@;
            if n == 0 {
                assert(heap_ordered(s));
            } else if i >= n / 2 {
                assert forall|j: int| 0 < j < s.len() && (j - 1) / 2 == i implies ranks_with(
                    s[i as int],
                    #[trigger] s[j],
                ) by {}
                lemma_order_sunk(s, i as int);
            }
        }
        Some(first)
    }
}

} // verus!
