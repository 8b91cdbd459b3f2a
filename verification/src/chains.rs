//! Chains of parents: the paths that the parent lists of an
//! all-cheapest-paths search hold, and the order in which a stack of choice
//! lists walks through them.
//!
//! A table gives each position the list of its parents. A chain is a
//! sequence of positions that begins at a position without parents and in
//! which each position is a parent of the next. All the chains to a position
//! are put in one order: those through the last parent first.

use vstd::prelude::*;

verus! {

/// Each chain of `chains`, continued by `tail`.
pub open spec fn ext(chains: Seq<Seq<int>>, tail: Seq<int>) -> Seq<Seq<int>> {
    Seq::new(chains.len(), |k: int| chains[k] + tail)
}

/// All the chains to position `i`, those through the last parent first.
pub open spec fn chains_to(table: Seq<Seq<usize>>, rank: Seq<nat>, i: int) -> Seq<Seq<int>>
    decreases rank[i] + 1, 0nat,
{
    if table[i].len() == 0 {
        seq![seq![i]]
    } else {
        ext(chains_via(table, rank, table[i], rank[i]), seq![i])
    }
}

/// All the chains to the positions in `list`, those to the last position
/// first. Positions that do not rank below `bound` are passed over: in a
/// table whose parents rank below their children there are none.
pub open spec fn chains_via(
    table: Seq<Seq<usize>>,
    rank: Seq<nat>,
    list: Seq<usize>,
    bound: nat,
) -> Seq<Seq<int>>
    decreases bound, list.len() + 1,
{
    if list.len() == 0 {
        Seq::empty()
    } else {
        let first = if rank[list.last() as int] < bound {
            chains_to(table, rank, list.last() as int)
        } else {
            Seq::empty()
        };
        first + chains_via(table, rank, list.drop_last(), bound)
    }
}

/// The table is sound: parents are positions of the table, no list names a
/// position twice, and from every sink the ranks fall strictly along the
/// parents. A position of rank 0 is outside of what the sinks lead to, and
/// every rank is below `cap`.
#[verifier::opaque]
pub open spec fn table_wf(table: Seq<Seq<usize>>, rank: Seq<nat>, sinks: Seq<usize>, cap: nat) -> bool {
    &&& rank.len() == table.len()
    &&& table.len() <= usize::MAX
    &&& sinks.no_duplicates()
    &&& forall|k: int| 0 <= k < sinks.len() ==> #[trigger] sinks[k] < table.len() && rank[sinks[k] as int] > 0
    &&& forall|i: int| 0 <= i < table.len() ==> #[trigger] rank[i] < cap
    &&& forall|i: int| 0 <= i < table.len() ==> (#[trigger] table[i]).no_duplicates()
    &&& forall|i: int, j: int|
        0 <= i < table.len() && 0 <= j < table[i].len() ==> (#[trigger] table[i][j]) < table.len()
    &&& forall|i: int, j: int|
        0 <= i < table.len() && 0 <= j < table[i].len() && rank[i] > 0 ==> 0 < rank[(
        #[trigger] table[i][j]) as int] < rank[i]
}

/// The positions chosen on the levels of a stack, the deepest first.
pub open spec fn tail_of(stack: Seq<Seq<usize>>) -> Seq<int>
    decreases stack.len(),
{
    if stack.len() == 0 {
        Seq::empty()
    } else {
        seq![stack.last().last() as int] + tail_of(stack.drop_last())
    }
}

/// The bound for the list on top of `below`: the rank of the position
/// chosen on the level under it, or `cap` for the first level.
pub open spec fn level_bound(rank: Seq<nat>, below: Seq<Seq<usize>>, cap: nat) -> nat {
    if below.len() == 0 {
        cap
    } else {
        rank[below.last().last() as int]
    }
}

/// The list from which the list on top of `below` was taken: the sinks on
/// the first level, and else the parents of the position chosen on the
/// level under it.
pub open spec fn level_source(
    table: Seq<Seq<usize>>,
    sinks: Seq<usize>,
    below: Seq<Seq<usize>>,
) -> Seq<usize> {
    if below.len() == 0 {
        sinks
    } else {
        table[below.last().last() as int]
    }
}

/// The chains that a stack of choice lists still stands for when the chain
/// through the chosen positions has been given out: on each level, the
/// chains through the positions before the chosen one.
pub open spec fn rest_after(
    table: Seq<Seq<usize>>,
    rank: Seq<nat>,
    cap: nat,
    stack: Seq<Seq<usize>>,
) -> Seq<Seq<int>>
    decreases stack.len(),
{
    if stack.len() == 0 {
        Seq::empty()
    } else {
        let below = stack.drop_last();
        ext(chains_via(table, rank, stack.last().drop_last(), level_bound(rank, below, cap)), tail_of(below))
            + rest_after(table, rank, cap, below)
    }
}

/// The chains that a stack of choice lists stands for: the chains through
/// the list on top, continued by the positions chosen under it, and then
/// what is left on the levels under it.
pub open spec fn rest_of(
    table: Seq<Seq<usize>>,
    rank: Seq<nat>,
    cap: nat,
    stack: Seq<Seq<usize>>,
) -> Seq<Seq<int>> {
    if stack.len() == 0 {
        Seq::empty()
    } else {
        let below = stack.drop_last();
        ext(chains_via(table, rank, stack.last(), level_bound(rank, below, cap)), tail_of(below)) + rest_after(
            table,
            rank,
            cap,
            below,
        )
    }
}

/// The list on level `k` of the stack is not empty and is the beginning of
/// the list that it was taken from.
pub open spec fn level_ok(table: Seq<Seq<usize>>, sinks: Seq<usize>, stack: Seq<Seq<usize>>, k: int) -> bool {
    &&& stack[k].len() >= 1
    &&& stack[k].len() <= level_source(table, sinks, stack.take(k)).len()
    &&& stack[k] == level_source(table, sinks, stack.take(k)).take(stack[k].len() as int)
}

/// Each list of the stack is not empty and is the beginning of the list
/// that it was taken from.
#[verifier::opaque]
pub open spec fn stack_wf(table: Seq<Seq<usize>>, sinks: Seq<usize>, stack: Seq<Seq<usize>>) -> bool {
    forall|k: int| 0 <= k < stack.len() ==> #[trigger] level_ok(table, sinks, stack, k)
}

/// The position chosen on top of a sound stack is a position of the table
/// that the sinks lead to, and ranks below the bound of its level.
pub proof fn lemma_top_choice(
    table: Seq<Seq<usize>>,
    rank: Seq<nat>,
    sinks: Seq<usize>,
    cap: nat,
    stack: Seq<Seq<usize>>,
)
    requires
        table_wf(table, rank, sinks, cap),
        stack_wf(table, sinks, stack),
        stack.len() >= 1,
    ensures
        stack.last().len() >= 1,
        stack.last().last() < table.len(),
        0 < rank[stack.last().last() as int] < level_bound(rank, stack.drop_last(), cap),
    decreases stack.len(),
{
    reveal(table_wf);
    reveal(stack_wf);
    let k = stack.len() - 1;
    let below = stack.drop_last();
    assert(stack.take(k) =~= below);
    assert(level_ok(table, sinks, stack, k));
    let source = level_source(table, sinks, below);
    let top = stack[k];
    let at = top.len() - 1;
    assert(top[at] == source.take(top.len() as int)[at]);
    assert(top[at] == source[at]);
    if below.len() == 0 {
        assert(sinks[at] < table.len());
    } else {
        assert forall|j: int| 0 <= j < below.len() implies #[trigger] level_ok(table, sinks, below, j) by {
            assert(level_ok(table, sinks, stack, j));
            assert(below[j] == stack[j]);
            assert(below.take(j) =~= stack.take(j));
        }
        lemma_top_choice(table, rank, sinks, cap, below);
        let s = below.last().last() as int;
        assert(table[s][at] < table.len());
    }
}

/// Continuing the chains of two sequences is continuing each and joining
/// the results.
pub proof fn lemma_ext_add(a: Seq<Seq<int>>, b: Seq<Seq<int>>, tail: Seq<int>)
    ensures
        ext(a + b, tail) =~= ext(a, tail) + ext(b, tail),
{
}

/// Continuing by one tail and then by another is continuing by both.
pub proof fn lemma_ext_twice(a: Seq<Seq<int>>, t1: Seq<int>, t2: Seq<int>)
    ensures
        ext(ext(a, t1), t2) =~= ext(a, t1 + t2),
{
    assert forall|k: int| 0 <= k < a.len()
        implies #[trigger] ext(ext(a, t1), t2)[k] == ext(a, t1 + t2)[k] by {
        assert((a[k] + t1) + t2 =~= a[k] + (t1 + t2));
    }
}

/// Putting the parents of the chosen position on the stack does not change
/// what the stack stands for.
#[verifier::rlimit(50)]
pub proof fn lemma_push_keeps(
    table: Seq<Seq<usize>>,
    rank: Seq<nat>,
    sinks: Seq<usize>,
    cap: nat,
    stack: Seq<Seq<usize>>,
)
    requires
        table_wf(table, rank, sinks, cap),
        stack_wf(table, sinks, stack),
        stack.len() >= 1,
        table[stack.last().last() as int].len() >= 1,
    ensures
        rest_of(table, rank, cap, stack.push(table[stack.last().last() as int])) == rest_of(table, rank, cap, stack),
        stack_wf(table, sinks, stack.push(table[stack.last().last() as int])),
{
    reveal(table_wf);
    reveal(stack_wf);
    lemma_top_choice(table, rank, sinks, cap, stack);
    let s = stack.last().last() as int;
    let parents = table[s];
    let grown = stack.push(parents);
    let below = stack.drop_last();
    let top = stack.last();
    let bound = level_bound(rank, below, cap);
    let tail = tail_of(below);
    assert(grown.drop_last() =~= stack);
    assert(grown.last() == parents);
    let deep = chains_via(table, rank, parents, rank[s]);
    let others = chains_via(table, rank, top.drop_last(), bound);
    assert(chains_to(table, rank, s) == ext(deep, seq![s]));
    assert(chains_via(table, rank, top, bound) == ext(deep, seq![s]) + others);
    lemma_ext_add(ext(deep, seq![s]), others, tail);
    lemma_ext_twice(deep, seq![s], tail);
    assert(tail_of(stack) == seq![s] + tail);
    assert(rest_of(table, rank, cap, grown) =~= rest_of(table, rank, cap, stack));
    assert forall|k: int| 0 <= k < grown.len() implies #[trigger] level_ok(table, sinks, grown, k) by {
        if k < stack.len() {
            assert(level_ok(table, sinks, stack, k));
            assert(grown[k] == stack[k]);
            assert(grown.take(k) =~= stack.take(k));
        } else {
            assert(grown.take(k) =~= stack);
            assert(parents.take(parents.len() as int) =~= parents);
        }
    }
}

/// Putting the sinks on an empty stack gives a stack that stands for all the
/// chains to the sinks.
pub proof fn lemma_push_sinks(table: Seq<Seq<usize>>, rank: Seq<nat>, sinks: Seq<usize>, cap: nat)
    requires
        table_wf(table, rank, sinks, cap),
        sinks.len() >= 1,
    ensures
        rest_of(table, rank, cap, seq![sinks]) == chains_via(table, rank, sinks, cap),
        stack_wf(table, sinks, seq![sinks]),
{
    reveal(table_wf);
    reveal(stack_wf);
    let stack = seq![sinks];
    assert(stack.drop_last() =~= Seq::<Seq<usize>>::empty());
    let all = chains_via(table, rank, sinks, cap);
    assert forall|k: int| 0 <= k < all.len()
        implies #[trigger] ext(all, Seq::<int>::empty())[k] == all[k] by {
        assert(all[k] + Seq::<int>::empty() =~= all[k]);
    }
    assert(ext(all, Seq::<int>::empty()) =~= all);
    assert(rest_of(table, rank, cap, stack) =~= all);
    assert forall|k: int| 0 <= k < stack.len() implies #[trigger] level_ok(table, sinks, stack, k) by {
        assert(stack.take(0) =~= Seq::<Seq<usize>>::empty());
        assert(sinks.take(sinks.len() as int) =~= sinks);
    }
}

/// When the position chosen on top has no parents, the stack stands for the
/// chain through the chosen positions, and then for what is left after it.
pub proof fn lemma_complete_first(
    table: Seq<Seq<usize>>,
    rank: Seq<nat>,
    sinks: Seq<usize>,
    cap: nat,
    stack: Seq<Seq<usize>>,
)
    requires
        table_wf(table, rank, sinks, cap),
        stack_wf(table, sinks, stack),
        stack.len() >= 1,
        table[stack.last().last() as int].len() == 0,
    ensures
        rest_of(table, rank, cap, stack) == seq![tail_of(stack)] + rest_after(table, rank, cap, stack),
{
    reveal(table_wf);
    reveal(stack_wf);
    lemma_top_choice(table, rank, sinks, cap, stack);
    let s = stack.last().last() as int;
    let below = stack.drop_last();
    let top = stack.last();
    let bound = level_bound(rank, below, cap);
    let tail = tail_of(below);
    let others = chains_via(table, rank, top.drop_last(), bound);
    assert(chains_to(table, rank, s) == seq![seq![s]]);
    assert(chains_via(table, rank, top, bound) == seq![seq![s]] + others);
    lemma_ext_add(seq![seq![s]], others, tail);
    assert(ext(seq![seq![s]], tail) =~= seq![seq![s] + tail]);
    assert(rest_of(table, rank, cap, stack) =~= seq![tail_of(stack)] + rest_after(table, rank, cap, stack));
}

/// A level with one position left stands for nothing once that position
/// has been given out.
pub proof fn lemma_pop_spent(
    table: Seq<Seq<usize>>,
    rank: Seq<nat>,
    sinks: Seq<usize>,
    cap: nat,
    stack: Seq<Seq<usize>>,
)
    requires
        stack_wf(table, sinks, stack),
        stack.len() >= 1,
        stack.last().len() == 1,
    ensures
        rest_after(table, rank, cap, stack) == rest_after(table, rank, cap, stack.drop_last()),
        stack_wf(table, sinks, stack.drop_last()),
{
    reveal(stack_wf);
    let below = stack.drop_last();
    assert(stack.last().drop_last() =~= Seq::<usize>::empty());
    assert(ext(Seq::<Seq<int>>::empty(), tail_of(below)) =~= Seq::<Seq<int>>::empty());
    assert(rest_after(table, rank, cap, stack) =~= rest_after(table, rank, cap, below));
    assert forall|j: int| 0 <= j < below.len() implies #[trigger] level_ok(table, sinks, below, j) by {
        assert(level_ok(table, sinks, stack, j));
        assert(below[j] == stack[j]);
        assert(below.take(j) =~= stack.take(j));
    }
}

/// Dropping the chosen position from a level on which more are left gives
/// the stack that stands for what was left.
pub proof fn lemma_drop_choice(
    table: Seq<Seq<usize>>,
    rank: Seq<nat>,
    sinks: Seq<usize>,
    cap: nat,
    stack: Seq<Seq<usize>>,
)
    requires
        stack_wf(table, sinks, stack),
        stack.len() >= 1,
        stack.last().len() >= 2,
    ensures
        rest_of(table, rank, cap, stack.update(stack.len() - 1, stack.last().drop_last())) == rest_after(
            table,
            rank,
            cap,
            stack,
        ),
        stack_wf(table, sinks, stack.update(stack.len() - 1, stack.last().drop_last())),
{
    reveal(stack_wf);
    let n = stack.len() - 1;
    let next = stack.update(n, stack.last().drop_last());
    assert(next.drop_last() =~= stack.drop_last());
    assert(next.last() == stack.last().drop_last());
    assert forall|k: int| 0 <= k < next.len() implies #[trigger] level_ok(table, sinks, next, k) by {
        assert(next.take(k) =~= stack.take(k));
        assert(level_ok(table, sinks, stack, k));
        if k == n {
            let source = level_source(table, sinks, stack.take(k));
            assert(stack[k] == source.take(stack[k].len() as int));
            assert(next[k] =~= source.take(next[k].len() as int));
        } else {
            assert(next[k] == stack[k]);
        }
    }
}

/// The lower levels of a sound stack are a sound stack.
pub proof fn lemma_stack_take(
    table: Seq<Seq<usize>>,
    sinks: Seq<usize>,
    stack: Seq<Seq<usize>>,
    n: int,
)
    requires
        stack_wf(table, sinks, stack),
        0 <= n <= stack.len(),
    ensures
        stack_wf(table, sinks, stack.take(n)),
{
    reveal(stack_wf);
    let lower = stack.take(n);
    assert forall|j: int| 0 <= j < lower.len() implies #[trigger] level_ok(table, sinks, lower, j) by {
        assert(level_ok(table, sinks, stack, j));
        assert(lower[j] == stack[j]);
        assert(lower.take(j) =~= stack.take(j));
    }
}

/// The chosen positions, read from the top of the stack down.
pub proof fn lemma_tail_reads(stack: Seq<Seq<usize>>, t: int)
    requires
        0 <= t < stack.len() || (t == 0 && stack.len() == 0),
    ensures
        tail_of(stack).len() == stack.len(),
        stack.len() > 0 ==> tail_of(stack)[t] == stack[stack.len() - 1 - t].last() as int,
    decreases stack.len(),
{
    if stack.len() > 0 {
        let below = stack.drop_last();
        if t == 0 {
            lemma_tail_reads(below, 0);
        } else {
            lemma_tail_reads(below, t - 1);
            assert(below[below.len() - 1 - (t - 1)] == stack[stack.len() - 1 - t]);
        }
    }
}

/// The position before `k` in `c` is among the parents of the position at
/// `k`.
pub open spec fn parent_at(table: Seq<Seq<usize>>, c: Seq<int>, k: int) -> bool {
    table[c[k]].contains(c[k - 1] as usize)
}

/// `c` is a chain of the table: it begins at a position without parents,
/// and each of its positions is a parent of the next.
pub open spec fn is_chain(table: Seq<Seq<usize>>, c: Seq<int>) -> bool {
    &&& c.len() >= 1
    &&& forall|k: int| 0 <= k < c.len() ==> 0 <= #[trigger] c[k] < table.len()
    &&& table[c[0]].len() == 0
    &&& forall|k: int| 1 <= k < c.len() ==> #[trigger] parent_at(table, c, k)
}

/// The positions of `list` are positions of the table that the sinks lead
/// to, rank below `bound`, and none comes twice.
pub open spec fn choices(table: Seq<Seq<usize>>, rank: Seq<nat>, list: Seq<usize>, bound: nat) -> bool {
    &&& list.no_duplicates()
    &&& forall|j: int| 0 <= j < list.len() ==> (#[trigger] list[j]) < table.len() && 0 < rank[list[j] as int] < bound
}

/// The parents of a position that the sinks lead to are choices below its
/// rank, and so are the sinks below the ceiling, and any beginning of such a
/// list.
pub proof fn lemma_choices(table: Seq<Seq<usize>>, rank: Seq<nat>, sinks: Seq<usize>,
    cap: nat, i: int)
    requires
        table_wf(table, rank, sinks, cap),
        0 <= i < table.len(),
        rank[i] > 0,
    ensures
        choices(table, rank, table[i], rank[i]),
        choices(table, rank, sinks, cap),
{
    reveal(table_wf);
    assert(table[i].no_duplicates());
    assert forall|j: int| 0 <= j < table[i].len() implies (#[trigger] table[i][j]) < table.len() && 0 < rank[table[i][j] as int]
        < rank[i] by {}
    assert forall|j: int| 0 <= j < sinks.len() implies (#[trigger] sinks[j]) < table.len() && 0 < rank[sinks[j] as int]
        < cap by {
        assert(rank[sinks[j] as int] < cap);
    }
}

/// `all` holds the chains that end in one of `ends`, and holds them right:
/// each of its entries is such a chain, no chain comes twice, and none is
/// missing.
pub open spec fn chains_right(
    table: Seq<Seq<usize>>,
    all: Seq<Seq<int>>,
    ends: Seq<usize>,
) -> bool {
    &&& forall|k: int| 0 <= k < all.len() ==> is_chain(table, #[trigger] all[k]) && ends.contains(all[k].last() as usize)
    &&& all.no_duplicates()
    &&& forall|c: Seq<int>| #[trigger] is_chain(table, c) && ends.contains(c.last() as usize) ==> all.contains(c)
}

/// The chains to a position are right.
#[verifier::rlimit(50)]
pub proof fn lemma_chains_to_right(
    table: Seq<Seq<usize>>,
    rank: Seq<nat>,
    sinks: Seq<usize>,
    cap: nat,
    i: int,
)
    requires
        table_wf(table, rank, sinks, cap),
        0 <= i < table.len(),
        rank[i] > 0,
    ensures
        chains_right(table, chains_to(table, rank, i), seq![i as usize]),
        chains_to(table, rank, i).len() >= 1,
    decreases rank[i] + 1, 0nat,
{
    reveal(table_wf);
    let all = chains_to(table, rank, i);
    let ends = seq![i as usize];
    assert(ends[0] == i);
    if table[i].len() == 0 {
        assert(all[0] == seq![i]);
        assert forall|c: Seq<int>| #[trigger] is_chain(table, c) && ends.contains(c.last() as usize) implies all.contains(
            c,
        ) by {
            if c.len() >= 2 {
                assert(parent_at(table, c, c.len() - 1));
            }
            assert(c =~= seq![i]);
            assert(all[0] == c);
        }
    } else {
        lemma_choices(table, rank, sinks, cap, i);
        lemma_chains_via_right(table, rank, sinks, cap, table[i], rank[i]);
        let via = chains_via(table, rank, table[i], rank[i]);
        assert forall|k: int| 0 <= k < all.len() implies is_chain(table, #[trigger] all[k]) && ends.contains(
            all[k].last() as usize,
        ) by {
            let c = via[k];
            let d = all[k];
            assert(d == c + seq![i]);
            assert(is_chain(table, c) && table[i].contains(c.last() as usize));
            assert forall|t: int| 1 <= t < d.len() implies #[trigger] parent_at(table, d, t) by {
                if t < c.len() {
                    assert(parent_at(table, c, t));
                    assert(d[t] == c[t]);
                    assert(d[t - 1] == c[t - 1]);
                }
            }
            assert(d[0] == c[0]);
        }
        assert forall|a: int, b: int| 0 <= a < all.len() && 0 <= b < all.len() && a != b
            implies all[a] != all[b] by {
            if all[a] == all[b] {
                assert(via[a] =~= all[a].drop_last());
                assert(via[b] =~= all[b].drop_last());
            }
        }
        assert forall|c: Seq<int>| #[trigger] is_chain(table, c) && ends.contains(c.last() as usize) implies all.contains(
            c,
        ) by {
            assert(c.last() == i);
            if c.len() == 1 {
                assert(table[c[0]].len() == 0);
            }
            let n = c.len() - 1;
            let shorter = c.drop_last();
            assert(parent_at(table, c, n));
            assert forall|t: int| 1 <= t < shorter.len()
                implies #[trigger] parent_at(table, shorter, t) by {
                assert(parent_at(table, c, t));
                assert(shorter[t] == c[t]);
                assert(shorter[t - 1] == c[t - 1]);
            }
            assert(shorter[0] == c[0]);
            assert(is_chain(table, shorter));
            assert(via.contains(shorter));
            let k = choose|k: int| 0 <= k < via.len() && via[k] == shorter;
            assert(all[k] =~= c);
        }
    }
}

/// The chains to the positions of a list of choices are right.
#[verifier::rlimit(50)]
pub proof fn lemma_chains_via_right(
    table: Seq<Seq<usize>>,
    rank: Seq<nat>,
    sinks: Seq<usize>,
    cap: nat,
    list: Seq<usize>,
    bound: nat,
)
    requires
        table_wf(table, rank, sinks, cap),
        choices(table, rank, list, bound),
    ensures
        chains_right(table, chains_via(table, rank, list, bound), list),
        list.len() >= 1 ==> chains_via(table, rank, list, bound).len() >= 1,
    decreases bound, list.len() + 1,
{
    reveal(table_wf);
    let all = chains_via(table, rank, list, bound);
    if list.len() == 0 {
        assert forall|c: Seq<int>| #[trigger] is_chain(table, c) && list.contains(c.last() as usize) implies all.contains(
            c,
        ) by {}
    } else {
        let last = list.last();
        let before = list.drop_last();
        assert(list[list.len() - 1] == last);
        lemma_chains_to_right(table, rank, sinks, cap, last as int);
        assert forall|j: int| 0 <= j < before.len() implies (#[trigger] before[j]) < table.len() && 0 < rank[before[j] as int]
            < bound by {
            assert(before[j] == list[j]);
        }
        assert(before.no_duplicates()) by {
            assert forall|a: int, b: int| 0 <= a < before.len() && 0 <= b < before.len() && a != b implies before[a]
                != before[b] by {
                assert(before[a] == list[a] && before[b] == list[b]);
            }
        }
        lemma_chains_via_right(table, rank, sinks, cap, before, bound);
        let first = chains_to(table, rank, last as int);
        let rest = chains_via(table, rank, before, bound);
        assert(all == first + rest);
        assert forall|k: int| 0 <= k < all.len() implies is_chain(table, #[trigger] all[k]) && list.contains(
            all[k].last() as usize,
        ) by {
            if k < first.len() {
                assert(all[k] == first[k]);
                assert(seq![last].contains(first[k].last() as usize));
                let w = choose|w: int| 0 <= w < 1 && seq![last][w] == first[k].last() as usize;
                assert(first[k].last() as usize == last);
            } else {
                assert(all[k] == rest[k - first.len()]);
                let e = rest[k - first.len()].last() as usize;
                assert(before.contains(e));
                let w = choose|w: int| 0 <= w < before.len() && before[w] == e;
                assert(list[w] == e);
            }
        }
        assert forall|a: int, b: int| 0 <= a < all.len() && 0 <= b < all.len() && a != b
            implies all[a] != all[b] by {
            if a < first.len() && b < first.len() {
                assert(first[a] != first[b]);
            } else if a >= first.len() && b >= first.len() {
                assert(rest[a - first.len()] != rest[b - first.len()]);
            } else {
                let (x, y) = if a < first.len() {
                    (a, b - first.len())
                } else {
                    (b, a - first.len())
                };
                assert(seq![last].contains(first[x].last() as usize));
                let w0 = choose|w: int| 0 <= w < 1 && seq![last][w] == first[x].last() as usize;
                assert(first[x].last() as usize == last);
                let e = rest[y].last() as usize;
                assert(before.contains(e));
                let w = choose|w: int| 0 <= w < before.len() && before[w] == e;
                assert(list[w] == e);
                assert(e != last);
            }
        }
        assert forall|c: Seq<int>| #[trigger] is_chain(table, c) && list.contains(c.last() as usize) implies all.contains(
            c,
        ) by {
            let e = c.last() as usize;
            let w = choose|w: int| 0 <= w < list.len() && list[w] == e;
            if w == list.len() - 1 {
                assert(seq![last][0] == e);
                assert(seq![last].contains(e));
                assert(first.contains(c));
                let k = choose|k: int| 0 <= k < first.len() && first[k] == c;
                assert(all[k] == c);
            } else {
                assert(before[w] == e);
                assert(before.contains(e));
                assert(rest.contains(c));
                let k = choose|k: int| 0 <= k < rest.len() && rest[k] == c;
                assert(all[first.len() + k] == c);
            }
        }
    }
}

} // verus!
