use vstd::prelude::*;

use crate::solver::algorithm::operators::{
    closed_both_ways, cx_next, cx_walk_facts, is_walk_from, walk_step,
};

verus! {

/// The position reached from `p` after `k` steps of the walk of cycle
/// crossover.
pub open spec fn cx_iter(s1: Seq<usize>, s2: Seq<usize>, p: int, k: nat) -> int
    decreases k,
{
    if k == 0 {
        p
    } else {
        cx_next(s1, s2, cx_iter(s1, s2, p, (k - 1) as nat))
    }
}

/// `q` lies on the cycle of `p`.
pub open spec fn on_cycle(s1: Seq<usize>, s2: Seq<usize>, p: int, q: int) -> bool {
    exists|k: nat| #[trigger] cx_iter(s1, s2, p, k) == q
}

/// `p` is the first position of its cycle.
pub open spec fn cycle_leader(s1: Seq<usize>, s2: Seq<usize>, p: int) -> bool {
    &&& 0 <= p < s1.len()
    &&& forall|q: int| #[trigger] on_cycle(s1, s2, p, q) ==> p <= q
}

/// Of two cycles that come one after the other in the order of their first
/// positions, `c` holds exactly one.
#[verifier::opaque]
pub open spec fn alternating(s1: Seq<usize>, s2: Seq<usize>, c: Set<int>) -> bool {
    forall|p: int, q: int|
        #![trigger cycle_leader(s1, s2, p), cycle_leader(s1, s2, q)]
        p < q && cycle_leader(s1, s2, p) && cycle_leader(s1, s2, q) && (forall|r: int|
            p < r < q ==> !#[trigger] cycle_leader(s1, s2, r)) ==> (c.contains(p) != c.contains(q))
}

/// The state of the alternation once the positions before `i` are visited:
/// each visited position lies on the cycle of an earlier start; `last` is
/// the last cycle started (-1 for none) and `flag` whether the next one is
/// copied; consecutive cycles so far alternate.
#[verifier::opaque]
pub open spec fn cx_alternation(
    s0: Seq<usize>,
    s2: Seq<usize>,
    seen: Set<int>,
    copied: Set<int>,
    i: int,
    last: int,
    flag: bool,
) -> bool {
    &&& forall|p: int|
        #[trigger] seen.contains(p) ==> exists|l: int| 0 <= l < i && l <= p && on_cycle(s0, s2, p, l)
    &&& last == -1 ==> forall|r: int| 0 <= r < i ==> !#[trigger] cycle_leader(s0, s2, r)
    &&& last != -1 ==> {
        &&& 0 <= last < i
        &&& cycle_leader(s0, s2, last)
        &&& forall|r: int| last < r < i ==> !#[trigger] cycle_leader(s0, s2, r)
        &&& flag == !copied.contains(last)
    }
    &&& forall|p: int, q: int|
        #![trigger cycle_leader(s0, s2, p), cycle_leader(s0, s2, q)]
        p < q < i && cycle_leader(s0, s2, p) && cycle_leader(s0, s2, q) && (forall|r: int|
            p < r < q ==> !#[trigger] cycle_leader(s0, s2, r)) ==> (copied.contains(p) != copied.contains(q))
}

/// Nothing visited yet.
pub proof fn lemma_alternation_start(s0: Seq<usize>, s2: Seq<usize>, flag: bool)
    ensures
        cx_alternation(s0, s2, Set::empty(), Set::empty(), 0, -1, flag),
{
    reveal(cx_alternation);
}

/// The walk from a position in a closed set stays in it.
pub proof fn lemma_closed_reach(s1: Seq<usize>, s2: Seq<usize>, c: Set<int>, p: int, k: nat)
    requires
        closed_both_ways(s1, s2, c),
        c.contains(p),
    ensures
        c.contains(cx_iter(s1, s2, p, k)),
    decreases k,
{
    if k > 0 {
        lemma_closed_reach(s1, s2, c, p, (k - 1) as nat);
    }
}

/// Along a walk, `m` steps from its `j`-th position lead to its `j + m`-th.
pub proof fn lemma_walk_iter(s1: Seq<usize>, s2: Seq<usize>, chain: Seq<int>, start: int, j: int, m: nat)
    requires
        is_walk_from(s1, s2, chain, start),
        0 <= j,
        j + m < chain.len(),
    ensures
        cx_iter(s1, s2, chain[j], m) == chain[j + m],
    decreases m,
{
    if m > 0 {
        lemma_walk_iter(s1, s2, chain, start, j, (m - 1) as nat);
        assert(walk_step(s1, s2, chain, j + m));
    }
}

/// Every position of a walk that comes back to its start has the start on
/// its cycle.
pub proof fn lemma_walk_returns(s1: Seq<usize>, s2: Seq<usize>, chain: Seq<int>, start: int, j: int)
    requires
        is_walk_from(s1, s2, chain, start),
        cx_next(s1, s2, chain.last()) == start,
        0 <= j < chain.len(),
    ensures
        on_cycle(s1, s2, chain[j], start),
{
    let m = (chain.len() - 1 - j) as nat;
    lemma_walk_iter(s1, s2, chain, start, j, m);
    assert(cx_iter(s1, s2, chain[j], m + 1) == start);
}

/// A visited position starts no cycle.
pub proof fn lemma_alternation_skip(
    s0: Seq<usize>,
    s2: Seq<usize>,
    seen: Set<int>,
    copied: Set<int>,
    i: int,
    last: int,
    flag: bool,
)
    requires
        cx_alternation(s0, s2, seen, copied, i, last, flag),
        seen.contains(i),
    ensures
        cx_alternation(s0, s2, seen, copied, i + 1, last, flag),
{
    reveal(cx_alternation);
    let l = choose|l: int| 0 <= l < i && l <= i && on_cycle(s0, s2, i, l);
    assert(!cycle_leader(s0, s2, i)) by {
        assert(on_cycle(s0, s2, i, l));
    }
    assert forall|p: int| #[trigger] seen.contains(p) implies exists|l: int|
        0 <= l < i + 1 && l <= p && on_cycle(s0, s2, p, l) by {
        let w = choose|l: int| 0 <= l < i && l <= p && on_cycle(s0, s2, p, l);
        assert(0 <= w < i + 1 && w <= p && on_cycle(s0, s2, p, w));
    }
}

/// An unvisited position starts a cycle, copied or not by `flag`; it then
/// becomes the last start, and the flag turns over.
pub proof fn lemma_alternation_walk(
    s0: Seq<usize>,
    s2: Seq<usize>,
    seen: Set<int>,
    copied: Set<int>,
    i: int,
    last: int,
    flag: bool,
    chain: Seq<int>,
)
    requires
        cx_alternation(s0, s2, seen, copied, i, last, flag),
        0 <= i < s0.len(),
        !seen.contains(i),
        forall|p: int| 0 <= p < i ==> seen.contains(p),
        copied.subset_of(seen),
        is_walk_from(s0, s2, chain, i),
        cx_next(s0, s2, chain.last()) == i,
        closed_both_ways(s0, s2, chain.to_set()),
        forall|p: int| #[trigger] chain.to_set().contains(p) ==> !seen.contains(p),
    ensures
        cx_alternation(
            s0,
            s2,
            seen + chain.to_set(),
            if flag {
                copied + chain.to_set()
            } else {
                copied
            },
            i + 1,
            i,
            !flag,
        ),
{
    reveal(cx_alternation);
    let cs = chain.to_set();
    let new_seen = seen + cs;
    let new_copied = if flag {
        copied + cs
    } else {
        copied
    };
    assert(cs.contains(i)) by {
        assert(chain[0] == i);
    }
    assert forall|p: int| #[trigger] cs.contains(p) implies i <= p by {
        if p < i {
            assert(seen.contains(p));
        }
    }
    assert(cycle_leader(s0, s2, i)) by {
        assert forall|q: int| #[trigger] on_cycle(s0, s2, i, q) implies i <= q by {
            let k = choose|k: nat| #[trigger] cx_iter(s0, s2, i, k) == q;
            lemma_closed_reach(s0, s2, cs, i, k);
        }
    }
    assert forall|p: int| #[trigger] new_seen.contains(p) implies exists|l: int|
        0 <= l < i + 1 && l <= p && on_cycle(s0, s2, p, l) by {
        if seen.contains(p) {
            let w = choose|l: int| 0 <= l < i && l <= p && on_cycle(s0, s2, p, l);
            assert(0 <= w < i + 1 && w <= p && on_cycle(s0, s2, p, w));
        } else {
            assert(cs.contains(p));
            let j = choose|j: int| 0 <= j < chain.len() && chain[j] == p;
            lemma_walk_returns(s0, s2, chain, i, j);
            assert(0 <= i < i + 1 && i <= p && on_cycle(s0, s2, p, i));
        }
    }
    assert(new_copied.contains(i) == flag);
    assert forall|p: int| 0 <= p < i implies new_copied.contains(p) == copied.contains(p) by {
        assert(seen.contains(p));
        assert(!cs.contains(p));
    }
    assert forall|p: int, q: int|
        #![trigger cycle_leader(s0, s2, p), cycle_leader(s0, s2, q)]
        p < q < i + 1 && cycle_leader(s0, s2, p) && cycle_leader(s0, s2, q) && (forall|r: int|
            p < r < q ==> !#[trigger] cycle_leader(s0, s2, r)) implies (new_copied.contains(p)
        != new_copied.contains(q)) by {
        if q < i {
            assert(copied.contains(p) != copied.contains(q));
        } else {
            assert(0 <= p);
            if last == -1 {
                assert(!cycle_leader(s0, s2, p));
            } else {
                if p < last {
                    assert(!cycle_leader(s0, s2, last));
                } else if p > last {
                    assert(!cycle_leader(s0, s2, p));
                }
                assert(p == last);
            }
        }
    }
}

/// Once every position is visited, consecutive cycles alternate.
pub proof fn lemma_alternation_done(
    s0: Seq<usize>,
    s2: Seq<usize>,
    seen: Set<int>,
    copied: Set<int>,
    last: int,
    flag: bool,
)
    requires
        cx_alternation(s0, s2, seen, copied, s0.len() as int, last, flag),
    ensures
        alternating(s0, s2, copied),
{
    reveal(cx_alternation);
    reveal(alternating);
}

} // verus!
