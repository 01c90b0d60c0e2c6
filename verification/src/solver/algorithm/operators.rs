use rand::rngs::StdRng;
use vstd::prelude::*;
use vstd::set_lib::set_int_range;

use crate::solver::algorithm::cycles::{
    alternating, cx_alternation, lemma_alternation_done, lemma_alternation_skip,
    lemma_alternation_start, lemma_alternation_walk,
};
use crate::solver::helpers::{random_in, random_ratio};
use crate::solver::solution::{
    is_permutation, lemma_permutation_by_count, lemma_same_multiset_permutation, loosely_valid,
    Solution,
};

verus! {

/// An operator that rearranges the jobs of one schedule.
pub trait UnaryOperator {
    /// `r` is one of the schedules that the operator can make of `s`.
    spec fn mutated(&self, s: Seq<usize>, r: Seq<usize>) -> bool;

    fn mutate(&self, rng: &mut StdRng, s1: &mut Solution)
        requires
            old(s1)@.len() >= 2,
        ensures
            final(s1)@.len() == old(s1)@.len(),
            final(s1)@.to_multiset() == old(s1)@.to_multiset(),
            self.mutated(old(s1)@, final(s1)@),
    ;
}

/// An operator that recombines a schedule (the first) with another one.
pub trait BinaryOperator {
    /// `r` is one of the schedules that the operator can make of `s1` with `s2`.
    spec fn crossed(&self, s1: Seq<usize>, s2: Seq<usize>, r: Seq<usize>) -> bool;

    /// The fewest jobs that the operator works on.
    spec fn fewest_jobs(&self) -> nat;

    fn mutate(&self, rng: &mut StdRng, s1: &mut Solution, s2: &Solution)
        requires
            old(s1)@.len() >= self.fewest_jobs(),
            is_permutation(old(s1)@, old(s1)@.len()),
            is_permutation(s2@, old(s1)@.len()),
        ensures
            is_permutation(final(s1)@, old(s1)@.len()),
            self.crossed(old(s1)@, s2@, final(s1)@),
    ;
}

/// `s` with the elements at `i` and `j` exchanged.
pub open spec fn swapped(s: Seq<usize>, i: int, j: int) -> Seq<usize> {
    s.update(i, s[j]).update(j, s[i])
}

/// `s` with the segment `p1..p2` reversed.
pub open spec fn inverted(s: Seq<usize>, p1: int, p2: int) -> Seq<usize> {
    s.take(p1) + s.subrange(p1, p2).reverse() + s.skip(p2)
}

/// Exchanging two jobs keeps the jobs and their number.
pub proof fn lemma_swapped_multiset(s: Seq<usize>, i: int, j: int)
    requires
        0 <= i < s.len(),
        0 <= j < s.len(),
    ensures
        swapped(s, i, j).to_multiset() == s.to_multiset(),
        swapped(s, i, j).len() == s.len(),
{
    broadcast use vstd::seq_lib::group_to_multiset_ensures;
    broadcast use vstd::multiset::group_multiset_axioms;

    let t = s.update(i, s[j]);
    vstd::seq_lib::to_multiset_update(s, i, s[j]);
    vstd::seq_lib::to_multiset_update(t, j, s[i]);
    if i == j {
        assert(swapped(s, i, j) =~= s);
    } else {
        assert(t[j] == s[j]);
        assert(s.to_multiset().count(s[j]) > 0) by {
            assert(s.contains(s[j]));
        }
        assert(swapped(s, i, j).to_multiset() =~= s.to_multiset());
    }
}

/// `r` is `s` with two jobs at different positions exchanged.
pub open spec fn swap_result(s: Seq<usize>, r: Seq<usize>) -> bool {
    exists|i: int, j: int| 0 <= i < s.len() && 0 <= j < s.len() && i != j && r == swapped(s, i, j)
}

/// `r` is `s` with a segment `p1..p2` reversed, where `p1 < p2 < s.len()`.
pub open spec fn inversion_result(s: Seq<usize>, r: Seq<usize>) -> bool {
    exists|p1: int, p2: int| 0 <= p1 < p2 < s.len() && r == inverted(s, p1, p2)
}

/// Exchanges two jobs of a schedule.
fn swap_positions(s: &mut Vec<usize>, i: usize, j: usize)
    requires
        i < old(s)@.len(),
        j < old(s)@.len(),
    ensures
        final(s)@ == swapped(old(s)@, i as int, j as int),
{
    let temp = s[i];
    let other = s[j];
    s.set(i, other);
    s.set(j, temp);
}

/// Swaps two jobs chosen at random.
#[derive(Clone, Copy)]
pub struct SwapMutation;

impl SwapMutation {
    /// The operator.
    pub fn new() -> Self {
        SwapMutation
    }

    /// Exchanges the jobs at positions `idx1` and `idx2`.
    pub fn swap_at(s1: &mut Solution, idx1: usize, idx2: usize)
        requires
            idx1 < old(s1)@.len(),
            idx2 < old(s1)@.len(),
        ensures
            final(s1)@ == swapped(old(s1)@, idx1 as int, idx2 as int),
            final(s1)@.to_multiset() == old(s1)@.to_multiset(),
    {
        proof {
            lemma_swapped_multiset(s1@, idx1 as int, idx2 as int);
        }
        swap_positions(&mut s1.data, idx1, idx2);
    }
}

impl UnaryOperator for SwapMutation {
    open spec fn mutated(&self, s: Seq<usize>, r: Seq<usize>) -> bool {
        swap_result(s, r)
    }

    fn mutate(&self, rng: &mut StdRng, s1: &mut Solution) {
        let idx1 = random_in(rng, 0, s1.len());
        let mut idx2 = random_in(rng, 0, s1.len() - 1);
        if idx2 >= idx1 {
            idx2 += 1;
        }
        let ghost s0 = s1@;
        SwapMutation::swap_at(s1, idx1, idx2);
        assert(swap_result(s0, s1@)) by {
            assert(s1@ == swapped(s0, idx1 as int, idx2 as int));
        }
        assert(self.mutated(s0, s1@));
    }
}

/// Reverses a segment chosen at random.
#[derive(Clone, Copy)]
pub struct InversionMutation;

impl InversionMutation {
    /// The operator.
    pub fn new() -> Self {
        InversionMutation
    }

    /// Reverses the segment `p1..p2` of the schedule.
    pub fn invert_at(s1: &mut Solution, p1: usize, p2: usize)
        requires
            p1 <= p2 <= old(s1)@.len(),
        ensures
            final(s1)@ == inverted(old(s1)@, p1 as int, p2 as int),
            final(s1)@.to_multiset() == old(s1)@.to_multiset(),
    {
        let ghost s0 = s1@;
        if p1 == p2 {
            assert(inverted(s0, p1 as int, p2 as int) =~= s0);
            return ;
        }
        let mut i = p1;
        let mut j = p2 - 1;
        while i < j
            invariant
                p1 <= i,
                j < p2,
                p2 <= s0.len(),
                i + j == p1 + p2 - 1,
                s1@.len() == s0.len(),
                s1@.to_multiset() == s0.to_multiset(),
                forall|k: int| 0 <= k < p1 || p2 <= k < s0.len() ==> s1@[k] == s0[k],
                forall|k: int| i <= k <= j ==> s1@[k] == s0[k],
                forall|k: int| p1 <= k < i ==> s1@[k] == s0[p1 + p2 - 1 - k],
                forall|k: int| j < k < p2 ==> s1@[k] == s0[p1 + p2 - 1 - k],
            decreases j + 1 - i,
        {
            proof {
                lemma_swapped_multiset(s1@, i as int, j as int);
            }
            swap_positions(&mut s1.data, i, j);
            i += 1;
            j -= 1;
        }
        assert(s1@ =~= inverted(s0, p1 as int, p2 as int));
    }
}

impl UnaryOperator for InversionMutation {
    open spec fn mutated(&self, s: Seq<usize>, r: Seq<usize>) -> bool {
        inversion_result(s, r)
    }

    fn mutate(&self, rng: &mut StdRng, s1: &mut Solution) {
        let p1 = random_in(rng, 0, s1.len() - 1);
        let p2 = random_in(rng, p1 + 1, s1.len());
        let ghost s0 = s1@;
        InversionMutation::invert_at(s1, p1, p2);
        assert(inversion_result(s0, s1@)) by {
            assert(s1@ == inverted(s0, p1 as int, p2 as int));
        }
        assert(self.mutated(s0, s1@));
    }
}

/// The elements of `s` starting at position `p`, followed by those before it.
pub open spec fn rotated(s: Seq<usize>, p: int) -> Seq<usize> {
    s.skip(p) + s.take(p)
}

/// Holds of the jobs that do not occur in `segment`.
pub open spec fn outside_of(segment: Seq<usize>) -> spec_fn(usize) -> bool {
    |v: usize| !segment.contains(v)
}

/// The jobs of `s2`, read from position `p2` on and around, that do not occur
/// in the segment `p1..p2` of `s1`.
pub open spec fn ox_fill(s1: Seq<usize>, s2: Seq<usize>, p1: int, p2: int) -> Seq<usize> {
    rotated(s2, p2).filter(outside_of(s1.subrange(p1, p2)))
}

/// Ordered crossover: the segment `p1..p2` of `s1` stays in place; the
/// remaining positions, from `p2` to the end and then from the start to `p1`,
/// receive in turn the jobs of `ox_fill`.
pub open spec fn ordered_crossover(s1: Seq<usize>, s2: Seq<usize>, p1: int, p2: int) -> Seq<usize> {
    let fill = ox_fill(s1, s2, p1, p2);
    let n = s1.len();
    fill.subrange(n - p2, n - p2 + p1) + s1.subrange(p1, p2) + fill.take(n - p2)
}

/// Filtering a sequence without repeats leaves one without repeats.
pub proof fn lemma_filter_no_duplicates(s: Seq<usize>, pred: spec_fn(usize) -> bool)
    requires
        s.no_duplicates(),
    ensures
        s.filter(pred).no_duplicates(),
    decreases s.len(),
{
    reveal(Seq::filter);
    if s.len() > 0 {
        let rest = s.drop_last();
        assert(rest.no_duplicates());
        lemma_filter_no_duplicates(rest, pred);
        if pred(s.last()) {
            if rest.filter(pred).contains(s.last()) {
                rest.lemma_filter_contains_rev(pred, s.last());
                let i = choose|i: int| 0 <= i < rest.len() && rest[i] == s.last();
                assert(s[i] == s[s.len() - 1]);
            }
        }
    }
}

/// Filtering a prefix one element longer adds that element when it passes.
pub proof fn lemma_filter_take_step(s: Seq<usize>, pred: spec_fn(usize) -> bool, r: int)
    requires
        0 <= r < s.len(),
    ensures
        s.take(r + 1).filter(pred) == (if pred(s[r]) {
            s.take(r).filter(pred).push(s[r])
        } else {
            s.take(r).filter(pred)
        }),
{
    reveal(Seq::filter);
    assert(s.take(r + 1).drop_last() =~= s.take(r));
}

/// A rotation of a permutation is a permutation.
pub proof fn lemma_rotated_permutation(s: Seq<usize>, n: nat, p: int)
    requires
        is_permutation(s, n),
        0 <= p <= s.len(),
    ensures
        is_permutation(rotated(s, p), n),
{
    vstd::seq_lib::lemma_seq_union_to_multiset_commutative(s.skip(p), s.take(p));
    assert(s.take(p) + s.skip(p) =~= s);
    lemma_same_multiset_permutation(s, rotated(s, p), n);
}

/// Ordered crossover of two permutations is a permutation, and the fill has
/// exactly as many jobs as there are positions outside the kept segment.
pub proof fn lemma_ordered_crossover_permutation(s1: Seq<usize>, s2: Seq<usize>, p1: int, p2: int)
    requires
        s1.len() <= usize::MAX,
        is_permutation(s1, s1.len()),
        is_permutation(s2, s1.len()),
        0 <= p1 <= p2 <= s1.len(),
    ensures
        ox_fill(s1, s2, p1, p2).len() == s1.len() - (p2 - p1),
        is_permutation(ordered_crossover(s1, s2, p1, p2), s1.len()),
{
    broadcast use vstd::seq_lib::group_filter_ensures;

    let n = s1.len();
    let seg = s1.subrange(p1, p2);
    let rot = rotated(s2, p2);
    let pred = outside_of(seg);
    let fill = rot.filter(pred);
    lemma_rotated_permutation(s2, n, p2);
    lemma_filter_no_duplicates(rot, pred);
    assert(seg.no_duplicates()) by {
        assert forall|i: int, j: int| 0 <= i < j < seg.len() implies seg[i] != seg[j] by {
            assert(s1[p1 + i] != s1[p1 + j]);
        }
    }
    let x = seg + fill;
    assert forall|k: int| 0 <= k < x.len() implies #[trigger] x[k] < n by {
        if k >= seg.len() {
            assert(fill.contains(fill[k - seg.len()]));
            rot.lemma_filter_contains_rev(pred, fill[k - seg.len()]);
        } else {
            assert(x[k] == s1[p1 + k]);
        }
    }
    assert forall|i: int, j: int| 0 <= i < j < x.len() implies x[i] != x[j] by {
        if i < seg.len() && j >= seg.len() {
            rot.lemma_filter_pred(pred, j - seg.len());
            assert(seg.contains(x[i]));
        }
    }
    assert forall|v: usize| v < n implies x.contains(v) by {
        if seg.contains(v) {
            let i = choose|i: int| 0 <= i < seg.len() && seg[i] == v;
            assert(x[i] == v);
        } else {
            lemma_permutation_by_count(rot, n);
            assert(rot.contains(v));
            let i = choose|i: int| 0 <= i < rot.len() && rot[i] == v;
            assert(pred(rot[i]));
            rot.lemma_filter_contains(pred, i);
            let j = choose|j: int| 0 <= j < fill.len() && fill[j] == v;
            assert(x[seg.len() + j] == v);
        }
    }
    lemma_permutation_by_count(x, n);
    let a = fill.subrange(n - p2, n - p2 + p1);
    let b = fill.take(n - p2);
    let res = ordered_crossover(s1, s2, p1, p2);
    assert(fill =~= b + a);
    assert(res =~= a + seg + b);
    vstd::seq_lib::lemma_multiset_commutative(a + seg, b);
    vstd::seq_lib::lemma_multiset_commutative(a, seg);
    vstd::seq_lib::lemma_multiset_commutative(seg, fill);
    vstd::seq_lib::lemma_multiset_commutative(b, a);
    broadcast use vstd::multiset::group_multiset_axioms;
    assert(res.to_multiset() =~= x.to_multiset());
    lemma_same_multiset_permutation(x, res, n);
}

/// Copies a segment from the first parent and fills the rest with the other
/// jobs in the order in which the second parent has them.
#[derive(Clone, Copy)]
pub struct OrderedCrossover;

impl OrderedCrossover {
    /// The operator.
    pub fn new() -> Self {
        OrderedCrossover
    }

    /// Ordered crossover that keeps the segment `p1..p2` of `s1`.
    pub fn cross_at(s1: &mut Solution, s2: &Solution, p1: usize, p2: usize)
        requires
            p1 <= p2 <= old(s1)@.len(),
            p2 <= s2@.len(),
            forall|i: int| p1 <= i < p2 ==> #[trigger] old(s1)@[i] < old(s1)@.len(),
            forall|i: int| 0 <= i < s2@.len() ==> #[trigger] s2@[i] < old(s1)@.len(),
            ox_fill(old(s1)@, s2@, p1 as int, p2 as int).len() >= old(s1)@.len() - p2 + p1,
        ensures
            final(s1)@ == ordered_crossover(old(s1)@, s2@, p1 as int, p2 as int),
    {
        let ghost s0 = s1@;
        let ghost seg = s0.subrange(p1 as int, p2 as int);
        let ghost rot = rotated(s2@, p2 as int);
        let n = s1.data.len();
        let mut present: Vec<bool> = Vec::new();
        while present.len() < n
            invariant
                present.len() <= n,
                forall|v: int| 0 <= v < present.len() ==> !present@[v],
            decreases n - present.len(),
        {
            present.push(false);
        }
        let mut i = p1;
        while i < p2
            invariant
                s1@ == s0,
                n == s0.len(),
                p1 <= i <= p2 <= n,
                forall|k: int| p1 <= k < p2 ==> #[trigger] s0[k] < n,
                present.len() == n,
                forall|v: int| 0 <= v < n ==> present@[v] == s0.subrange(p1 as int, i as int).contains(v as usize),
            decreases p2 - i,
        {
            let v = s1.data[i];
            present.set(v, true);
            proof {
                assert(s0.subrange(p1 as int, i + 1) =~= s0.subrange(p1 as int, i as int).push(v));
                assert forall|w: int| 0 <= w < n implies present@[w] == s0.subrange(p1 as int, i + 1).contains(w as usize) by {
                    if w == v {
                        assert(s0.subrange(p1 as int, i + 1)[i - p1] == v);
                    } else {
                        if s0.subrange(p1 as int, i + 1).contains(w as usize) {
                            let sub = s0.subrange(p1 as int, i + 1);
                            let k = choose|k: int| 0 <= k < sub.len() && #[trigger] sub[k] == w as usize;
                            assert(s0.subrange(p1 as int, i as int)[k] == w as usize);
                        }
                    }
                }
            }
            i += 1;
        }
        let m2 = s2.data.len();
        let mut fill: Vec<usize> = Vec::new();
        let mut r: usize = 0;
        while r < m2
            invariant
                s1@ == s0,
                n == s0.len(),
                p2 <= m2,
                m2 == s2@.len(),
                rot == rotated(s2@, p2 as int),
                seg == s0.subrange(p1 as int, p2 as int),
                r <= m2,
                forall|k: int| 0 <= k < m2 ==> #[trigger] s2@[k] < n,
                present.len() == n,
                forall|v: int| 0 <= v < n ==> present@[v] == seg.contains(v as usize),
                fill@ == rot.take(r as int).filter(outside_of(seg)),
            decreases m2 - r,
        {
            let v = if r < m2 - p2 {
                s2.data[p2 + r]
            } else {
                s2.data[r - (m2 - p2)]
            };
            proof {
                assert(v == rot[r as int]);
                lemma_filter_take_step(rot, outside_of(seg), r as int);
            }
            if !present[v] {
                fill.push(v);
            }
            r += 1;
        }
        proof {
            assert(rot.take(m2 as int) =~= rot);
        }
        let tail = n - p2;
        let needed = tail + p1;
        let mut res: Vec<usize> = Vec::new();
        let mut k = tail;
        while k < needed
            invariant
                tail <= k <= needed,
                needed <= fill@.len(),
                res@ == fill@.subrange(tail as int, k as int),
            decreases needed - k,
        {
            res.push(fill[k]);
            proof {
                assert(fill@.subrange(tail as int, k + 1) =~= fill@.subrange(tail as int, k as int).push(fill@[k as int]));
            }
            k += 1;
        }
        let ghost front = res@;
        let mut k = p1;
        while k < p2
            invariant
                s1@ == s0,
                p1 <= k <= p2 <= s0.len(),
                res@ == front + s0.subrange(p1 as int, k as int),
            decreases p2 - k,
        {
            res.push(s1.data[k]);
            proof {
                assert(s0.subrange(p1 as int, k + 1) =~= s0.subrange(p1 as int, k as int).push(s0[k as int]));
                assert(front + s0.subrange(p1 as int, k + 1) =~= (front + s0.subrange(p1 as int, k as int)).push(s0[k as int]));
            }
            k += 1;
        }
        let ghost middle = res@;
        let mut k: usize = 0;
        while k < tail
            invariant
                k <= tail,
                tail <= fill@.len(),
                res@ == middle + fill@.take(k as int),
            decreases tail - k,
        {
            res.push(fill[k]);
            proof {
                assert(fill@.take(k + 1) =~= fill@.take(k as int).push(fill@[k as int]));
                assert(middle + fill@.take(k + 1) =~= (middle + fill@.take(k as int)).push(fill@[k as int]));
            }
            k += 1;
        }
        s1.data = res;
    }
}

/// `r` is the ordered crossover of `s1` with `s2` at some `p1 < p2 < s1.len()`.
pub open spec fn ox_result(s1: Seq<usize>, s2: Seq<usize>, r: Seq<usize>) -> bool {
    exists|p1: int, p2: int| 0 <= p1 < p2 < s1.len() && r == ordered_crossover(s1, s2, p1, p2)
}

impl BinaryOperator for OrderedCrossover {
    open spec fn crossed(&self, s1: Seq<usize>, s2: Seq<usize>, r: Seq<usize>) -> bool {
        ox_result(s1, s2, r)
    }

    open spec fn fewest_jobs(&self) -> nat {
        2
    }

    fn mutate(&self, rng: &mut StdRng, s1: &mut Solution, s2: &Solution) {
        proof {
            assert(s1@.len() >= self.fewest_jobs());
        }
        let n = s1.len();
        let p1 = random_in(rng, 0, n - 1);
        let p2 = random_in(rng, p1 + 1, n);
        proof {
            lemma_ordered_crossover_permutation(s1@, s2@, p1 as int, p2 as int);
        }
        let ghost s0 = s1@;
        OrderedCrossover::cross_at(s1, s2, p1, p2);
        assert(ox_result(s0, s2@, s1@)) by {
            assert(s1@ == ordered_crossover(s0, s2@, p1 as int, p2 as int));
        }
        assert(self.crossed(s0, s2@, s1@));
    }
}

/// The partial mapping of partially matched crossover: a job of the segment
/// `p1..p2` of `s2` is mapped to the job of `s1` at the same position (the
/// last such position, should a job occur twice).
pub open spec fn pmx_map(s1: Seq<usize>, s2: Seq<usize>, p1: int, p2: int, v: usize) -> Option<usize>
    decreases p2 - p1,
{
    if p2 <= p1 {
        None
    } else if s2[p2 - 1] == v {
        Some(s1[p2 - 1])
    } else {
        pmx_map(s1, s2, p1, p2 - 1, v)
    }
}

/// The job reached from `v` by following the mapping for at most `fuel` steps.
pub open spec fn pmx_chase(s1: Seq<usize>, s2: Seq<usize>, p1: int, p2: int, v: usize, fuel: nat) -> usize
    decreases fuel,
{
    if fuel == 0 {
        v
    } else {
        let c = pmx_chase(s1, s2, p1, p2, v, (fuel - 1) as nat);
        match pmx_map(s1, s2, p1, p2, c) {
            Some(w) => w,
            None => c,
        }
    }
}

/// Partially matched crossover: the segment `p1..p2` comes from `s2`; every
/// other position keeps its job of `s1`, mapped until it leaves the segment.
pub open spec fn partially_matched_crossover(s1: Seq<usize>, s2: Seq<usize>, p1: int, p2: int) -> Seq<usize> {
    Seq::new(
        s1.len(),
        |i: int|
            if p1 <= i < p2 {
                s2[i]
            } else {
                pmx_chase(s1, s2, p1, p2, s1[i], (p2 - p1) as nat)
            },
    )
}

/// The mapping is defined on the first `t` jobs of the chase from `v`.
pub open spec fn pmx_defined(s1: Seq<usize>, s2: Seq<usize>, p1: int, p2: int, v: usize, t: nat) -> bool {
    forall|k: nat| k < t ==> #[trigger] pmx_map(s1, s2, p1, p2, pmx_chase(s1, s2, p1, p2, v, k)) is Some
}

/// The setting in which partially matched crossover is well defined.
pub open spec fn pmx_setting(s1: Seq<usize>, s2: Seq<usize>, p1: int, p2: int) -> bool {
    &&& s1.len() <= usize::MAX
    &&& is_permutation(s1, s1.len())
    &&& is_permutation(s2, s1.len())
    &&& 0 <= p1 <= p2 <= s1.len()
}

/// The mapping sends a job of the segment of `s2` to the job of `s1` at its
/// place, and sends no other job anywhere.
pub proof fn lemma_pmx_map(s1: Seq<usize>, s2: Seq<usize>, p1: int, p2: int, v: usize)
    ensures
        match pmx_map(s1, s2, p1, p2, v) {
            Some(w) => exists|j: int| p1 <= j < p2 && s2[j] == v && s1[j] == w,
            None => forall|j: int| p1 <= j < p2 ==> s2[j] != v,
        },
    decreases p2 - p1,
{
    if p2 > p1 && s2[p2 - 1] != v {
        lemma_pmx_map(s1, s2, p1, p2 - 1, v);
    }
}

/// The mapping sends two jobs to the same job only when they are the same.
pub proof fn lemma_pmx_map_injective(s1: Seq<usize>, s2: Seq<usize>, p1: int, p2: int, a: usize, b: usize)
    requires
        pmx_setting(s1, s2, p1, p2),
        pmx_map(s1, s2, p1, p2, a) is Some,
        pmx_map(s1, s2, p1, p2, a) == pmx_map(s1, s2, p1, p2, b),
    ensures
        a == b,
{
    lemma_pmx_map(s1, s2, p1, p2, a);
    lemma_pmx_map(s1, s2, p1, p2, b);
    let ja = choose|j: int| p1 <= j < p2 && s2[j] == a && s1[j] == pmx_map(s1, s2, p1, p2, a)->0;
    let jb = choose|j: int| p1 <= j < p2 && s2[j] == b && s1[j] == pmx_map(s1, s2, p1, p2, b)->0;
    assert(ja == jb);
}

/// A job that is not in the segment of `s1` is not the image of any job.
pub proof fn lemma_pmx_not_image(s1: Seq<usize>, s2: Seq<usize>, p1: int, p2: int, a: usize, c: usize)
    requires
        pmx_setting(s1, s2, p1, p2),
        pmx_map(s1, s2, p1, p2, c) == Some(a),
    ensures
        exists|j: int| p1 <= j < p2 && s1[j] == a,
{
    lemma_pmx_map(s1, s2, p1, p2, c);
}

/// One more step of the chase applies the mapping once more, where it is
/// defined.
pub proof fn lemma_pmx_chase_step(s1: Seq<usize>, s2: Seq<usize>, p1: int, p2: int, v: usize, t: nat)
    ensures
        pmx_chase(s1, s2, p1, p2, v, t + 1) == (match pmx_map(
            s1,
            s2,
            p1,
            p2,
            pmx_chase(s1, s2, p1, p2, v, t),
        ) {
            Some(w) => w,
            None => pmx_chase(s1, s2, p1, p2, v, t),
        }),
{
}

/// Once the mapping is undefined, the chase stays where it is.
pub proof fn lemma_pmx_chase_stuck(s1: Seq<usize>, s2: Seq<usize>, p1: int, p2: int, v: usize, t: nat, u: nat)
    requires
        t <= u,
        pmx_map(s1, s2, p1, p2, pmx_chase(s1, s2, p1, p2, v, t)) is None,
    ensures
        pmx_chase(s1, s2, p1, p2, v, u) == pmx_chase(s1, s2, p1, p2, v, t),
    decreases u - t,
{
    if t < u {
        lemma_pmx_chase_stuck(s1, s2, p1, p2, v, t, (u - 1) as nat);
    }
}

/// Along a chase from a job outside the segment of `s1`, no job comes twice.
pub proof fn lemma_pmx_chase_distinct(s1: Seq<usize>, s2: Seq<usize>, p1: int, p2: int, v: usize, t: nat, a: nat, b: nat)
    requires
        pmx_setting(s1, s2, p1, p2),
        forall|j: int| p1 <= j < p2 ==> s1[j] != v,
        pmx_defined(s1, s2, p1, p2, v, t),
        a < b <= t,
    ensures
        pmx_chase(s1, s2, p1, p2, v, a) != pmx_chase(s1, s2, p1, p2, v, b),
    decreases a,
{
    let cb = pmx_chase(s1, s2, p1, p2, v, (b - 1) as nat);
    assert(pmx_map(s1, s2, p1, p2, cb) is Some);
    lemma_pmx_not_image(s1, s2, p1, p2, pmx_chase(s1, s2, p1, p2, v, b), cb);
    if a > 0 {
        let ca = pmx_chase(s1, s2, p1, p2, v, (a - 1) as nat);
        assert(pmx_map(s1, s2, p1, p2, ca) is Some);
        lemma_pmx_chase_distinct(s1, s2, p1, p2, v, t, (a - 1) as nat, (b - 1) as nat);
        if pmx_chase(s1, s2, p1, p2, v, a) == pmx_chase(s1, s2, p1, p2, v, b) {
            lemma_pmx_map_injective(s1, s2, p1, p2, ca, cb);
        }
    }
}

/// A chase from a job outside the segment of `s1` takes at most `p2 - p1` steps.
pub proof fn lemma_pmx_chase_bounded(s1: Seq<usize>, s2: Seq<usize>, p1: int, p2: int, v: usize, t: nat)
    requires
        pmx_setting(s1, s2, p1, p2),
        forall|j: int| p1 <= j < p2 ==> s1[j] != v,
        pmx_defined(s1, s2, p1, p2, v, t),
    ensures
        t <= p2 - p1,
{
    let visited = Seq::new(t, |k: int| pmx_chase(s1, s2, p1, p2, v, (k + 1) as nat));
    let seg = s1.subrange(p1, p2);
    assert forall|i: int, j: int| 0 <= i < j < visited.len() implies visited[i] != visited[j] by {
        lemma_pmx_chase_distinct(s1, s2, p1, p2, v, t, (i + 1) as nat, (j + 1) as nat);
    }
    assert forall|x: usize| visited.contains(x) implies seg.contains(x) by {
        let k = choose|k: int| 0 <= k < visited.len() && visited[k] == x;
        let c = pmx_chase(s1, s2, p1, p2, v, k as nat);
        assert(pmx_map(s1, s2, p1, p2, c) is Some);
        lemma_pmx_not_image(s1, s2, p1, p2, x, c);
        let j = choose|j: int| p1 <= j < p2 && s1[j] == x;
        assert(seg[j - p1] == x);
    }
    assert(seg.no_duplicates()) by {
        assert forall|i: int, j: int| 0 <= i < j < seg.len() implies seg[i] != seg[j] by {
            assert(s1[p1 + i] != s1[p1 + j]);
        }
    }
    crate::solver::solution::lemma_no_duplicates_len_le(visited, seg);
}

/// A chase from a job outside the segment of `s1` settles: after some number
/// of steps, at most `p2 - p1`, the mapping is no longer defined.
pub proof fn lemma_pmx_chase_settles(s1: Seq<usize>, s2: Seq<usize>, p1: int, p2: int, v: usize, t: nat) -> (p: nat)
    requires
        pmx_setting(s1, s2, p1, p2),
        forall|j: int| p1 <= j < p2 ==> s1[j] != v,
        pmx_defined(s1, s2, p1, p2, v, t),
    ensures
        t <= p <= p2 - p1,
        pmx_defined(s1, s2, p1, p2, v, p),
        pmx_map(s1, s2, p1, p2, pmx_chase(s1, s2, p1, p2, v, p)) is None,
        pmx_chase(s1, s2, p1, p2, v, (p2 - p1) as nat) == pmx_chase(s1, s2, p1, p2, v, p),
    decreases p2 - p1 - t,
{
    lemma_pmx_chase_bounded(s1, s2, p1, p2, v, t);
    if pmx_map(s1, s2, p1, p2, pmx_chase(s1, s2, p1, p2, v, t)) is None {
        lemma_pmx_chase_stuck(s1, s2, p1, p2, v, t, (p2 - p1) as nat);
        t
    } else {
        assert(pmx_defined(s1, s2, p1, p2, v, t + 1)) by {
            assert forall|k: nat| k < t + 1 implies #[trigger] pmx_map(s1, s2, p1, p2, pmx_chase(s1, s2, p1, p2, v, k)) is Some by {
                if k < t {
                    assert(pmx_map(s1, s2, p1, p2, pmx_chase(s1, s2, p1, p2, v, k)) is Some);
                }
            }
        }
        lemma_pmx_chase_bounded(s1, s2, p1, p2, v, t + 1);
        lemma_pmx_chase_settles(s1, s2, p1, p2, v, t + 1)
    }
}

/// Two chases from jobs outside the segment of `s1` that meet where the
/// mapping is no longer defined started from the same job.
pub proof fn lemma_pmx_chase_join(s1: Seq<usize>, s2: Seq<usize>, p1: int, p2: int, a: usize, b: usize, p: nat, q: nat)
    requires
        pmx_setting(s1, s2, p1, p2),
        forall|j: int| p1 <= j < p2 ==> s1[j] != a,
        forall|j: int| p1 <= j < p2 ==> s1[j] != b,
        pmx_defined(s1, s2, p1, p2, a, p),
        pmx_defined(s1, s2, p1, p2, b, q),
        pmx_chase(s1, s2, p1, p2, a, p) == pmx_chase(s1, s2, p1, p2, b, q),
    ensures
        a == b,
    decreases p + q,
{
    if p > 0 && q > 0 {
        let ca = pmx_chase(s1, s2, p1, p2, a, (p - 1) as nat);
        let cb = pmx_chase(s1, s2, p1, p2, b, (q - 1) as nat);
        assert(pmx_map(s1, s2, p1, p2, ca) is Some);
        assert(pmx_map(s1, s2, p1, p2, cb) is Some);
        lemma_pmx_map_injective(s1, s2, p1, p2, ca, cb);
        assert(pmx_defined(s1, s2, p1, p2, a, (p - 1) as nat));
        assert(pmx_defined(s1, s2, p1, p2, b, (q - 1) as nat));
        lemma_pmx_chase_join(s1, s2, p1, p2, a, b, (p - 1) as nat, (q - 1) as nat);
    } else if p > 0 {
        let ca = pmx_chase(s1, s2, p1, p2, a, (p - 1) as nat);
        assert(pmx_map(s1, s2, p1, p2, ca) is Some);
        lemma_pmx_not_image(s1, s2, p1, p2, b, ca);
    } else if q > 0 {
        let cb = pmx_chase(s1, s2, p1, p2, b, (q - 1) as nat);
        assert(pmx_map(s1, s2, p1, p2, cb) is Some);
        lemma_pmx_not_image(s1, s2, p1, p2, a, cb);
    }
}

/// Partially matched crossover of two permutations is a permutation.
pub proof fn lemma_partially_matched_crossover_permutation(s1: Seq<usize>, s2: Seq<usize>, p1: int, p2: int)
    requires
        pmx_setting(s1, s2, p1, p2),
    ensures
        is_permutation(partially_matched_crossover(s1, s2, p1, p2), s1.len()),
{
    let n = s1.len();
    let res = partially_matched_crossover(s1, s2, p1, p2);
    let k = (p2 - p1) as nat;
    assert forall|i: int| 0 <= i < n && !(p1 <= i < p2) implies
        #[trigger] pmx_map(s1, s2, p1, p2, res[i]) is None
        && (forall|j: int| p1 <= j < p2 ==> s1[j] != s1[i]) by {
        assert forall|j: int| p1 <= j < p2 implies s1[j] != s1[i] by {}
        assert(pmx_defined(s1, s2, p1, p2, s1[i], 0));
        let p = lemma_pmx_chase_settles(s1, s2, p1, p2, s1[i], 0);
    }
    assert forall|i: int| 0 <= i < n implies #[trigger] res[i] < n by {
        if !(p1 <= i < p2) {
            assert(pmx_defined(s1, s2, p1, p2, s1[i], 0));
            let p = lemma_pmx_chase_settles(s1, s2, p1, p2, s1[i], 0);
            if p > 0 {
                let c = pmx_chase(s1, s2, p1, p2, s1[i], (p - 1) as nat);
                assert(pmx_map(s1, s2, p1, p2, c) is Some);
                lemma_pmx_not_image(s1, s2, p1, p2, res[i], c);
            }
        }
    }
    assert forall|i: int, j: int| 0 <= i < j < n implies res[i] != res[j] by {
        let in_i = p1 <= i < p2;
        let in_j = p1 <= j < p2;
        if in_i && in_j {
        } else if !in_i && !in_j {
            assert(pmx_defined(s1, s2, p1, p2, s1[i], 0));
            assert(pmx_defined(s1, s2, p1, p2, s1[j], 0));
            let p = lemma_pmx_chase_settles(s1, s2, p1, p2, s1[i], 0);
            let q = lemma_pmx_chase_settles(s1, s2, p1, p2, s1[j], 0);
            if res[i] == res[j] {
                lemma_pmx_chase_join(s1, s2, p1, p2, s1[i], s1[j], p, q);
            }
        } else if in_i {
            lemma_pmx_map(s1, s2, p1, p2, res[j]);
        } else {
            lemma_pmx_map(s1, s2, p1, p2, res[i]);
        }
    }
}

/// Copies a segment from the second parent and repairs the rest of the first
/// through the mapping between the two segments.
#[derive(Clone, Copy)]
pub struct PartiallyMatchedCrossover;

impl PartiallyMatchedCrossover {
    /// The operator.
    pub fn new() -> Self {
        PartiallyMatchedCrossover
    }

    /// Partially matched crossover over the segment `p1..p2`.
    pub fn cross_at(s1: &mut Solution, s2: &Solution, p1: usize, p2: usize)
        requires
            pmx_setting(old(s1)@, s2@, p1 as int, p2 as int),
        ensures
            final(s1)@ == partially_matched_crossover(old(s1)@, s2@, p1 as int, p2 as int),
    {
        let ghost s0 = s1@;
        let n = s1.data.len();
        let mut mapping: Vec<Option<usize>> = Vec::new();
        while mapping.len() < n
            invariant
                mapping.len() <= n,
                forall|v: int| 0 <= v < mapping.len() ==> mapping@[v] is None,
            decreases n - mapping.len(),
        {
            mapping.push(None);
        }
        let mut i = p1;
        while i < p2
            invariant
                s1@ == s0,
                n == s0.len(),
                pmx_setting(s0, s2@, p1 as int, p2 as int),
                p1 <= i <= p2,
                mapping.len() == n,
                forall|v: int| 0 <= v < n ==> #[trigger] mapping@[v] == pmx_map(s0, s2@, p1 as int, i as int, v as usize),
            decreases p2 - i,
        {
            let from = s2.data[i];
            let to = s1.data[i];
            mapping.set(from, Some(to));
            i += 1;
        }
        let mut i = p1;
        while i < p2
            invariant
                n == s0.len() == s1@.len(),
                pmx_setting(s0, s2@, p1 as int, p2 as int),
                p1 <= i <= p2,
                forall|k: int| 0 <= k < p1 || i <= k < n ==> s1@[k] == s0[k],
                forall|k: int| p1 <= k < i ==> s1@[k] == s2@[k],
            decreases p2 - i,
        {
            let v = s2.data[i];
            s1.data.set(i, v);
            i += 1;
        }
        let mut i: usize = 0;
        while i < n
            invariant
                n == s0.len() == s1@.len(),
                pmx_setting(s0, s2@, p1 as int, p2 as int),
                mapping.len() == n,
                forall|v: int| 0 <= v < n ==> #[trigger] mapping@[v] == pmx_map(s0, s2@, p1 as int, p2 as int, v as usize),
                i <= n,
                forall|k: int| i <= k < n && !(p1 <= k < p2) ==> s1@[k] == s0[k],
                forall|k: int| 0 <= k < n ==> #[trigger] s1@[k] == partially_matched_crossover(s0, s2@, p1 as int, p2 as int)[k] || (i <= k && !(p1 <= k < p2)),
            decreases n - i,
        {
            if i < p1 || i >= p2 {
                let ghost v = s0[i as int];
                let ghost mut steps: nat = 0;
                let ghost before = s1@;
                proof {
                    assert forall|j: int| p1 <= j < p2 implies s0[j] != v by {}
                    assert(pmx_defined(s0, s2@, p1 as int, p2 as int, v, 0));
                }
                while mapping[s1.data[i]].is_some()
                    invariant
                        n == s0.len() == s1@.len(),
                        pmx_setting(s0, s2@, p1 as int, p2 as int),
                        mapping.len() == n,
                        forall|w: int| 0 <= w < n ==> #[trigger] mapping@[w] == pmx_map(s0, s2@, p1 as int, p2 as int, w as usize),
                        i < n,
                        !(p1 <= i < p2),
                        v == s0[i as int],
                        forall|j: int| p1 <= j < p2 ==> s0[j] != v,
                        steps <= p2 - p1,
                        pmx_defined(s0, s2@, p1 as int, p2 as int, v, steps),
                        s1@[i as int] == pmx_chase(s0, s2@, p1 as int, p2 as int, v, steps),
                        s1@[i as int] < n,
                        before.len() == n,
                        forall|k: int| 0 <= k < n && k != i ==> s1@[k] == before[k],
                    decreases p2 - p1 - steps,
                {
                    proof {
                        lemma_pmx_chase_step(s0, s2@, p1 as int, p2 as int, v, steps);
                    }
                    let mapped = mapping[s1.data[i]].unwrap();
                    s1.data.set(i, mapped);
                    proof {
                        assert(pmx_defined(s0, s2@, p1 as int, p2 as int, v, steps + 1)) by {
                            assert forall|k: nat| k < steps + 1 implies #[trigger] pmx_map(s0, s2@, p1 as int, p2 as int, pmx_chase(s0, s2@, p1 as int, p2 as int, v, k)) is Some by {
                                if k < steps {
                                    assert(pmx_map(s0, s2@, p1 as int, p2 as int, pmx_chase(s0, s2@, p1 as int, p2 as int, v, k)) is Some);
                                }
                            }
                        }
                        lemma_pmx_chase_bounded(s0, s2@, p1 as int, p2 as int, v, steps + 1);
                        let c = pmx_chase(s0, s2@, p1 as int, p2 as int, v, steps);
                        lemma_pmx_map(s0, s2@, p1 as int, p2 as int, c);
                        steps = steps + 1;
                    }
                }
                proof {
                    lemma_pmx_chase_stuck(s0, s2@, p1 as int, p2 as int, v, steps, (p2 - p1) as nat);
                    assert(s1@[i as int] == partially_matched_crossover(s0, s2@, p1 as int, p2 as int)[i as int]);
                    assert forall|k: int| 0 <= k < n implies #[trigger] s1@[k] == partially_matched_crossover(s0, s2@, p1 as int, p2 as int)[k] || (i + 1 <= k && !(p1 <= k < p2)) by {
                        if k != i {
                            assert(s1@[k] == before[k]);
                        }
                    }
                }
            }
            i += 1;
        }
        proof {
            assert(s1@ =~= partially_matched_crossover(s0, s2@, p1 as int, p2 as int));
        }
    }
}

/// `r` is the partially matched crossover of `s1` with `s2` at some
/// `p1 < p2 < s1.len()`.
pub open spec fn pmx_result(s1: Seq<usize>, s2: Seq<usize>, r: Seq<usize>) -> bool {
    exists|p1: int, p2: int| 0 <= p1 < p2 < s1.len() && r == partially_matched_crossover(s1, s2, p1, p2)
}

impl BinaryOperator for PartiallyMatchedCrossover {
    open spec fn crossed(&self, s1: Seq<usize>, s2: Seq<usize>, r: Seq<usize>) -> bool {
        pmx_result(s1, s2, r)
    }

    open spec fn fewest_jobs(&self) -> nat {
        2
    }

    fn mutate(&self, rng: &mut StdRng, s1: &mut Solution, s2: &Solution) {
        proof {
            assert(s1@.len() >= self.fewest_jobs());
        }
        let n = s1.len();
        let p1 = random_in(rng, 0, n - 1);
        let p2 = random_in(rng, p1 + 1, n);
        proof {
            lemma_partially_matched_crossover_permutation(s1@, s2@, p1 as int, p2 as int);
        }
        let ghost s0 = s1@;
        PartiallyMatchedCrossover::cross_at(s1, s2, p1, p2);
        assert(pmx_result(s0, s2@, s1@)) by {
            assert(s1@ == partially_matched_crossover(s0, s2@, p1 as int, p2 as int));
        }
        assert(self.crossed(s0, s2@, s1@));
    }
}

/// The position in `s1` of the job that `s2` has at position `p`: following
/// it from position to position walks the cycles of cycle crossover.
#[verifier::opaque]
pub open spec fn cx_next(s1: Seq<usize>, s2: Seq<usize>, p: int) -> int {
    choose|j: int| 0 <= j < s1.len() && s1[j] == s2[p]
}

/// The position in `s2` of the job that `s1` has at position `q`.
#[verifier::opaque]
pub open spec fn cx_prev(s1: Seq<usize>, s2: Seq<usize>, q: int) -> int {
    choose|j: int| 0 <= j < s2.len() && s2[j] == s1[q]
}

/// The set of positions `c` is a union of cycles.
pub open spec fn cycle_closed(s1: Seq<usize>, s2: Seq<usize>, c: Set<int>) -> bool {
    forall|p: int| 0 <= p < s1.len() ==> (c.contains(p) <==> c.contains(#[trigger] cx_next(s1, s2, p)))
}

/// The positions of `c` take their job from `s2`, the others keep that of `s1`.
pub open spec fn cx_mix(s1: Seq<usize>, s2: Seq<usize>, c: Set<int>) -> Seq<usize> {
    Seq::new(s1.len(), |p: int| if c.contains(p) { s2[p] } else { s1[p] })
}

/// Closed under both walking directions, and made of positions.
pub open spec fn closed_both_ways(s1: Seq<usize>, s2: Seq<usize>, c: Set<int>) -> bool {
    &&& forall|p: int| #[trigger] c.contains(p) ==> 0 <= p < s1.len()
    &&& forall|p: int| c.contains(p) ==> c.contains(#[trigger] cx_next(s1, s2, p))
    &&& forall|p: int| c.contains(p) ==> c.contains(#[trigger] cx_prev(s1, s2, p))
}

/// The facts about walking the positions that the crossover relies on.
#[verifier::opaque]
pub open spec fn cx_walk_facts(s1: Seq<usize>, s2: Seq<usize>) -> bool {
    &&& forall|p: int| 0 <= p < s1.len() ==> {
        &&& 0 <= #[trigger] cx_next(s1, s2, p) < s1.len()
        &&& s1[cx_next(s1, s2, p)] == s2[p]
        &&& cx_prev(s1, s2, cx_next(s1, s2, p)) == p
    }
    &&& forall|q: int| 0 <= q < s1.len() ==> {
        &&& 0 <= #[trigger] cx_prev(s1, s2, q) < s1.len()
        &&& s2[cx_prev(s1, s2, q)] == s1[q]
        &&& cx_next(s1, s2, cx_prev(s1, s2, q)) == q
    }
    &&& forall|p: int, j: int| #![trigger s1[j], s2[p]] 0 <= p < s1.len() && 0 <= j < s1.len() && s1[j] == s2[p] ==> j == cx_next(s1, s2, p)
}

/// The step after a position.
pub proof fn lemma_next_at(s1: Seq<usize>, s2: Seq<usize>, p: int)
    requires
        cx_walk_facts(s1, s2),
        0 <= p < s1.len(),
    ensures
        0 <= cx_next(s1, s2, p) < s1.len(),
        s1[cx_next(s1, s2, p)] == s2[p],
        cx_prev(s1, s2, cx_next(s1, s2, p)) == p,
{
    reveal(cx_walk_facts);
}

/// Only one position steps to a given one.
pub proof fn lemma_next_unique(s1: Seq<usize>, s2: Seq<usize>, p: int, j: int)
    requires
        cx_walk_facts(s1, s2),
        0 <= p < s1.len(),
        0 <= j < s1.len(),
        s1[j] == s2[p],
    ensures
        j == cx_next(s1, s2, p),
{
    reveal(cx_walk_facts);
}

/// Walking the positions of two permutations: the steps forth and back undo each other.
pub proof fn lemma_cx_walk(s1: Seq<usize>, s2: Seq<usize>)
    requires
        s1.len() <= usize::MAX,
        is_permutation(s1, s1.len()),
        is_permutation(s2, s1.len()),
    ensures
        cx_walk_facts(s1, s2),
{
    reveal(cx_walk_facts);
    reveal(cx_next);
    reveal(cx_prev);
    let n = s1.len();
    lemma_permutation_by_count(s1, n);
    lemma_permutation_by_count(s2, n);
    assert forall|p: int| 0 <= p < n implies {
        &&& 0 <= #[trigger] cx_next(s1, s2, p) < s1.len()
        &&& s1[cx_next(s1, s2, p)] == s2[p]
    } by {
        assert(s1.contains(s2[p]));
    }
    assert forall|q: int| 0 <= q < n implies {
        &&& 0 <= #[trigger] cx_prev(s1, s2, q) < s1.len()
        &&& s2[cx_prev(s1, s2, q)] == s1[q]
    } by {
        assert(s2.contains(s1[q]));
    }
    assert forall|p: int| 0 <= p < n implies cx_prev(s1, s2, #[trigger] cx_next(s1, s2, p)) == p by {
        let j = cx_next(s1, s2, p);
        let k = cx_prev(s1, s2, j);
        assert(s2[k] == s1[j]);
    }
    assert forall|q: int| 0 <= q < n implies cx_next(s1, s2, #[trigger] cx_prev(s1, s2, q)) == q by {
        let j = cx_prev(s1, s2, q);
        let k = cx_next(s1, s2, j);
        assert(s1[k] == s2[j]);
    }
}

/// Mixing two permutations over a union of cycles gives a permutation.
pub proof fn lemma_cycle_crossover_permutation(s1: Seq<usize>, s2: Seq<usize>, c: Set<int>)
    requires
        s1.len() <= usize::MAX,
        is_permutation(s1, s1.len()),
        is_permutation(s2, s1.len()),
        cycle_closed(s1, s2, c),
    ensures
        is_permutation(cx_mix(s1, s2, c), s1.len()),
{
    let n = s1.len();
    let res = cx_mix(s1, s2, c);
    lemma_cx_walk(s1, s2);
    assert forall|i: int, j: int| 0 <= i < j < n implies res[i] != res[j] by {
        if c.contains(i) && !c.contains(j) {
            if s2[i] == s1[j] {
                lemma_next_unique(s1, s2, i, j);
            }
        } else if !c.contains(i) && c.contains(j) {
            if s1[i] == s2[j] {
                lemma_next_unique(s1, s2, j, i);
            }
        }
    }
}

/// The `j`-th position of the walk follows the previous one.
pub open spec fn walk_step(s1: Seq<usize>, s2: Seq<usize>, chain: Seq<int>, j: int) -> bool {
    chain[j] == cx_next(s1, s2, chain[j - 1])
}

/// A walk that starts at `start` and keeps following the cycle.
pub open spec fn is_walk_from(s1: Seq<usize>, s2: Seq<usize>, chain: Seq<int>, start: int) -> bool {
    &&& chain.len() > 0
    &&& chain[0] == start
    &&& forall|j: int| 1 <= j < chain.len() ==> #[trigger] walk_step(s1, s2, chain, j)
}

/// Two sets closed under the steps give a closed union.
pub proof fn lemma_union_closed(s1: Seq<usize>, s2: Seq<usize>, a: Set<int>, b: Set<int>)
    requires
        closed_both_ways(s1, s2, a),
        closed_both_ways(s1, s2, b),
    ensures
        closed_both_ways(s1, s2, a + b),
{
}

/// A walk that comes back to its start, outside a set closed both ways, is
/// closed both ways.
pub proof fn lemma_walk_closes(s1: Seq<usize>, s2: Seq<usize>, seen: Set<int>, chain: Seq<int>, start: int)
    requires
        cx_walk_facts(s1, s2),
        closed_both_ways(s1, s2, seen),
        is_walk_from(s1, s2, chain, start),
        chain.no_duplicates(),
        forall|j: int| 0 <= j < chain.len() ==> 0 <= #[trigger] chain[j] < s1.len() && !seen.contains(chain[j]),
        (seen + chain.to_set()).contains(cx_next(s1, s2, chain.last())),
    ensures
        cx_next(s1, s2, chain.last()) == start,
        closed_both_ways(s1, s2, chain.to_set()),
{
    let k = chain.len();
    let last = chain.last();
    let cp = cx_next(s1, s2, last);
    assert(chain[k - 1] == last);
    lemma_next_at(s1, s2, last);
    if seen.contains(cp) {
        assert(seen.contains(cx_prev(s1, s2, cp)));
        assert(false);
    }
    assert(chain.to_set().contains(cp));
    let a = choose|a: int| 0 <= a < k && chain[a] == cp;
    if a > 0 {
        assert(walk_step(s1, s2, chain, a));
        lemma_next_at(s1, s2, chain[a - 1]);
        assert(false);
    }
    assert forall|p: int| #[trigger] chain.to_set().contains(p) implies 0 <= p < s1.len()
        && chain.to_set().contains(cx_next(s1, s2, p)) && chain.to_set().contains(cx_prev(s1, s2, p)) by {
        let j = choose|j: int| 0 <= j < k && chain[j] == p;
        lemma_next_at(s1, s2, p);
        if j + 1 < k {
            assert(walk_step(s1, s2, chain, j + 1));
        } else {
            assert(chain[0] == cx_next(s1, s2, p));
        }
        if j > 0 {
            assert(walk_step(s1, s2, chain, j));
            lemma_next_at(s1, s2, chain[j - 1]);
            assert(chain.to_set().contains(chain[j - 1]));
        } else {
            assert(cx_prev(s1, s2, p) == last);
            assert(chain.to_set().contains(chain[k - 1]));
        }
    }
}

/// Marks the positions of the cycle that starts at `start` as visited and,
/// when `copy` holds, copies the jobs of `s2` at these positions.
#[verifier::rlimit(50)]
fn walk_cycle(
    s1: &mut Vec<usize>,
    s2: &Vec<usize>,
    positions: &Vec<usize>,
    visited: &mut Vec<bool>,
    start: usize,
    copy: bool,
    Ghost(s0): Ghost<Seq<usize>>,
    Ghost(seen): Ghost<Set<int>>,
) -> (chain: Ghost<Seq<int>>)
    requires
        s0.len() == old(s1)@.len() == s2@.len() == positions@.len() == old(visited)@.len(),
        cx_walk_facts(s0, s2@),
        forall|v: int| 0 <= v < s0.len() ==> {
            &&& #[trigger] positions@[v] < s0.len()
            &&& s0[positions@[v] as int] == v
        },
        forall|p: int| 0 <= p < s0.len() ==> #[trigger] s2@[p] < s0.len(),
        set_int_range(0, s0.len() as int).finite(),
        set_int_range(0, s0.len() as int).len() == s0.len(),
        seen.finite(),
        closed_both_ways(s0, s2@, seen),
        forall|p: int| 0 <= p < s0.len() ==> old(visited)@[p] == seen.contains(p),
        start < s0.len(),
        !seen.contains(start as int),
    ensures
        final(s1)@.len() == old(s1)@.len(),
        final(visited)@.len() == old(visited)@.len(),
        is_walk_from(s0, s2@, chain@, start as int),
        cx_next(s0, s2@, chain@.last()) == start as int,
        closed_both_ways(s0, s2@, chain@.to_set()),
        forall|p: int| #[trigger] chain@.to_set().contains(p) ==> !seen.contains(p),
        forall|p: int| 0 <= p < s0.len() ==> final(visited)@[p] == (seen.contains(p) || chain@.to_set().contains(p)),
        forall|p: int| 0 <= p < s0.len() ==> #[trigger] final(s1)@[p] == (if chain@.to_set().contains(p) && copy {
            s2@[p]
        } else {
            old(s1)@[p]
        }),
{
    let ghost n = s0.len();
    let ghost before = s1@;
    let ghost mut chain: Seq<int> = Seq::empty();
    let ghost mut all: Set<int> = seen;
    let mut cycle_pointer = start;
    proof {
        assert(seen.subset_of(set_int_range(0, n as int))) by {
            assert forall|p: int| seen.contains(p) implies set_int_range(0, n as int).contains(p) by {}
        }
        vstd::set_lib::lemma_len_subset(seen, set_int_range(0, n as int));
    }
    while !visited[cycle_pointer]
        invariant
            n == s0.len() == s1@.len() == before.len() == s2@.len() == positions@.len() == visited@.len(),
            cx_walk_facts(s0, s2@),
            forall|v: int| 0 <= v < n ==> {
                &&& #[trigger] positions@[v] < n
                &&& s0[positions@[v] as int] == v
            },
            forall|p: int| 0 <= p < n ==> #[trigger] s2@[p] < n,
            set_int_range(0, n as int).finite(),
            set_int_range(0, n as int).len() == n,
            closed_both_ways(s0, s2@, seen),
            start < n,
            !seen.contains(start as int),
            cycle_pointer < n,
            forall|p: int| 0 <= p < n ==> visited@[p] == all.contains(p),
            all.finite(),
            all.subset_of(set_int_range(0, n as int)),
            forall|p: int| #[trigger] all.contains(p) <==> seen.contains(p) || chain.contains(p),
            all.len() == seen.len() + chain.len(),
            chain.no_duplicates(),
            forall|j: int| 0 <= j < chain.len() ==> 0 <= #[trigger] chain[j] < n && !seen.contains(chain[j]),
            chain.len() == 0 ==> cycle_pointer == start,
            chain.len() > 0 ==> is_walk_from(s0, s2@, chain, start as int) && cycle_pointer == cx_next(s0, s2@, chain.last()),
            forall|p: int| 0 <= p < n ==> #[trigger] s1@[p] == (if chain.contains(p) && copy {
                s2@[p]
            } else {
                before[p]
            }),
        decreases n - all.len(),
    {
        visited.set(cycle_pointer, true);
        if copy {
            let v = s2[cycle_pointer];
            s1.set(cycle_pointer, v);
        }
        let next = positions[s2[cycle_pointer]];
        proof {
            let cp = cycle_pointer as int;
            assert(!all.contains(cp));
            let old_chain = chain;
            chain = chain.push(cp);
            all = all.insert(cp);
            assert forall|p: int| chain.contains(p) <==> old_chain.contains(p) || p == cp by {
                if chain.contains(p) {
                    let j = choose|j: int| 0 <= j < chain.len() && chain[j] == p;
                    if j < old_chain.len() {
                        assert(old_chain[j] == p);
                    }
                }
                if old_chain.contains(p) {
                    let j = choose|j: int| 0 <= j < old_chain.len() && old_chain[j] == p;
                    assert(chain[j] == p);
                }
                if p == cp {
                    assert(chain[chain.len() - 1] == p);
                }
            }
            lemma_next_unique(s0, s2@, cp, next as int);
            assert forall|j: int| 1 <= j < chain.len() implies #[trigger] walk_step(s0, s2@, chain, j) by {
                if j < old_chain.len() {
                    assert(walk_step(s0, s2@, old_chain, j));
                }
            }
            assert(chain.no_duplicates()) by {
                assert forall|a: int, b: int| 0 <= a < b < chain.len() implies chain[a] != chain[b] by {
                    if b == old_chain.len() {
                        assert(old_chain.contains(chain[a]));
                    }
                }
            }
            vstd::set_lib::lemma_len_subset(all, set_int_range(0, n as int));
        }
        cycle_pointer = next;
    }
    proof {
        assert(all.contains(cycle_pointer as int));
        assert((seen + chain.to_set()).contains(cx_next(s0, s2@, chain.last())));
        lemma_walk_closes(s0, s2@, seen, chain, start as int);
        assert forall|p: int| chain.to_set().contains(p) <==> chain.contains(p) by {}
        assert forall|p: int| 0 <= p < n implies visited@[p] == (seen.contains(p) || chain.to_set().contains(p)) by {
            assert(all.contains(p) <==> seen.contains(p) || chain.contains(p));
        }
    }
    Ghost(chain)
}

/// The position of each job in the permutation `s`.
fn positions_in(s: &Vec<usize>) -> (positions: Vec<usize>)
    requires
        is_permutation(s@, s@.len()),
    ensures
        positions@.len() == s@.len(),
        forall|v: int| 0 <= v < s@.len() ==> {
            &&& #[trigger] positions@[v] < s@.len()
            &&& s@[positions@[v] as int] == v
        },
{
    let n = s.len();
    proof {
        lemma_permutation_by_count(s@, n as nat);
    }
    let mut positions: Vec<usize> = Vec::new();
    while positions.len() < n
        invariant
            positions.len() <= n,
        decreases n - positions.len(),
    {
        positions.push(0);
    }
    let mut i: usize = 0;
    while i < n
        invariant
            n == s@.len(),
            is_permutation(s@, n as nat),
            i <= n,
            positions.len() == n,
            forall|v: int| 0 <= v < n && (exists|k: int| 0 <= k < i && s@[k] == v) ==> {
                &&& #[trigger] positions@[v] < n
                &&& s@[positions@[v] as int] == v
            },
        decreases n - i,
    {
        let v = s[i];
        positions.set(v, i);
        proof {
            assert forall|w: int| 0 <= w < n && (exists|k: int| 0 <= k < i + 1 && s@[k] == w) implies {
                &&& #[trigger] positions@[w] < n
                &&& s@[positions@[w] as int] == w
            } by {
                if w != v {
                    let k = choose|k: int| 0 <= k < i + 1 && s@[k] == w;
                    assert(k < i);
                }
            }
        }
        i += 1;
    }
    proof {
        assert forall|v: int| 0 <= v < n implies {
            &&& #[trigger] positions@[v] < n
            &&& s@[positions@[v] as int] == v
        } by {
            assert(s@.contains(v as usize));
            let k = choose|k: int| 0 <= k < n && s@[k] == v as usize;
        }
    }
    positions
}

/// Copies from the second parent the jobs of every other cycle of positions.
#[derive(Clone, Copy)]
pub struct CycleCrossover;

impl CycleCrossover {
    /// The operator.
    pub fn new() -> Self {
        CycleCrossover
    }

    /// Cycle crossover in which the cycle of the first position is copied
    /// exactly when `first_copied` holds.
    #[verifier::spinoff_prover]
    pub fn cross_with(s1: &mut Solution, s2: &Solution, first_copied: bool)
        requires
            old(s1)@.len() <= usize::MAX,
            is_permutation(old(s1)@, old(s1)@.len()),
            is_permutation(s2@, old(s1)@.len()),
        ensures
            exists|c: Set<int>|
                {
                    &&& #[trigger] cx_mix(old(s1)@, s2@, c) == final(s1)@
                    &&& cycle_closed(old(s1)@, s2@, c)
                    &&& alternating(old(s1)@, s2@, c)
                    &&& old(s1)@.len() > 0 ==> (c.contains(0) <==> first_copied)
                },
    {
        let ghost s0 = s1@;
        let Ghost(c) = CycleCrossover::cross_cycles(s1, s2, first_copied);
        proof {
            assert(cx_mix(s0, s2@, c) == s1@);
        }
    }

    /// Cycle crossover; returns the copied positions.
    #[verifier::rlimit(100)]
    #[verifier::spinoff_prover]
    fn cross_cycles(s1: &mut Solution, s2: &Solution, first_copied: bool) -> (copied_positions: Ghost<Set<int>>)
        requires
            old(s1)@.len() <= usize::MAX,
            is_permutation(old(s1)@, old(s1)@.len()),
            is_permutation(s2@, old(s1)@.len()),
        ensures
            cycle_closed(old(s1)@, s2@, copied_positions@),
            final(s1)@ == cx_mix(old(s1)@, s2@, copied_positions@),
            alternating(old(s1)@, s2@, copied_positions@),
            old(s1)@.len() > 0 ==> (copied_positions@.contains(0) <==> first_copied),
    {
        let ghost s0 = s1@;
        let n = s1.data.len();
        proof {
            lemma_cx_walk(s0, s2@);
            lemma_permutation_by_count(s0, n as nat);
            vstd::set_lib::lemma_int_range(0, n as int);
        }
        let mut visited: Vec<bool> = Vec::new();
        while visited.len() < n
            invariant
                visited.len() <= n,
                forall|p: int| 0 <= p < visited.len() ==> !visited@[p],
            decreases n - visited.len(),
        {
            visited.push(false);
        }
        let positions = positions_in(&s1.data);
        let mut copy_flag = first_copied;
        let ghost mut seen: Set<int> = Set::empty();
        let ghost mut copied: Set<int> = Set::empty();
        let ghost mut last: int = -1;
        proof {
            reveal(cx_round);
            lemma_alternation_start(s0, s2@, first_copied);
        }
        let mut i: usize = 0;
        while i < n
            invariant
                n == s0.len() == s1@.len() == s2@.len(),
                is_permutation(s2@, n as nat),
                cx_walk_facts(s0, s2@),
                positions.len() == n,
                forall|v: int| 0 <= v < n ==> {
                    &&& #[trigger] positions@[v] < n
                    &&& s0[positions@[v] as int] == v
                },
                set_int_range(0, n as int).finite(),
                set_int_range(0, n as int).len() == n,
                i <= n,
                visited.len() == n,
                cx_round(s0, s2@, s1@, visited@, seen, copied, i as int),
                cx_alternation(s0, s2@, seen, copied, i as int, last, copy_flag),
                n > 0 && seen.contains(0) ==> (copied.contains(0) <==> first_copied),
                n > 0 && !seen.contains(0) ==> copy_flag == first_copied,
            decreases n - i,
        {
            proof {
                lemma_cx_round_facts(s0, s2@, s1@, visited@, seen, copied, i as int);
            }
            if !visited[i] {
                proof {
                    assert forall|p: int| 0 <= p < n implies #[trigger] s2@[p] < n by {
                        lemma_permutation_by_count(s2@, n as nat);
                    }
                }
                let ghost cur = s1@;
                let ghost vis = visited@;
                let chain = walk_cycle(&mut s1.data, &s2.data, &positions, &mut visited, i, copy_flag, Ghost(s0), Ghost(seen));
                proof {
                    lemma_alternation_walk(s0, s2@, seen, copied, i as int, last, copy_flag, chain@);
                    last = i as int;
                    lemma_cx_round_walk(s0, s2@, cur, s1@, vis, visited@, seen, copied, chain@, copy_flag, i as int);
                    let cs = chain@.to_set();
                    if n > 0 && i == 0 {
                        assert(chain@[0] == 0);
                        assert(cs.contains(0));
                        assert(!seen.contains(0));
                        assert(!copied.contains(0));
                    }
                    if i > 0 {
                        assert(seen.contains(0));
                        assert(!cs.contains(0));
                    }
                    if copy_flag {
                        copied = copied + cs;
                    }
                    seen = seen + cs;
                }
                copy_flag = !copy_flag;
            } else {
                proof {
                    lemma_cx_round_skip(s0, s2@, s1@, visited@, seen, copied, i as int);
                    lemma_alternation_skip(s0, s2@, seen, copied, i as int, last, copy_flag);
                }
            }
            i += 1;
        }
        proof {
            lemma_cx_round_done(s0, s2@, s1@, visited@, seen, copied);
            lemma_alternation_done(s0, s2@, seen, copied, last, copy_flag);
        }
        Ghost(copied)
    }
}

/// Once every position is visited, the copied positions form whole cycles
/// and the schedule mixes the parents along them.
pub proof fn lemma_cx_round_done(
    s0: Seq<usize>,
    s2: Seq<usize>,
    cur: Seq<usize>,
    visited: Seq<bool>,
    seen: Set<int>,
    copied: Set<int>,
)
    requires
        cx_walk_facts(s0, s2),
        cx_round(s0, s2, cur, visited, seen, copied, s0.len() as int),
    ensures
        cycle_closed(s0, s2, copied),
        cur == cx_mix(s0, s2, copied),
        s0.len() > 0 ==> seen.contains(0),
{
    reveal(cx_round);
    let n = s0.len();
    assert forall|p: int| 0 <= p < n implies (copied.contains(p) <==> copied.contains(#[trigger] cx_next(s0, s2, p))) by {
        lemma_next_at(s0, s2, p);
        if copied.contains(cx_next(s0, s2, p)) {
            assert(copied.contains(cx_prev(s0, s2, cx_next(s0, s2, p))));
        }
    }
    assert(cur =~= cx_mix(s0, s2, copied));
}

/// The state of cycle crossover once the positions before `i` are visited.
#[verifier::opaque]
pub open spec fn cx_round(
    s0: Seq<usize>,
    s2: Seq<usize>,
    cur: Seq<usize>,
    visited: Seq<bool>,
    seen: Set<int>,
    copied: Set<int>,
    i: int,
) -> bool {
    let n = s0.len();
    &&& cur.len() == n
    &&& visited.len() == n
    &&& forall|p: int| 0 <= p < n ==> visited[p] == seen.contains(p)
    &&& forall|p: int| 0 <= p < i ==> seen.contains(p)
    &&& seen.finite()
    &&& closed_both_ways(s0, s2, seen)
    &&& closed_both_ways(s0, s2, copied)
    &&& copied.subset_of(seen)
    &&& forall|p: int| 0 <= p < n ==> #[trigger] cur[p] == (if copied.contains(p) { s2[p] } else { s0[p] })
}

/// What the state of cycle crossover tells once the positions before `i` are visited.
pub proof fn lemma_cx_round_facts(
    s0: Seq<usize>,
    s2: Seq<usize>,
    cur: Seq<usize>,
    visited: Seq<bool>,
    seen: Set<int>,
    copied: Set<int>,
    i: int,
)
    requires
        cx_round(s0, s2, cur, visited, seen, copied, i),
    ensures
        seen.finite(),
        closed_both_ways(s0, s2, seen),
        closed_both_ways(s0, s2, copied),
        copied.subset_of(seen),
        forall|p: int| 0 <= p < s0.len() ==> visited[p] == seen.contains(p),
        forall|p: int| 0 <= p < i ==> seen.contains(p),
{
    reveal(cx_round);
}

/// A position that is visited already is skipped.
pub proof fn lemma_cx_round_skip(
    s0: Seq<usize>,
    s2: Seq<usize>,
    cur: Seq<usize>,
    visited: Seq<bool>,
    seen: Set<int>,
    copied: Set<int>,
    i: int,
)
    requires
        cx_round(s0, s2, cur, visited, seen, copied, i),
        0 <= i < s0.len(),
        visited[i],
    ensures
        cx_round(s0, s2, cur, visited, seen, copied, i + 1),
{
    reveal(cx_round);
}

/// Walking the cycle of an unvisited position adds it whole, copied or not.
pub proof fn lemma_cx_round_walk(
    s0: Seq<usize>,
    s2: Seq<usize>,
    cur: Seq<usize>,
    new_cur: Seq<usize>,
    visited: Seq<bool>,
    new_visited: Seq<bool>,
    seen: Set<int>,
    copied: Set<int>,
    chain: Seq<int>,
    copy: bool,
    i: int,
)
    requires
        cx_round(s0, s2, cur, visited, seen, copied, i),
        0 <= i < s0.len(),
        !visited[i],
        set_int_range(0, s0.len() as int).finite(),
        new_cur.len() == s0.len(),
        new_visited.len() == s0.len(),
        chain.len() > 0,
        chain[0] == i,
        closed_both_ways(s0, s2, chain.to_set()),
        forall|p: int| #[trigger] chain.to_set().contains(p) ==> !seen.contains(p),
        forall|p: int| 0 <= p < s0.len() ==> new_visited[p] == (seen.contains(p) || chain.to_set().contains(p)),
        forall|p: int| 0 <= p < s0.len() ==> #[trigger] new_cur[p] == (if chain.to_set().contains(p) && copy {
            s2[p]
        } else {
            cur[p]
        }),
    ensures
        cx_round(
            s0,
            s2,
            new_cur,
            new_visited,
            seen + chain.to_set(),
            if copy { copied + chain.to_set() } else { copied },
            i + 1,
        ),
{
    reveal(cx_round);
    let n = s0.len();
    let cs = chain.to_set();
    let seen2 = seen + cs;
    let copied2 = if copy { copied + cs } else { copied };
    lemma_union_closed(s0, s2, seen, cs);
    if copy {
        lemma_union_closed(s0, s2, copied, cs);
    }
    assert(seen2.subset_of(set_int_range(0, n as int))) by {
        assert forall|p: int| seen2.contains(p) implies set_int_range(0, n as int).contains(p) by {}
    }
    vstd::set_lib::lemma_len_subset(seen2, set_int_range(0, n as int));
    assert(cs.contains(i)) by {
        assert(chain[0] == i);
    }
    assert forall|p: int| 0 <= p < n implies #[trigger] new_cur[p] == (if copied2.contains(p) { s2[p] } else { s0[p] }) by {
        if cs.contains(p) {
            assert(!copied.contains(p));
        }
    }
}

/// `r` mixes `s1` and `s2` along whole cycles, every other cycle copied.
pub open spec fn cx_result(s1: Seq<usize>, s2: Seq<usize>, r: Seq<usize>) -> bool {
    exists|c: Set<int>| cycle_closed(s1, s2, c) && r == cx_mix(s1, s2, c) && alternating(s1, s2, c)
}

impl BinaryOperator for CycleCrossover {
    open spec fn crossed(&self, s1: Seq<usize>, s2: Seq<usize>, r: Seq<usize>) -> bool {
        cx_result(s1, s2, r)
    }

    open spec fn fewest_jobs(&self) -> nat {
        0
    }

    fn mutate(&self, rng: &mut StdRng, s1: &mut Solution, s2: &Solution) {
        let copy_flag = random_ratio(rng, 1, 2);
        let n = s1.len();
        let ghost s0 = s1@;
        CycleCrossover::cross_with(s1, s2, copy_flag);
        proof {
            let c = choose|c: Set<int>|
                {
                    &&& #[trigger] cx_mix(s0, s2@, c) == s1@
                    &&& cycle_closed(s0, s2@, c)
                    &&& alternating(s0, s2@, c)
                    &&& s0.len() > 0 ==> (c.contains(0) <==> copy_flag)
                };
            lemma_cycle_crossover_permutation(s0, s2@, c);
            assert(cx_result(s0, s2@, s1@));
            assert(self.crossed(s0, s2@, s1@));
        }
    }
}

/// One of the crossovers that the genetic algorithm can apply.
#[derive(Clone, Copy)]
pub enum Crossover {
    Ordered(OrderedCrossover),
    PartiallyMatched(PartiallyMatchedCrossover),
    Cycle(CycleCrossover),
}

impl BinaryOperator for Crossover {
    open spec fn crossed(&self, s1: Seq<usize>, s2: Seq<usize>, r: Seq<usize>) -> bool {
        match self {
            Crossover::Ordered(_) => ox_result(s1, s2, r),
            Crossover::PartiallyMatched(_) => pmx_result(s1, s2, r),
            Crossover::Cycle(_) => cx_result(s1, s2, r),
        }
    }

    open spec fn fewest_jobs(&self) -> nat {
        match self {
            Crossover::Ordered(_) => 2,
            Crossover::PartiallyMatched(_) => 2,
            Crossover::Cycle(_) => 0,
        }
    }

    /// The crossover of the variant.
    fn mutate(&self, rng: &mut StdRng, s1: &mut Solution, s2: &Solution)
    {
        match self {
            Crossover::Ordered(op) => op.mutate(rng, s1, s2),
            Crossover::PartiallyMatched(op) => op.mutate(rng, s1, s2),
            Crossover::Cycle(op) => op.mutate(rng, s1, s2),
        }
    }
}

/// One of the mutations that the search procedures can apply.
#[derive(Clone, Copy)]
pub enum Mutation {
    Swap(SwapMutation),
    Inversion(InversionMutation),
}

impl UnaryOperator for Mutation {
    open spec fn mutated(&self, s: Seq<usize>, r: Seq<usize>) -> bool {
        match self {
            Mutation::Swap(_) => swap_result(s, r),
            Mutation::Inversion(_) => inversion_result(s, r),
        }
    }

    /// The mutation of the variant.
    fn mutate(&self, rng: &mut StdRng, s1: &mut Solution)
    {
        match self {
            Mutation::Swap(op) => op.mutate(rng, s1),
            Mutation::Inversion(op) => op.mutate(rng, s1),
        }
    }
}

} // verus!
