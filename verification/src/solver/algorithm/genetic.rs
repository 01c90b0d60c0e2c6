use rand::rngs::StdRng;
use std::ops::Range;
use vstd::prelude::*;

use crate::solver::algorithm::operators::{BinaryOperator, Crossover, Mutation, UnaryOperator};
use crate::solver::algorithm::selectors::{
    member_costs, population_evaluable, tournament_winner, Selector,
};
use crate::solver::evaluator::Evaluator;
use crate::solver::helpers::{random_in, select_idx_pair};
use crate::solver::population::{all_permutations, Population};
use crate::solver::problem::Time;
use crate::solver::solution::{
    identity_order, is_permutation, lemma_identity_is_permutation, lemma_permutation_by_count,
    lemma_same_multiset_permutation, Solution,
};
use crate::solver::algorithm::operators::lemma_swapped_multiset;

verus! {

/// Member `a` comes before member `b` in the ranking: a lower evaluation, or
/// the same evaluation and an earlier position.
pub open spec fn ranked_before(times: Seq<u64>, a: usize, b: usize) -> bool {
    times[a as int] < times[b as int] || (times[a as int] == times[b as int] && a < b)
}

/// `order` lists the members by increasing evaluation; members with the same
/// evaluation keep their order (a stable sort).
pub open spec fn is_ranking(times: Seq<u64>, order: Seq<usize>) -> bool {
    &&& is_permutation(order, times.len())
    &&& forall|x: int, y: int| 0 <= x < y < order.len() ==> ranked_before(times, #[trigger] order[x], #[trigger] order[y])
}

/// The evaluations of the members, in population order.
pub open spec fn evaluation_times<E: Evaluator>(e: E, members: Seq<Solution>) -> Seq<u64> {
    Seq::new(members.len(), |i: int| e.evaluation(members[i]@) as u64)
}

/// The positions of the members, ranked by their times.
pub fn rank_by_time(times: &Vec<Time>) -> (order: Vec<usize>)
    ensures
        is_ranking(times@, order@),
{
    let n = times.len();
    let mut order: Vec<usize> = Vec::new();
    let mut k: usize = 0;
    while k < n
        invariant
            k <= n,
            order@ == identity_order(k as nat),
        decreases n - k,
    {
        order.push(k);
        k += 1;
    }
    proof {
        lemma_identity_is_permutation(n as nat);
    }
    let ghost id = order@;
    let mut i: usize = 1;
    while i < n
        invariant
            n == times@.len() == order@.len(),
            id == identity_order(n as nat),
            is_permutation(id, n as nat),
            order@.to_multiset() == id.to_multiset(),
            forall|x: int| 0 <= x < n ==> #[trigger] order@[x] < n,
            1 <= i || n == 0,
            forall|x: int, y: int| 0 <= x < y < i && y < n ==> ranked_before(times@, #[trigger] order@[x], #[trigger] order@[y]),
        decreases n - i,
    {
        let mut j = i;
        while j > 0 && (times[order[j]] < times[order[j - 1]] || (times[order[j]] == times[order[j - 1]] && order[j] < order[j - 1]))
            invariant
                n == times@.len() == order@.len(),
                is_permutation(id, n as nat),
                order@.to_multiset() == id.to_multiset(),
                forall|x: int| 0 <= x < n ==> #[trigger] order@[x] < n,
                0 <= j <= i < n,
                forall|x: int, y: int| 0 <= x < y < j ==> ranked_before(times@, #[trigger] order@[x], #[trigger] order@[y]),
                forall|x: int, y: int| j < x < y <= i ==> ranked_before(times@, #[trigger] order@[x], #[trigger] order@[y]),
                forall|x: int, y: int| 0 <= x < j && j < y <= i ==> ranked_before(times@, #[trigger] order@[x], #[trigger] order@[y]),
                forall|y: int| j < y <= i ==> ranked_before(times@, order@[j as int], #[trigger] order@[y]),
            decreases j,
        {
            proof {
                lemma_swapped_multiset(order@, j as int, (j - 1) as int);
            }
            let a = order[j];
            let b = order[j - 1];
            order.set(j, b);
            order.set(j - 1, a);
            j -= 1;
        }
        proof {
            assert forall|x: int, y: int| 0 <= x < y < i + 1 && y < n implies ranked_before(times@, #[trigger] order@[x], #[trigger] order@[y]) by {
                if x < j && y == j {
                    if x < j - 1 {
                        assert(ranked_before(times@, order@[x], order@[j - 1]));
                    }
                    assert(order@[j - 1] != order@[j as int]) by {
                        lemma_same_multiset_permutation(id, order@, n as nat);
                    }
                }
            }
        }
        i += 1;
    }
    proof {
        lemma_same_multiset_permutation(id, order@, n as nat);
    }
    order
}

/// Evaluates every member of the population, in order.
pub fn evaluate_all<E: Evaluator>(population: &Population, evaluator: &mut E) -> (times: Vec<Time>)
    requires
        old(evaluator).well_formed(),
        population_evaluable(*old(evaluator), population.data@),
        old(evaluator).evaluations_made() + population.data@.len() <= u64::MAX,
    ensures
        final(evaluator).well_formed(),
        forall|o: Seq<usize>| #[trigger] final(evaluator).evaluable(o) == old(evaluator).evaluable(o),
        forall|o: Seq<usize>| #[trigger] final(evaluator).evaluation(o) == old(evaluator).evaluation(o),
        old(evaluator).evaluations_made() <= final(evaluator).evaluations_made() <= old(
            evaluator,
        ).evaluations_made() + population.data@.len(),
        times@.len() == population.data@.len(),
        forall|i: int| 0 <= i < times@.len() ==> #[trigger] times@[i] == old(evaluator).evaluation(population.data@[i]@),
{
    let ghost e0 = *evaluator;
    let ghost start = evaluator.evaluations_made();
    let mut times: Vec<Time> = Vec::new();
    let mut i: usize = 0;
    while i < population.data.len()
        invariant
            i <= population.data@.len(),
            evaluator.well_formed(),
            forall|o: Seq<usize>| #[trigger] evaluator.evaluable(o) == e0.evaluable(o),
            forall|o: Seq<usize>| #[trigger] evaluator.evaluation(o) == e0.evaluation(o),
            population_evaluable(e0, population.data@),
            start <= evaluator.evaluations_made() <= start + i,
            start + population.data@.len() <= u64::MAX,
            times@.len() == i,
            forall|k: int| 0 <= k < i ==> #[trigger] times@[k] == e0.evaluation(population.data@[k]@),
        decreases population.data@.len() - i,
    {
        let t = evaluator.evaluate(&population.data[i]);
        times.push(t);
        i += 1;
    }
    times
}

/// The `elite_count` best members of the population (all of them when it is
/// smaller), best first, with ties kept in population order.
pub fn select_elite<E: Evaluator>(population: &Population, evaluator: &mut E, elite_count: usize) -> (elite: Vec<Solution>)
    requires
        old(evaluator).well_formed(),
        population_evaluable(*old(evaluator), population.data@),
        old(evaluator).evaluations_made() + population.data@.len() <= u64::MAX,
    ensures
        final(evaluator).well_formed(),
        forall|o: Seq<usize>| #[trigger] final(evaluator).evaluable(o) == old(evaluator).evaluable(o),
        forall|o: Seq<usize>| #[trigger] final(evaluator).evaluation(o) == old(evaluator).evaluation(o),
        old(evaluator).evaluations_made() <= final(evaluator).evaluations_made() <= old(
            evaluator,
        ).evaluations_made() + population.data@.len(),
        exists|order: Seq<usize>|
            {
                &&& #[trigger] is_ranking(evaluation_times(*old(evaluator), population.data@), order)
                &&& elite@.len() == (if elite_count < population.data@.len() {
                    elite_count as int
                } else {
                    population.data@.len() as int
                })
                &&& forall|k: int| 0 <= k < elite@.len() ==> (#[trigger] elite@[k])@ == population.data@[order[k] as int]@
            },
{
    let ghost e0 = *evaluator;
    let times = evaluate_all(population, evaluator);
    let order = rank_by_time(&times);
    let n = population.data.len();
    let count = if elite_count < n {
        elite_count
    } else {
        n
    };
    let mut elite: Vec<Solution> = Vec::new();
    let mut k: usize = 0;
    while k < count
        invariant
            count <= n == population.data@.len() == order@.len(),
            forall|x: int| 0 <= x < n ==> #[trigger] order@[x] < n,
            k <= count,
            elite@.len() == k,
            forall|x: int| 0 <= x < k ==> (#[trigger] elite@[x])@ == population.data@[order@[x] as int]@,
        decreases count - k,
    {
        elite.push(population.data[order[k]].clone());
        k += 1;
    }
    proof {
        assert(times@ =~= evaluation_times(e0, population.data@));
    }
    elite
}

/// `member` has the jobs of one of the members of `members`.
pub open spec fn drawn_from(member: Solution, members: Seq<Solution>) -> bool {
    exists|j: int| 0 <= j < members.len() && member@ == members[j]@
}

/// Fills `next` with parents picked from `population` until it is as large.
pub fn select_parents<S: Selector, E: Evaluator>(
    selection: &S,
    rng: &mut StdRng,
    population: &Population,
    next: &mut Population,
    evaluator: &mut E,
)
    requires
        selection.ready(),
        old(next).data@.len() < population.data@.len() ==> population.data@.len() > 0,
        old(evaluator).well_formed(),
        population_evaluable(*old(evaluator), population.data@),
        old(evaluator).evaluations_made() + population.data@.len() * population.data@.len() <= u64::MAX,
    ensures
        final(evaluator).well_formed(),
        forall|o: Seq<usize>| #[trigger] final(evaluator).evaluable(o) == old(evaluator).evaluable(o),
        forall|o: Seq<usize>| #[trigger] final(evaluator).evaluation(o) == old(evaluator).evaluation(o),
        final(next).data@.len() == (if old(next).data@.len() < population.data@.len() {
            population.data@.len() as int
        } else {
            old(next).data@.len() as int
        }),
        final(next).data@.take(old(next).data@.len() as int) == old(next).data@,
        forall|i: int|
            old(next).data@.len() <= i < final(next).data@.len() ==> drawn_from(
                #[trigger] final(next).data@[i],
                population.data@,
            ),
        forall|i: int|
            old(next).data@.len() <= i < final(next).data@.len() ==> selection.picks(
                population.data@,
                member_costs(*old(evaluator), population.data@),
                (#[trigger] final(next).data@[i])@,
            ),
{
    let ghost e0 = *evaluator;
    let ghost start = evaluator.evaluations_made();
    let ghost old_next = next.data@;
    let ghost len = population.data@.len();
    let ghost mut rounds: nat = 0;
    while next.len() < population.len()
        invariant
            selection.ready(),
            len == population.data@.len(),
            next.data@.len() < len ==> len > 0,
            evaluator.well_formed(),
            forall|o: Seq<usize>| #[trigger] evaluator.evaluable(o) == e0.evaluable(o),
            forall|o: Seq<usize>| #[trigger] evaluator.evaluation(o) == e0.evaluation(o),
            population_evaluable(e0, population.data@),
            start + len * len <= u64::MAX,
            evaluator.evaluations_made() <= start + rounds * len,
            next.data@.len() == old_next.len() + rounds,
            old_next.len() < len ==> next.data@.len() <= len,
            old_next.len() >= len ==> rounds == 0,
            next.data@.take(old_next.len() as int) == old_next,
            forall|i: int|
                old_next.len() <= i < next.data@.len() ==> drawn_from(#[trigger] next.data@[i], population.data@),
            forall|i: int|
                old_next.len() <= i < next.data@.len() ==> selection.picks(
                    population.data@,
                    member_costs(e0, population.data@),
                    (#[trigger] next.data@[i])@,
                ),
        decreases len - next.data@.len(),
    {
        proof {
            assert(rounds < len);
            assert(start + rounds * len + len <= start + len * len) by (nonlinear_arith)
                requires rounds < len;
        }
        let ghost e_round = *evaluator;
        let parent = selection.select(rng, population, evaluator);
        let ghost before = next.data@;
        next.push(parent.clone());
        proof {
            assert(member_costs(e_round, population.data@) =~= member_costs(e0, population.data@));
            assert forall|i: int| old_next.len() <= i < next.data@.len() implies selection.picks(
                population.data@,
                member_costs(e0, population.data@),
                (#[trigger] next.data@[i])@,
            ) by {
                if i < before.len() {
                    assert(next.data@[i] == before[i]);
                }
            }
            let j = choose|j: int| 0 <= j < len && population.data@[j] == *parent;
            assert(next.data@[before.len() as int]@ == population.data@[j]@);
            assert forall|i: int| old_next.len() <= i < next.data@.len() implies drawn_from(#[trigger] next.data@[i], population.data@) by {
                if i < before.len() {
                    assert(next.data@[i] == before[i]);
                }
            }
            assert(next.data@.take(old_next.len() as int) =~= old_next) by {
                assert(next.data@.take(old_next.len() as int) =~= before.take(old_next.len() as int));
            }
            assert(start + rounds * len + len == start + (rounds + 1) * len) by (nonlinear_arith);
            rounds = rounds + 1;
        }
    }
}

/// Every member of `members` is a permutation of the jobs `0..jobs_amount`,
/// and the first `elite_count` members are those of `elite`.
pub open spec fn keeps_elite(members: Seq<Solution>, elite: Seq<Solution>, elite_count: int) -> bool {
    forall|i: int| 0 <= i < elite_count ==> #[trigger] members[i] == elite[i]
}

/// One application of crossover `op` to `before`: the member at a position
/// `i` after the first `elite` is replaced by what `op` makes of it with the
/// member at another such position `j`; the other members stay.
pub open spec fn crossover_step<B: BinaryOperator>(
    op: B,
    before: Seq<Solution>,
    after: Seq<Solution>,
    elite: int,
) -> bool {
    exists|i: int, j: int|
        {
            &&& elite <= i < before.len()
            &&& elite <= j < before.len()
            &&& i != j
            &&& after.len() == before.len()
            &&& op.crossed(before[i]@, before[j]@, after[i]@)
            &&& forall|k: int| 0 <= k < before.len() && k != i ==> after[k] == before[k]
        }
}

/// The step of `trail` from its `t`-th population to the next is one
/// application of `op`.
pub open spec fn crossover_trail_step<B: BinaryOperator>(
    op: B,
    trail: Seq<Seq<Solution>>,
    t: int,
    elite: int,
) -> bool {
    crossover_step(op, trail[t], trail[t + 1], elite)
}

/// `after` comes from `before` by `count` applications of crossover `op`.
pub open spec fn crossover_run<B: BinaryOperator>(
    op: B,
    before: Seq<Solution>,
    after: Seq<Solution>,
    elite: int,
    count: nat,
) -> bool {
    exists|trail: Seq<Seq<Solution>>|
        {
            &&& trail.len() == count + 1
            &&& trail[0] == before
            &&& trail[count as int] == after
            &&& forall|t: int| 0 <= t < count ==> #[trigger] crossover_trail_step(op, trail, t, elite)
        }
}

/// One application of mutation `op` to `before`: the member at a position
/// after the first `elite` is replaced by what `op` makes of it; the other
/// members stay.
pub open spec fn mutation_step<U: UnaryOperator>(
    op: U,
    before: Seq<Solution>,
    after: Seq<Solution>,
    elite: int,
) -> bool {
    exists|i: int|
        {
            &&& elite <= i < before.len()
            &&& after.len() == before.len()
            &&& op.mutated(before[i]@, after[i]@)
            &&& forall|k: int| 0 <= k < before.len() && k != i ==> after[k] == before[k]
        }
}

/// The step of `trail` from its `t`-th population to the next is one
/// application of `op`.
pub open spec fn mutation_trail_step<U: UnaryOperator>(
    op: U,
    trail: Seq<Seq<Solution>>,
    t: int,
    elite: int,
) -> bool {
    mutation_step(op, trail[t], trail[t + 1], elite)
}

/// `after` comes from `before` by `count` applications of mutation `op`.
pub open spec fn mutation_run<U: UnaryOperator>(
    op: U,
    before: Seq<Solution>,
    after: Seq<Solution>,
    elite: int,
    count: nat,
) -> bool {
    exists|trail: Seq<Seq<Solution>>|
        {
            &&& trail.len() == count + 1
            &&& trail[0] == before
            &&& trail[count as int] == after
            &&& forall|t: int| 0 <= t < count ==> #[trigger] mutation_trail_step(op, trail, t, elite)
        }
}

/// Applies a crossover `effect_count` times, each time to two distinct
/// members drawn at random after the elite; the first of them is replaced by
/// its recombination with the second.
pub fn perform_binary_op<B: BinaryOperator>(
    op: &B,
    rng: &mut StdRng,
    next: &mut Population,
    elite_count: usize,
    effect_count: usize,
    jobs_amount: usize,
)
    requires
        all_permutations(old(next).data@, jobs_amount as nat),
        effect_count > 0 ==> elite_count + 1 < old(next).data@.len() && op.fewest_jobs() <= jobs_amount,
    ensures
        final(next).data@.len() == old(next).data@.len(),
        keeps_elite(final(next).data@, old(next).data@, elite_count as int),
        all_permutations(final(next).data@, jobs_amount as nat),
        crossover_run(*op, old(next).data@, final(next).data@, elite_count as int, effect_count as nat),
{
    let ghost members_before = next.data@;
    let ghost mut trail: Seq<Seq<Solution>> = seq![members_before];
    let mut k: usize = 0;
    while k < effect_count
        invariant
            next.data@.len() == members_before.len(),
            effect_count > 0 ==> elite_count + 1 < members_before.len() && op.fewest_jobs() <= jobs_amount,
            keeps_elite(next.data@, members_before, elite_count as int),
            all_permutations(next.data@, jobs_amount as nat),
            k <= effect_count,
            trail.len() == k + 1,
            trail[0] == members_before,
            trail[k as int] == next.data@,
            forall|t: int| 0 <= t < k ==> #[trigger] crossover_trail_step(*op, trail, t, elite_count as int),
        decreases effect_count - k,
    {
        let len = next.len();
        let (idx1, idx2) = select_idx_pair(rng, Range { start: elite_count, end: len });
        let p2 = next.data[idx2].clone();
        let mut p1 = next.data[idx1].clone();
        proof {
            assert(is_permutation(next.data@[idx1 as int]@, jobs_amount as nat));
            assert(is_permutation(next.data@[idx2 as int]@, jobs_amount as nat));
        }
        let ghost p1_before = p1@;
        op.mutate(rng, &mut p1, &p2);
        let ghost before = next.data@;
        next.data.set(idx1, p1);
        proof {
            let old_trail = trail;
            trail = trail.push(next.data@);
            assert(crossover_step(*op, before, next.data@, elite_count as int)) by {
                assert(p1_before == before[idx1 as int]@);
                assert(op.crossed(before[idx1 as int]@, before[idx2 as int]@, next.data@[idx1 as int]@));
                assert forall|j: int| 0 <= j < before.len() && j != idx1 implies next.data@[j] == before[j] by {}
            }
            assert forall|t: int| 0 <= t < k + 1 implies #[trigger] crossover_trail_step(*op, trail, t, elite_count as int) by {
                if t < k {
                    assert(crossover_trail_step(*op, old_trail, t, elite_count as int));
                    assert(trail[t] == old_trail[t]);
                    assert(trail[t + 1] == old_trail[t + 1]);
                }
            }
            assert forall|i: int| 0 <= i < next.data@.len() implies is_permutation(#[trigger] next.data@[i]@, jobs_amount as nat) by {
                if i != idx1 {
                    assert(next.data@[i] == before[i]);
                }
            }
            assert forall|i: int| 0 <= i < elite_count implies #[trigger] next.data@[i] == members_before[i] by {
                assert(next.data@[i] == before[i]);
            }
        }
        k += 1;
    }
    proof {
        assert(crossover_run(*op, members_before, next.data@, elite_count as int, effect_count as nat)) by {
            assert(trail[effect_count as int] == next.data@);
        }
    }
}

/// Applies a mutation `effect_count` times, each time to a member drawn at
/// random after the elite.
pub fn perform_unary_op<U: UnaryOperator>(
    op: &U,
    rng: &mut StdRng,
    next: &mut Population,
    elite_count: usize,
    effect_count: usize,
    jobs_amount: usize,
)
    requires
        all_permutations(old(next).data@, jobs_amount as nat),
        effect_count > 0 ==> elite_count < old(next).data@.len() && jobs_amount >= 2,
    ensures
        final(next).data@.len() == old(next).data@.len(),
        keeps_elite(final(next).data@, old(next).data@, elite_count as int),
        all_permutations(final(next).data@, jobs_amount as nat),
        mutation_run(*op, old(next).data@, final(next).data@, elite_count as int, effect_count as nat),
{
    let ghost members_before = next.data@;
    let ghost mut trail: Seq<Seq<Solution>> = seq![members_before];
    let mut k: usize = 0;
    while k < effect_count
        invariant
            next.data@.len() == members_before.len(),
            effect_count > 0 ==> elite_count < members_before.len() && jobs_amount >= 2,
            trail.len() == k + 1,
            trail[0] == members_before,
            trail[k as int] == next.data@,
            forall|t: int| 0 <= t < k ==> #[trigger] mutation_trail_step(*op, trail, t, elite_count as int),
            keeps_elite(next.data@, members_before, elite_count as int),
            all_permutations(next.data@, jobs_amount as nat),
            k <= effect_count,
        decreases effect_count - k,
    {
        let non_elite_len = next.len() - elite_count;
        let idx = elite_count + random_in(rng, 0, non_elite_len);
        let mut p = next.data[idx].clone();
        proof {
            assert(is_permutation(next.data@[idx as int]@, jobs_amount as nat));
        }
        let ghost p0 = p@;
        op.mutate(rng, &mut p);
        proof {
            lemma_same_multiset_permutation(p0, p@, jobs_amount as nat);
        }
        let ghost before = next.data@;
        next.data.set(idx, p);
        proof {
            let old_trail = trail;
            trail = trail.push(next.data@);
            assert(mutation_step(*op, before, next.data@, elite_count as int)) by {
                assert(p0 == before[idx as int]@);
                assert(op.mutated(before[idx as int]@, next.data@[idx as int]@));
                assert forall|j: int| 0 <= j < before.len() && j != idx implies next.data@[j] == before[j] by {}
            }
            assert forall|t: int| 0 <= t < k + 1 implies #[trigger] mutation_trail_step(*op, trail, t, elite_count as int) by {
                if t < k {
                    assert(mutation_trail_step(*op, old_trail, t, elite_count as int));
                    assert(trail[t] == old_trail[t]);
                    assert(trail[t + 1] == old_trail[t + 1]);
                }
            }
            assert forall|i: int| 0 <= i < next.data@.len() implies is_permutation(#[trigger] next.data@[i]@, jobs_amount as nat) by {
                if i != idx {
                    assert(next.data@[i] == before[i]);
                }
            }
            assert forall|i: int| 0 <= i < elite_count implies #[trigger] next.data@[i] == members_before[i] by {
                assert(next.data@[i] == before[i]);
            }
        }
        k += 1;
    }
    proof {
        assert(mutation_run(*op, members_before, next.data@, elite_count as int, effect_count as nat)) by {
            assert(trail[effect_count as int] == next.data@);
        }
    }
}

/// The members of `next` up to `count` are the best members of `population`,
/// best first, ties in population order.
pub open spec fn starts_with_elite<E: Evaluator>(
    e: E,
    population: Seq<Solution>,
    next: Seq<Solution>,
    count: int,
) -> bool {
    exists|order: Seq<usize>|
        {
            &&& #[trigger] is_ranking(evaluation_times(e, population), order)
            &&& forall|k: int| 0 <= k < count ==> (#[trigger] next[k])@ == population[order[k] as int]@
        }
}

/// One generation of the genetic algorithm: the `elite_count` best members
/// pass on unchanged, the other places are filled with parents picked by
/// `selection`, and then each crossover and each mutation is applied as many
/// times as its count says, to members after the elite.
pub fn evolution_cycle<S: Selector, E: Evaluator>(
    population: &Population,
    evaluator: &mut E,
    selection: &S,
    rng: &mut StdRng,
    elite_count: usize,
    crossovers: &Vec<(Crossover, usize)>,
    mutations: &Vec<(Mutation, usize)>,
    jobs_amount: usize,
) -> (next: Population)
    requires
        population.data@.len() > 0,
        all_permutations(population.data@, jobs_amount as nat),
        selection.ready(),
        old(evaluator).well_formed(),
        population_evaluable(*old(evaluator), population.data@),
        old(evaluator).evaluations_made() + population.data@.len() + population.data@.len()
            * population.data@.len() <= u64::MAX,
        forall|i: int|
            0 <= i < crossovers@.len() && (#[trigger] crossovers@[i]).1 > 0 ==> elite_count + 1
                < population.data@.len() && crossovers@[i].0.fewest_jobs() <= jobs_amount,
        forall|i: int|
            0 <= i < mutations@.len() && (#[trigger] mutations@[i]).1 > 0 ==> elite_count
                < population.data@.len() && jobs_amount >= 2,
    ensures
        final(evaluator).well_formed(),
        forall|o: Seq<usize>| #[trigger] final(evaluator).evaluable(o) == old(evaluator).evaluable(o),
        forall|o: Seq<usize>| #[trigger] final(evaluator).evaluation(o) == old(evaluator).evaluation(o),
        next.data@.len() == population.data@.len(),
        all_permutations(next.data@, jobs_amount as nat),
        starts_with_elite(
            *old(evaluator),
            population.data@,
            next.data@,
            if elite_count < population.data@.len() {
                elite_count as int
            } else {
                population.data@.len() as int
            },
        ),
        exists|chosen: Seq<Solution>|
            {
                &&& chosen.len() == population.data@.len()
                &&& starts_with_elite(
                    *old(evaluator),
                    population.data@,
                    chosen,
                    if elite_count < population.data@.len() {
                        elite_count as int
                    } else {
                        population.data@.len() as int
                    },
                )
                &&& forall|k: int|
                    (if elite_count < population.data@.len() {
                        elite_count as int
                    } else {
                        population.data@.len() as int
                    }) <= k < chosen.len() ==> drawn_from(#[trigger] chosen[k], population.data@)
                        && selection.picks(
                        population.data@,
                        member_costs(*old(evaluator), population.data@),
                        chosen[k]@,
                    )
                &&& operators_applied(crossovers@, mutations@, chosen, next.data@, elite_count as int)
            },
{
    let ghost e0 = *evaluator;
    let ghost len = population.data@.len();
    let mut next = Population::empty();
    let elite = select_elite(population, evaluator, elite_count);
    let ghost elite_view = elite@;
    next.extend(elite);
    let ghost count: int = elite_view.len() as int;
    proof {
        assert(next.data@ =~= elite_view);
        assert(population.data@.len() * population.data@.len() >= 0) by (nonlinear_arith);
    }
    let ghost e_parents = *evaluator;
    select_parents(selection, rng, population, &mut next, evaluator);
    proof {
        assert(member_costs(e_parents, population.data@) =~= member_costs(e0, population.data@));
        assert forall|i: int| 0 <= i < next.data@.len() implies is_permutation(
            #[trigger] next.data@[i]@,
            jobs_amount as nat,
        ) by {
            if i < count {
                assert(next.data@[i] == next.data@.take(count)[i]);
                let order = choose|order: Seq<usize>|
                    {
                        &&& #[trigger] is_ranking(evaluation_times(e0, population.data@), order)
                        &&& elite_view.len() == count
                        &&& forall|k: int| 0 <= k < elite_view.len() ==> (#[trigger] elite_view[k])@ == population.data@[order[k] as int]@
                    };
                assert(elite_view[i]@ == population.data@[order[i] as int]@);
                assert(order[i] < len);
            } else {
                let j = choose|j: int| 0 <= j < len && next.data@[i]@ == population.data@[j]@;
                assert(is_permutation(population.data@[j]@, jobs_amount as nat));
            }
        }
        assert(next.data@.take(count) == elite_view);
    }
    let ghost chosen = next.data@;
    apply_operators(rng, &mut next, elite_count, crossovers, mutations, jobs_amount);
    proof {
        let order = choose|order: Seq<usize>|
            {
                &&& #[trigger] is_ranking(evaluation_times(e0, population.data@), order)
                &&& elite_view.len() == count
                &&& forall|k: int| 0 <= k < elite_view.len() ==> (#[trigger] elite_view[k])@ == population.data@[order[k] as int]@
            };
        assert forall|k: int| 0 <= k < count implies (#[trigger] next.data@[k])@ == population.data@[order[k] as int]@ by {
            assert(next.data@[k] == chosen[k]);
            assert(chosen[k] == chosen.take(count)[k]);
            assert(elite_view[k]@ == population.data@[order[k] as int]@);
        }
        assert forall|k: int| 0 <= k < count implies (#[trigger] chosen[k])@ == population.data@[order[k] as int]@ by {
            assert(chosen[k] == chosen.take(count)[k]);
            assert(elite_view[k]@ == population.data@[order[k] as int]@);
        }
        assert(starts_with_elite(e0, population.data@, chosen, count));
        assert(chosen.len() == population.data@.len());
        assert(forall|k: int| count <= k < chosen.len() ==> drawn_from(#[trigger] chosen[k], population.data@)
            && selection.picks(population.data@, member_costs(e0, population.data@), chosen[k]@));
        assert(operators_applied(crossovers@, mutations@, chosen, next.data@, elite_count as int));
    }
    next
}

/// Whether a run goes on with another generation: fewer evaluations than
/// `max_ffe` were made, and the count cannot overflow during the generation,
/// which evaluates at most `2 len + len * len` schedules for a population of
/// `len` members (the generation itself, then its best member and its spread).
pub fn continues_evolution(eval_count: u64, max_ffe: u64, population_len: usize) -> (r: bool)
    ensures
        r == (eval_count < max_ffe && eval_count + 2 * population_len + population_len * population_len
            <= u64::MAX),
{
    if eval_count >= max_ffe {
        return false;
    }
    let len = population_len as u128;
    if len > 0xFFFF_FFFFu128 {
        proof {
            assert(len * len > 0xFFFF_FFFF_FFFF_FFFFu128) by (nonlinear_arith)
                requires len > 0xFFFF_FFFFu128;
        }
        return false;
    }
    proof {
        assert(len * len <= 0xFFFF_FFFFu128 * 0xFFFF_FFFFu128) by (nonlinear_arith)
            requires len <= 0xFFFF_FFFFu128;
    }
    eval_count as u128 + 2 * len + len * len <= u64::MAX as u128
}

/// The position of the best member of a non-empty population: the lowest
/// evaluation, the first one among equals.
pub fn best_member<E: Evaluator>(population: &Population, evaluator: &mut E) -> (w: usize)
    requires
        population.data@.len() > 0,
        old(evaluator).well_formed(),
        population_evaluable(*old(evaluator), population.data@),
        old(evaluator).evaluations_made() + population.data@.len() <= u64::MAX,
    ensures
        final(evaluator).well_formed(),
        forall|o: Seq<usize>| #[trigger] final(evaluator).evaluable(o) == old(evaluator).evaluable(o),
        forall|o: Seq<usize>| #[trigger] final(evaluator).evaluation(o) == old(evaluator).evaluation(o),
        final(evaluator).evaluations_made() <= old(evaluator).evaluations_made() + population.data@.len(),
        w < population.data@.len(),
        forall|i: int|
            0 <= i < population.data@.len() ==> old(evaluator).evaluation(population.data@[w as int]@)
                <= old(evaluator).evaluation(#[trigger] population.data@[i]@),
        forall|i: int|
            0 <= i < w ==> old(evaluator).evaluation(population.data@[w as int]@) < old(
                evaluator,
            ).evaluation(#[trigger] population.data@[i]@),
{
    let n = population.data.len();
    let mut pool: Vec<usize> = Vec::new();
    let mut k: usize = 0;
    while k < n
        invariant
            k <= n,
            n == population.data@.len(),
            pool@ == identity_order(k as nat),
        decreases n - k,
    {
        pool.push(k);
        k += 1;
    }
    let w = tournament_winner(population, evaluator, &pool);
    proof {
        assert forall|i: int| 0 <= i < population.data@.len() implies evaluator_le(
            *old(evaluator),
            population.data@[w as int]@,
            #[trigger] population.data@[i]@,
        ) by {
            assert(pool@[i] == i);
        }
        assert forall|i: int| 0 <= i < w implies evaluator_lt(
            *old(evaluator),
            population.data@[w as int]@,
            #[trigger] population.data@[i]@,
        ) by {
            assert(pool@[i] == i);
        }
    }
    w
}

/// The first schedule costs no more than the second.
pub open spec fn evaluator_le<E: Evaluator>(e: E, a: Seq<usize>, b: Seq<usize>) -> bool {
    e.evaluation(a) <= e.evaluation(b)
}

/// The first schedule costs less than the second.
pub open spec fn evaluator_lt<E: Evaluator>(e: E, a: Seq<usize>, b: Seq<usize>) -> bool {
    e.evaluation(a) < e.evaluation(b)
}

/// The best schedule that a run has found so far, and its evaluation.
pub struct RunBest {
    pub solution: Solution,
    pub time: Time,
}

impl RunBest {
    /// Nothing found yet: `first` stands in, with the highest time.
    pub fn new(first: Solution) -> (r: Self)
        ensures
            r.solution@ == first@,
            r.time == u64::MAX,
    {
        RunBest { solution: first, time: u64::MAX }
    }

    /// Keeps `candidate` where it is strictly better than the best so far.
    pub fn offer(&mut self, candidate: &Solution, time: Time)
        ensures
            time < old(self).time ==> final(self).solution@ == candidate@ && final(self).time
                == time,
            time >= old(self).time ==> final(self).solution@ == old(self).solution@
                && final(self).time == old(self).time,
            final(self).time <= old(self).time,
    {
        if time < self.time {
            self.solution = candidate.clone();
            self.time = time;
        }
    }
}

/// Stage `c` of `stages` turns into the next by the `c`-th crossover of
/// `crossovers`, applied as many times as its count says.
pub open spec fn crossover_stage(
    crossovers: Seq<(Crossover, usize)>,
    stages: Seq<Seq<Solution>>,
    c: int,
    elite: int,
) -> bool {
    crossover_run(crossovers[c].0, stages[c], stages[c + 1], elite, crossovers[c].1 as nat)
}

/// Stage `first + u` of `stages` turns into the next by the `u`-th mutation
/// of `mutations`, applied as many times as its count says.
pub open spec fn mutation_stage(
    mutations: Seq<(Mutation, usize)>,
    stages: Seq<Seq<Solution>>,
    first: int,
    u: int,
    elite: int,
) -> bool {
    mutation_run(mutations[u].0, stages[first + u], stages[first + u + 1], elite, mutations[u].1 as nat)
}

/// `after` comes from `before` by each crossover of `crossovers` in turn and
/// then each mutation of `mutations` in turn, each applied as many times as
/// its count says to members after the first `elite`.
pub open spec fn operators_applied(
    crossovers: Seq<(Crossover, usize)>,
    mutations: Seq<(Mutation, usize)>,
    before: Seq<Solution>,
    after: Seq<Solution>,
    elite: int,
) -> bool {
    exists|stages: Seq<Seq<Solution>>|
        {
            &&& stages.len() == crossovers.len() + mutations.len() + 1
            &&& stages[0] == before
            &&& stages[crossovers.len() + mutations.len() as int] == after
            &&& forall|c: int| 0 <= c < crossovers.len() ==> #[trigger] crossover_stage(crossovers, stages, c, elite)
            &&& forall|u: int|
                0 <= u < mutations.len() ==> #[trigger] mutation_stage(
                    mutations,
                    stages,
                    crossovers.len() as int,
                    u,
                    elite,
                )
        }
}

/// Applies each crossover and then each mutation as many times as its count
/// says, to members after the first `elite_count`.
pub fn apply_operators(
    rng: &mut StdRng,
    next: &mut Population,
    elite_count: usize,
    crossovers: &Vec<(Crossover, usize)>,
    mutations: &Vec<(Mutation, usize)>,
    jobs_amount: usize,
)
    requires
        all_permutations(old(next).data@, jobs_amount as nat),
        forall|i: int|
            0 <= i < crossovers@.len() && (#[trigger] crossovers@[i]).1 > 0 ==> elite_count + 1
                < old(next).data@.len() && crossovers@[i].0.fewest_jobs() <= jobs_amount,
        forall|i: int|
            0 <= i < mutations@.len() && (#[trigger] mutations@[i]).1 > 0 ==> elite_count
                < old(next).data@.len() && jobs_amount >= 2,
    ensures
        final(next).data@.len() == old(next).data@.len(),
        all_permutations(final(next).data@, jobs_amount as nat),
        keeps_elite(final(next).data@, old(next).data@, elite_count as int),
        operators_applied(crossovers@, mutations@, old(next).data@, final(next).data@, elite_count as int),
{
    let ghost chosen = next.data@;
    let ghost len = chosen.len();
    let ghost mut stages: Seq<Seq<Solution>> = seq![chosen];
    let mut c: usize = 0;
    while c < crossovers.len()
        invariant
            next.data@.len() == len,
            chosen.len() == len,
            all_permutations(next.data@, jobs_amount as nat),
            keeps_elite(next.data@, chosen, elite_count as int),
            forall|i: int|
                0 <= i < crossovers@.len() && (#[trigger] crossovers@[i]).1 > 0 ==> elite_count + 1
                    < len && crossovers@[i].0.fewest_jobs() <= jobs_amount,
            c <= crossovers@.len(),
            stages.len() == c + 1,
            stages[0] == chosen,
            stages[c as int] == next.data@,
            forall|t: int| 0 <= t < c ==> #[trigger] crossover_stage(crossovers@, stages, t, elite_count as int),
        decreases crossovers@.len() - c,
    {
        let (op, times) = crossovers[c];
        proof {
            assert(crossovers@[c as int].1 == times);
        }
        let ghost before = next.data@;
        perform_binary_op(&op, rng, next, elite_count, times, jobs_amount);
        proof {
            assert forall|i: int| 0 <= i < elite_count implies #[trigger] next.data@[i] == chosen[i] by {
                assert(next.data@[i] == before[i]);
            }
            let old_stages = stages;
            stages = stages.push(next.data@);
            assert forall|t: int| 0 <= t < c + 1 implies #[trigger] crossover_stage(crossovers@, stages, t, elite_count as int) by {
                if t < c {
                    assert(crossover_stage(crossovers@, old_stages, t, elite_count as int));
                    assert(stages[t] == old_stages[t]);
                    assert(stages[t + 1] == old_stages[t + 1]);
                } else {
                    assert(stages[t] == before);
                    assert(crossovers@[t].0 == op);
                }
            }
        }
        c += 1;
    }
    let mut u: usize = 0;
    while u < mutations.len()
        invariant
            next.data@.len() == len,
            chosen.len() == len,
            all_permutations(next.data@, jobs_amount as nat),
            keeps_elite(next.data@, chosen, elite_count as int),
            forall|i: int|
                0 <= i < mutations@.len() && (#[trigger] mutations@[i]).1 > 0 ==> elite_count < len && jobs_amount >= 2,
            u <= mutations@.len(),
            stages.len() == crossovers@.len() + u + 1,
            stages[0] == chosen,
            stages[crossovers@.len() + u as int] == next.data@,
            forall|t: int| 0 <= t < crossovers@.len() ==> #[trigger] crossover_stage(crossovers@, stages, t, elite_count as int),
            forall|t: int|
                0 <= t < u ==> #[trigger] mutation_stage(
                    mutations@,
                    stages,
                    crossovers@.len() as int,
                    t,
                    elite_count as int,
                ),
        decreases mutations@.len() - u,
    {
        let (op, times) = mutations[u];
        proof {
            assert(mutations@[u as int].1 == times);
        }
        let ghost before = next.data@;
        perform_unary_op(&op, rng, next, elite_count, times, jobs_amount);
        proof {
            assert forall|i: int| 0 <= i < elite_count implies #[trigger] next.data@[i] == chosen[i] by {
                assert(next.data@[i] == before[i]);
            }
            let first = crossovers@.len() as int;
            let old_stages = stages;
            stages = stages.push(next.data@);
            assert forall|t: int| 0 <= t < first implies #[trigger] crossover_stage(crossovers@, stages, t, elite_count as int) by {
                assert(crossover_stage(crossovers@, old_stages, t, elite_count as int));
                assert(stages[t] == old_stages[t]);
                assert(stages[t + 1] == old_stages[t + 1]);
            }
            assert forall|t: int| 0 <= t < u + 1 implies #[trigger] mutation_stage(mutations@, stages, first, t, elite_count as int) by {
                if t < u {
                    assert(mutation_stage(mutations@, old_stages, first, t, elite_count as int));
                    assert(stages[first + t] == old_stages[first + t]);
                    assert(stages[first + t + 1] == old_stages[first + t + 1]);
                } else {
                    assert(stages[first + t] == before);
                    assert(mutations@[t].0 == op);
                }
            }
        }
        u += 1;
    }
    proof {
        assert(operators_applied(crossovers@, mutations@, chosen, next.data@, elite_count as int)) by {
            assert(stages[crossovers@.len() + mutations@.len() as int] == next.data@);
        }
    }
}

/// Elitism keeps the best: where a generation starts with at least one elite
/// member, its first member is a member of the previous generation with the
/// lowest evaluation, so the best evaluation of the generation is no worse
/// than that of the previous one.
pub proof fn lemma_elite_is_best<E: Evaluator>(
    e: E,
    population: Seq<Solution>,
    next: Seq<Solution>,
    count: int,
)
    requires
        starts_with_elite(e, population, next, count),
        count >= 1,
        population.len() >= 1,
        next.len() >= 1,
        population.len() <= usize::MAX,
    ensures
        exists|b: int|
            0 <= b < population.len() && next[0]@ == population[b]@ && forall|i: int|
                0 <= i < population.len() ==> evaluation_times(e, population)[b]
                    <= #[trigger] evaluation_times(e, population)[i],
        forall|i: int|
            0 <= i < population.len() ==> evaluation_times(e, next)[0]
                <= #[trigger] evaluation_times(e, population)[i],
{
    let times = evaluation_times(e, population);
    let order = choose|order: Seq<usize>|
        {
            &&& #[trigger] is_ranking(evaluation_times(e, population), order)
            &&& forall|k: int| 0 <= k < count ==> (#[trigger] next[k])@ == population[order[k] as int]@
        };
    let n = population.len();
    lemma_permutation_by_count(order, n);
    let b = order[0] as int;
    assert(next[0]@ == population[b]@);
    assert forall|i: int| 0 <= i < n implies times[b] <= #[trigger] times[i] by {
        assert(order.contains(i as usize));
        let x = choose|x: int| 0 <= x < order.len() && order[x] == i as usize;
        if x > 0 {
            assert(ranked_before(times, order[0], order[x]));
        }
    }
    assert(evaluation_times(e, next)[0] == times[b]);
}

} // verus!
