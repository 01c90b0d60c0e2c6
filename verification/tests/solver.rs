use pfsp_solver::solver::algorithm::genetic::{
    evaluate_all, perform_binary_op, perform_unary_op, rank_by_time, select_elite,
    select_parents,
};
use pfsp_solver::solver::algorithm::greedy::{build_greedy_solution, try_build_greedy_solution};
use pfsp_solver::solver::algorithm::operators::{
    BinaryOperator, CycleCrossover, InversionMutation, OrderedCrossover,
    PartiallyMatchedCrossover, SwapMutation, UnaryOperator,
};
use pfsp_solver::solver::algorithm::selectors::{tournament_winner, Roulette, Selector, Tournament};
use pfsp_solver::solver::evaluator::{Evaluator, TFTEvaluator};
use pfsp_solver::solver::helpers::{get_rng, select_idx_pair};
use pfsp_solver::solver::population::{Population, MIN_POPULATION_SIZE};
use pfsp_solver::solver::problem::{Problem, ProblemParseError, Time};
use pfsp_solver::solver::solution::Solution;
use pfsp_solver::solver::algorithm::genetic::{
    apply_operators, best_member, continues_evolution, evolution_cycle, RunBest,
};
use pfsp_solver::solver::algorithm::operators::{Crossover, Mutation};

const INSTANCE: &str = "jobs machines seed upper lower
3 2 42 30 - 
processing times
3 2 1
2 4 1
";

fn times() -> Vec<Vec<Time>> {
    vec![vec![3, 2, 1], vec![2, 4, 1]]
}

fn is_permutation(data: &[usize], n: usize) -> bool {
    let mut seen = vec![false; n];
    if data.len() != n {
        return false;
    }
    for &j in data {
        if j >= n || seen[j] {
            return false;
        }
        seen[j] = true;
    }
    true
}

#[test]
fn parse_reads_a_whole_instance() {
    let p = Problem::parse(INSTANCE).unwrap();
    assert_eq!(p.jobs_number, 3);
    assert_eq!(p.machines_number, 2);
    assert_eq!(p.initial_seed, Some(42));
    assert_eq!(p.upper_bound, Some(30));
    assert_eq!(p.lower_bound, None);
    assert_eq!(p.processing_times, times());
    assert!(p.is_valid());
}

#[test]
fn parse_accepts_crlf_and_a_plus_sign() {
    let text = "h\r\n+2 1 - - +7\r\nh\r\n5 +6\r\n";
    let p = Problem::parse(text).unwrap();
    assert_eq!(p.jobs_number, 2);
    assert_eq!(p.machines_number, 1);
    assert_eq!(p.initial_seed, None);
    assert_eq!(p.lower_bound, Some(7));
    assert_eq!(p.processing_times, vec![vec![5, 6]]);
}

fn parse_error(text: &str) -> ProblemParseError {
    match Problem::parse(text) {
        Ok(_) => panic!("the instance was accepted"),
        Err(e) => e,
    }
}

#[test]
fn parse_reports_each_error() {
    assert_eq!(parse_error(""), ProblemParseError::MissingParametersHeader);
    assert_eq!(parse_error("h\n"), ProblemParseError::MissingParameters);
    assert_eq!(parse_error("h\n1 2 3\n"), ProblemParseError::WrongParameterCount);
    assert_eq!(parse_error("h\nx 2 - - -\n"), ProblemParseError::InvalidJobsNumber);
    assert_eq!(parse_error("h\n0 2 - - -\n"), ProblemParseError::NonPositiveJobsNumber);
    assert_eq!(parse_error("h\n3 -1 - - -\n"), ProblemParseError::InvalidMachinesNumber);
    assert_eq!(parse_error("h\n3 0 - - -\n"), ProblemParseError::NonPositiveMachinesNumber);
    assert_eq!(parse_error("h\n3 2 x - -\n"), ProblemParseError::InvalidInitialSeed);
    assert_eq!(parse_error("h\n3 2 - 1.5 -\n"), ProblemParseError::InvalidUpperBound);
    assert_eq!(parse_error("h\n3 2 - - ab\n"), ProblemParseError::InvalidLowerBound);
    assert_eq!(parse_error("h\n3 2 - - -\n"), ProblemParseError::MissingProcessingTimesHeader);
    assert_eq!(
        parse_error("h\n3 2 - - -\nh\n1 2 3\n"),
        ProblemParseError::MissingProcessingTimesLine
    );
    assert_eq!(
        parse_error("h\n3 1 - - -\nh\n1 x 3\n"),
        ProblemParseError::InvalidProcessingTime
    );
    assert_eq!(
        parse_error("h\n3 1 - - -\nh\n1 2\n"),
        ProblemParseError::WrongProcessingTimesWidth
    );
}

#[test]
fn parse_error_messages() {
    assert_eq!(
        ProblemParseError::WrongParameterCount.message(),
        "Expected exactly 5 problem parameters"
    );
    assert_eq!(
        ProblemParseError::MissingProcessingTimesLine.message(),
        "Processing times line was expected"
    );
}

#[test]
fn parse_rejects_a_seed_beyond_u64() {
    assert_eq!(
        parse_error("h\n3 2 18446744073709551616 - -\n"),
        ProblemParseError::InvalidInitialSeed
    );
    let p = Problem::parse("h\n1 1 18446744073709551615 - -\nh\n4\n").unwrap();
    assert_eq!(p.initial_seed, Some(u64::MAX));
}

#[test]
fn validity_of_an_instance() {
    let mut p = Problem::parse(INSTANCE).unwrap();
    p.jobs_number = 0;
    assert!(!p.is_valid());
}

#[test]
fn total_flow_time_of_a_schedule() {
    let s = Solution::new(vec![0, 1, 2]);
    assert_eq!(s.total_flow_time(&times()), 24);
    let s = Solution::new(vec![2, 1, 0]);
    // job 2: 1, 2; job 1: 3, 7; job 0: 6, 9
    assert_eq!(s.total_flow_time(&times()), 18);
    assert_eq!(Solution::empty().total_flow_time(&times()), 0);
}

#[test]
fn checked_total_flow_time_detects_overflow() {
    let pt = vec![vec![u64::MAX, 1]];
    let s = Solution::new(vec![1, 0]);
    assert_eq!(s.checked_total_flow_time(&pt), None);
    let s = Solution::new(vec![1]);
    assert_eq!(s.checked_total_flow_time(&pt), Some(1));
}

#[test]
fn graph_data_gives_the_intervals() {
    let s = Solution::new(vec![0, 1, 2]);
    let data = s.graph_data(&times());
    assert_eq!(data, vec![vec![(0, 3), (3, 5), (5, 6)], vec![(3, 5), (5, 9), (9, 10)]]);
}

#[test]
fn validity_of_schedules() {
    assert!(Solution::new(vec![2, 0, 1]).is_valid(3));
    assert!(!Solution::new(vec![2, 0]).is_valid(3));
    assert!(Solution::new(vec![2, 0]).is_loosely_valid(3));
    assert!(!Solution::new(vec![2, 2]).is_loosely_valid(3));
    assert!(!Solution::new(vec![3]).is_loosely_valid(3));
    assert!(Solution::empty().is_valid(0));
    assert_eq!(Solution::new(vec![4, 1]).len(), 2);
}

#[test]
fn parse_of_a_schedule() {
    assert_eq!(Solution::parse(" 2 0\t1\n").unwrap().data, vec![2, 0, 1]);
    assert_eq!(Solution::parse("+3").unwrap().data, vec![3]);
    assert_eq!(Solution::parse("").unwrap().data, Vec::<usize>::new());
    assert!(Solution::parse("1 -2").is_none());
    assert!(Solution::parse("1,2").is_none());
}

#[test]
fn random_schedules_are_permutations() {
    let mut rng = get_rng(Some(7));
    for n in 0..6 {
        let s = Solution::random(&mut rng, n);
        assert!(is_permutation(&s.data, n));
    }
}

#[test]
fn seeded_generators_repeat() {
    let mut a = get_rng(Some(11));
    let mut b = get_rng(Some(11));
    let sa = Solution::random(&mut a, 8);
    let sb = Solution::random(&mut b, 8);
    assert_eq!(sa.data, sb.data);
}

#[test]
fn index_pairs_are_distinct_and_in_range() {
    let mut rng = get_rng(Some(3));
    for _ in 0..50 {
        let (a, b) = select_idx_pair(&mut rng, 2..5);
        assert!(a != b);
        assert!((2..5).contains(&a) && (2..5).contains(&b));
    }
}

#[test]
fn evaluator_counts_distinct_schedules() {
    let mut e = TFTEvaluator::new(times());
    assert_eq!(e.eval_count(), 0);
    assert_eq!(e.evaluate(&Solution::new(vec![0, 1, 2])), 24);
    assert_eq!(e.eval_count(), 1);
    assert_eq!(e.evaluate(&Solution::new(vec![0, 1, 2])), 24);
    assert_eq!(e.eval_count(), 1);
    assert_eq!(e.evaluate(&Solution::new(vec![2, 1, 0])), 18);
    assert_eq!(e.eval_count(), 2);
    e.reset_cache();
    assert_eq!(e.evaluate(&Solution::new(vec![0, 1, 2])), 24);
    assert_eq!(e.eval_count(), 3);
}

#[test]
fn evaluator_refuses_what_it_cannot_cover() {
    let mut e = TFTEvaluator::new(times());
    assert_eq!(e.try_evaluate(&Solution::new(vec![0, 3])), None);
    let mut big = TFTEvaluator::new(vec![vec![u64::MAX / 2, u64::MAX / 2]]);
    assert_eq!(big.try_evaluate(&Solution::new(vec![0, 1])), None);
    assert_eq!(big.eval_count(), 0);
}

#[test]
fn greedy_builds_the_cheapest_extensions() {
    let mut e = TFTEvaluator::new(times());
    let s = build_greedy_solution(3, &mut e);
    // Alone, job 2 ends at 2, job 0 at 5, job 1 at 6; then after job 2, job 1
    // gives 2 + 7 and job 0 gives 2 + 6; the last is job 1.
    assert_eq!(s.data, vec![2, 0, 1]);
    assert_eq!(e.eval_count(), 6);
}

#[test]
fn greedy_on_no_jobs() {
    let mut e = TFTEvaluator::new(times());
    assert!(build_greedy_solution(0, &mut e).data.is_empty());
}

#[test]
fn swap_and_inversion_at_given_places() {
    let mut s = Solution::new(vec![0, 1, 2, 3, 4]);
    SwapMutation::swap_at(&mut s, 0, 3);
    assert_eq!(s.data, vec![3, 1, 2, 0, 4]);
    let mut s = Solution::new(vec![0, 1, 2, 3, 4]);
    InversionMutation::invert_at(&mut s, 1, 4);
    assert_eq!(s.data, vec![0, 3, 2, 1, 4]);
}

#[test]
fn ordered_crossover_at_given_places() {
    let mut s1 = Solution::new(vec![0, 1, 2, 3, 4]);
    let s2 = Solution::new(vec![4, 3, 2, 1, 0]);
    OrderedCrossover::cross_at(&mut s1, &s2, 1, 3);
    assert_eq!(s1.data, vec![3, 1, 2, 0, 4]);
}

#[test]
fn partially_matched_crossover_at_given_places() {
    let mut s1 = Solution::new(vec![0, 1, 2, 3, 4]);
    let s2 = Solution::new(vec![4, 3, 2, 1, 0]);
    PartiallyMatchedCrossover::cross_at(&mut s1, &s2, 1, 3);
    assert_eq!(s1.data, vec![0, 3, 2, 1, 4]);
    let mut s1 = Solution::new(vec![1, 2, 3, 4, 0]);
    let s2 = Solution::new(vec![3, 4, 0, 1, 2]);
    PartiallyMatchedCrossover::cross_at(&mut s1, &s2, 0, 2);
    // segment 3 4 from the second parent; 1 -> 3 -> ... chases to 1's image
    assert!(is_permutation(&s1.data, 5));
    assert_eq!(&s1.data[0..2], &[3, 4]);
    assert_eq!(s1.data, vec![3, 4, 1, 2, 0]);
}

#[test]
fn cycle_crossover_copies_alternate_cycles() {
    let mut s1 = Solution::new(vec![0, 1, 2, 3]);
    let s2 = Solution::new(vec![1, 0, 3, 2]);
    CycleCrossover::cross_with(&mut s1, &s2, true);
    assert_eq!(s1.data, vec![1, 0, 2, 3]);
    let mut s1 = Solution::new(vec![0, 1, 2, 3]);
    CycleCrossover::cross_with(&mut s1, &s2, false);
    assert_eq!(s1.data, vec![0, 1, 3, 2]);
}

#[test]
fn random_operators_keep_permutations() {
    let mut rng = get_rng(Some(5));
    for _ in 0..30 {
        let mut a = Solution::random(&mut rng, 7);
        let b = Solution::random(&mut rng, 7);
        SwapMutation::new().mutate(&mut rng, &mut a);
        assert!(is_permutation(&a.data, 7));
        InversionMutation::new().mutate(&mut rng, &mut a);
        assert!(is_permutation(&a.data, 7));
        OrderedCrossover::new().mutate(&mut rng, &mut a, &b);
        assert!(is_permutation(&a.data, 7));
        PartiallyMatchedCrossover::new().mutate(&mut rng, &mut a, &b);
        assert!(is_permutation(&a.data, 7));
        CycleCrossover::new().mutate(&mut rng, &mut a, &b);
        assert!(is_permutation(&a.data, 7));
    }
}

#[test]
fn population_basics() {
    let mut p = Population::empty();
    assert_eq!(p.len(), 0);
    assert!(!p.is_valid());
    p.push(Solution::new(vec![0]));
    p.extend(vec![Solution::new(vec![0]), Solution::new(vec![0]), Solution::new(vec![0])]);
    assert_eq!(p.len(), MIN_POPULATION_SIZE);
    assert!(p.is_valid());
    p.clear();
    assert_eq!(p.len(), 0);
    let q = Population::new(vec![Solution::new(vec![1, 0])]);
    assert_eq!(q.len(), 1);
}

#[test]
fn random_population_of_permutations() {
    let mut rng = get_rng(Some(9));
    let p = Population::random(&mut rng, 6, 5);
    assert_eq!(p.len(), 6);
    for s in &p.data {
        assert!(is_permutation(&s.data, 5));
    }
}

#[test]
fn ranking_is_stable() {
    assert_eq!(rank_by_time(&vec![5, 3, 5, 1]), vec![3, 1, 0, 2]);
    assert_eq!(rank_by_time(&vec![]), Vec::<usize>::new());
}

fn small_population() -> Population {
    Population::new(vec![
        Solution::new(vec![0, 1, 2]),
        Solution::new(vec![2, 1, 0]),
        Solution::new(vec![1, 0, 2]),
        Solution::new(vec![2, 0, 1]),
    ])
}

#[test]
fn evaluations_and_elite() {
    let p = small_population();
    let mut e = TFTEvaluator::new(times());
    let all = evaluate_all(&p, &mut e);
    // 1 0 2: job 1 ends at 6, job 0 at 8, job 2 at 9 -> 23
    // 2 0 1: 2, 6, 10 -> 18
    assert_eq!(all, vec![24, 18, 23, 18]);
    let elite = select_elite(&p, &mut e, 3);
    let orders: Vec<Vec<usize>> = elite.iter().map(|s| s.data.clone()).collect();
    assert_eq!(orders, vec![vec![2, 1, 0], vec![2, 0, 1], vec![1, 0, 2]]);
    assert_eq!(select_elite(&p, &mut e, 10).len(), 4);
    assert_eq!(p.data[2].clone().data, vec![1, 0, 2]);
}

#[test]
fn tournament_picks_the_best_of_its_pool() {
    let p = small_population();
    let mut e = TFTEvaluator::new(times());
    assert_eq!(tournament_winner(&p, &mut e, &vec![0, 2]), 2);
    assert_eq!(tournament_winner(&p, &mut e, &vec![2, 3, 1]), 3);
    let t = Tournament::new(4);
    assert_eq!(t.size, 4);
    let mut rng = get_rng(Some(1));
    let w = t.select(&mut rng, &p, &mut e);
    assert_eq!(e.evaluate(w), 18);
    assert_eq!(t.name(), "Tournament");
    let _ = Roulette::new();
}

#[test]
fn parents_fill_the_next_population() {
    let p = small_population();
    let mut e = TFTEvaluator::new(times());
    let mut rng = get_rng(Some(2));
    let mut next = Population::new(vec![Solution::new(vec![0, 1, 2])]);
    select_parents(&Tournament::new(2), &mut rng, &p, &mut next, &mut e);
    assert_eq!(next.len(), 4);
    assert_eq!(next.data[0].data, vec![0, 1, 2]);
    for s in &next.data[1..] {
        assert!(p.data.iter().any(|m| m.data == s.data));
    }
}

#[test]
fn operators_spare_the_elite() {
    let mut rng = get_rng(Some(4));
    let mut next = Population::random(&mut rng, 6, 5);
    let elite = next.data[0].data.clone();
    perform_binary_op(&OrderedCrossover::new(), &mut rng, &mut next, 1, 10, 5);
    perform_unary_op(&SwapMutation::new(), &mut rng, &mut next, 1, 10, 5);
    assert_eq!(next.data[0].data, elite);
    assert_eq!(next.len(), 6);
    for s in &next.data {
        assert!(is_permutation(&s.data, 5));
    }
}

#[test]
fn a_generation_keeps_size_permutations_and_elite() {
    let mut rng = get_rng(Some(12));
    let p = Population::random(&mut rng, 8, 3);
    let mut e = TFTEvaluator::new(times());
    let crossovers = vec![
        (Crossover::Ordered(OrderedCrossover::new()), 2),
        (Crossover::PartiallyMatched(PartiallyMatchedCrossover::new()), 1),
        (Crossover::Cycle(CycleCrossover::new()), 1),
    ];
    let mutations = vec![
        (Mutation::Swap(SwapMutation::new()), 2),
        (Mutation::Inversion(InversionMutation::new()), 1),
    ];
    let elite = select_elite(&p, &mut e, 2);
    let next = evolution_cycle(&p, &mut e, &Tournament::new(3), &mut rng, 2, &crossovers, &mutations, 3);
    assert_eq!(next.len(), 8);
    for s in &next.data {
        assert!(is_permutation(&s.data, 3));
    }
    assert_eq!(next.data[0].data, elite[0].data);
    assert_eq!(next.data[1].data, elite[1].data);
}

#[test]
fn operators_applied_after_the_elite() {
    let mut rng = get_rng(Some(13));
    let mut next = Population::random(&mut rng, 5, 4);
    let first = next.data[0].data.clone();
    let crossovers = vec![(Crossover::Cycle(CycleCrossover::new()), 3)];
    let mutations = vec![(Mutation::Inversion(InversionMutation::new()), 3)];
    apply_operators(&mut rng, &mut next, 1, &crossovers, &mutations, 4);
    assert_eq!(next.data[0].data, first);
    assert_eq!(next.len(), 5);
    for s in &next.data {
        assert!(is_permutation(&s.data, 4));
    }
}

#[test]
fn best_member_and_best_so_far() {
    let p = small_population();
    let mut e = TFTEvaluator::new(times());
    assert_eq!(best_member(&p, &mut e), 1);
    assert_eq!(p.best_time(&mut e), 18);
    assert_eq!(p.worst_time(&mut e), 24);
    let mut best = RunBest::new(Solution::new(vec![0, 1, 2]));
    assert_eq!(best.time, u64::MAX);
    best.offer(&Solution::new(vec![1, 0, 2]), 23);
    best.offer(&Solution::new(vec![2, 1, 0]), 23);
    assert_eq!(best.solution.data, vec![1, 0, 2]);
    best.offer(&Solution::new(vec![2, 0, 1]), 18);
    assert_eq!((best.solution.data.clone(), best.time), (vec![2, 0, 1], 18));
}

#[test]
fn population_from_an_initial_schedule() {
    let mut rng = get_rng(Some(14));
    let p = Population::from_initial(&mut rng, 5, &Solution::new(vec![3, 1, 0, 2]));
    assert_eq!(p.len(), 5);
    assert_eq!(p.data[0].data, vec![3, 1, 0, 2]);
    for s in &p.data {
        assert!(is_permutation(&s.data, 4));
    }
    assert_eq!(Population::from_initial(&mut rng, 0, &Solution::new(vec![0])).len(), 0);
}

#[test]
fn mutation_and_crossover_kinds_keep_permutations() {
    let mut rng = get_rng(Some(15));
    let b = Solution::new(vec![4, 3, 2, 1, 0]);
    for op in [
        Crossover::Ordered(OrderedCrossover::new()),
        Crossover::PartiallyMatched(PartiallyMatchedCrossover::new()),
        Crossover::Cycle(CycleCrossover::new()),
    ] {
        let mut a = Solution::new(vec![0, 1, 2, 3, 4]);
        op.mutate(&mut rng, &mut a, &b);
        assert!(is_permutation(&a.data, 5));
    }
    for op in [Mutation::Swap(SwapMutation::new()), Mutation::Inversion(InversionMutation::new())] {
        let mut a = Solution::new(vec![0, 1, 2, 3, 4]);
        op.mutate(&mut rng, &mut a);
        assert!(is_permutation(&a.data, 5));
    }
    let mut a = Solution::new(vec![0, 1, 2, 3, 4]);
    Mutation::Swap(SwapMutation::new()).mutate(&mut rng, &mut a);
    assert_ne!(a.data, vec![0, 1, 2, 3, 4]);
}

#[test]
fn cycle_crossover_alternates_in_order_of_first_positions() {
    // cycles of (s1, s2): {0, 1}, {2}, {3, 4}; the middle one is left alone
    let s2 = Solution::new(vec![1, 0, 2, 4, 3]);
    let mut s1 = Solution::new(vec![0, 1, 2, 3, 4]);
    CycleCrossover::cross_with(&mut s1, &s2, true);
    assert_eq!(s1.data, vec![1, 0, 2, 4, 3]);
    let s2 = Solution::new(vec![1, 0, 3, 2, 4, 6, 5]);
    let mut s1 = Solution::new(vec![0, 1, 2, 3, 4, 5, 6]);
    CycleCrossover::cross_with(&mut s1, &s2, false);
    // cycles {0, 1}, {2, 3}, {4}, {5, 6}: the second and the fourth are copied
    assert_eq!(s1.data, vec![0, 1, 3, 2, 4, 6, 5]);
}

#[test]
fn random_schedules_are_shuffled() {
    let mut rng = get_rng(Some(21));
    let identity: Vec<usize> = (0..8).collect();
    let draws: Vec<Vec<usize>> = (0..5).map(|_| Solution::random(&mut rng, 8).data).collect();
    assert!(draws.iter().any(|d| *d != identity));
    let p = Population::random(&mut rng, 3, 8);
    assert!(p.data.iter().any(|s| s.data != identity));
}

#[test]
fn checked_evaluation_refuses_without_counting() {
    let mut e = TFTEvaluator::new(vec![vec![u64::MAX, 1]]);
    assert_eq!(e.try_evaluate(&Solution::new(vec![0])), Some(u64::MAX));
    assert_eq!(e.eval_count(), 1);
    assert_eq!(e.try_evaluate(&Solution::new(vec![0, 1])), None);
    assert_eq!(e.try_evaluate(&Solution::new(vec![2])), None);
    assert_eq!(e.eval_count(), 1);
    assert_eq!(e.try_evaluate(&Solution::new(vec![1])), Some(1));
    assert_eq!(e.eval_count(), 2);
}

#[test]
fn checked_greedy_construction_reports_an_overflow() {
    let mut e = TFTEvaluator::new(vec![vec![u64::MAX - 1, u64::MAX - 1]]);
    assert!(try_build_greedy_solution(2, &mut e).is_none());
    let mut f = TFTEvaluator::new(times());
    assert_eq!(try_build_greedy_solution(3, &mut f).unwrap().data, vec![2, 0, 1]);
    assert_eq!(f.eval_count(), 6);
}

#[test]
fn cycle_crossover_on_a_single_job() {
    let mut rng = get_rng(Some(31));
    let mut a = Solution::new(vec![0]);
    let b = Solution::new(vec![0]);
    CycleCrossover::new().mutate(&mut rng, &mut a, &b);
    assert_eq!(a.data, vec![0]);
    let mut e = Solution::empty();
    CycleCrossover::new().mutate(&mut rng, &mut e, &Solution::empty());
    assert!(e.data.is_empty());
}

#[test]
fn evolution_goes_on_below_the_budget() {
    assert!(continues_evolution(0, 10, 4));
    assert!(!continues_evolution(10, 10, 4));
    assert!(!continues_evolution(u64::MAX - 10, u64::MAX, 4));
    assert!(continues_evolution(u64::MAX - 24, u64::MAX, 4));
    assert!(!continues_evolution(0, u64::MAX, usize::MAX));
}

#[test]
fn parsing_ignores_header_lines_and_what_follows_the_rows() {
    let a = Problem::parse("A\n3 2 - 9 -\nB\n3 2 1\n2 4 1\n").unwrap();
    let b = Problem::parse("other header\n3 2 - 9 -\nanything\n3 2 1\n2 4 1\ntrailing 1 2\nmore\n").unwrap();
    assert_eq!((a.jobs_number, a.machines_number), (b.jobs_number, b.machines_number));
    assert_eq!((a.initial_seed, a.upper_bound, a.lower_bound), (b.initial_seed, b.upper_bound, b.lower_bound));
    assert_eq!(a.processing_times, b.processing_times);
    let bad_a = Problem::parse("A\n3 2 - - -\nB\n3 2\n2 4 1\n").is_err();
    let bad_b = Problem::parse("C\n3 2 - - -\nD\n3 2\n2 4 1\nx\n").is_err();
    assert!(bad_a && bad_b);
}

#[test]
fn elitism_never_loses_the_best() {
    let mut rng = get_rng(Some(41));
    let p = Population::random(&mut rng, 6, 3);
    let mut e = TFTEvaluator::new(times());
    let best_before = p.data.iter().map(|s| e.evaluate(s)).min().unwrap();
    let crossovers = vec![(Crossover::Ordered(OrderedCrossover::new()), 2)];
    let mutations = vec![(Mutation::Swap(SwapMutation::new()), 2)];
    let next = evolution_cycle(&p, &mut e, &Tournament::new(2), &mut rng, 1, &crossovers, &mutations, 3);
    let best_after = next.data.iter().map(|s| e.evaluate(s)).min().unwrap();
    assert!(best_after <= best_before);
    assert_eq!(e.evaluate(&next.data[0]), best_before);
}

#[test]
fn cycle_crossover_runs_in_a_generation_of_one_job() {
    let mut rng = get_rng(Some(42));
    let p = Population::random(&mut rng, 4, 1);
    let mut e = TFTEvaluator::new(vec![vec![5], vec![2]]);
    let crossovers = vec![(Crossover::Cycle(CycleCrossover::new()), 2)];
    let next = evolution_cycle(&p, &mut e, &Tournament::new(2), &mut rng, 1, &crossovers, &vec![], 1);
    assert_eq!(next.len(), 4);
    for s in &next.data {
        assert_eq!(s.data, vec![0]);
    }
}

#[test]
fn a_full_tournament_always_picks_the_best() {
    let mut rng = get_rng(Some(51));
    let p = Population::random(&mut rng, 5, 3);
    let mut e = TFTEvaluator::new(times());
    let best = p.data.iter().map(|s| e.evaluate(s)).min().unwrap();
    let mut next = Population::empty();
    select_parents(&Tournament::new(5), &mut rng, &p, &mut next, &mut e);
    assert_eq!(next.len(), 5);
    for s in &next.data {
        assert_eq!(e.evaluate(s), best);
    }
}

#[test]
fn graph_data_where_only_the_total_overflows() {
    let half = u64::MAX / 2;
    let pt = vec![vec![half, half - 1]];
    let s = Solution::new(vec![0, 1]);
    assert_eq!(s.checked_total_flow_time(&pt), None);
    let data = s.graph_data(&pt);
    assert_eq!(data, vec![vec![(0, half), (half, 2 * half - 1)]]);
}
