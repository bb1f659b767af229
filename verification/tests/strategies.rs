use burau_search::algebra::Matrix;
use burau_search::garside::act_by;
use burau_search::search::roots;
use burau_search::state::State;
use burau_search::frontier::Frontier;
use burau_search::strategies::beam::{
    beam_layer, beam_layer_parallel, beam_search, beam_search_parallel, TO_HANDLE_PER_LAYER,
};
use burau_search::strategies::limited::{
    limited_width_search, limited_width_step, search_best_first_limited_width, squeeze_in,
    MAX_KEEP,
};
use burau_search::strategies::lookahead::{
    lookahead_layer, lookahead_search, lookahead_search_with, rank, rotated, score_all,
    CANDIDATES_TO_CHOOSE, SCORERS,
};
use burau_search::strategies::reservoir::{
    reservoir_offer, reservoir_placement, reservoir_search, reservoir_step,
    search_best_first_reservoir, Placement, SeenCounts, BUCKET_CAPACITY,
};
use burau_search::strategies::scoring::{
    evaluate_candidate, evaluate_candidate_mc, evaluate_candidates, least_in, least_of_picks,
    lookahead, LOOKAHEAD_DEPTH, SAMPLE_COUNT,
};
use burau_search::strategies::StepOutcome;
use rand::{Rng, SeedableRng};
use rand_pcg::Pcg32;

fn state(factors: &[u32], p: u8) -> State {
    let mut s = State::new(factors[0], p);
    for f in &factors[1..] {
        s = s.append(*f, p);
    }
    s
}

fn replay(factors: &[u32], p: u8) -> Matrix {
    let mut m = Matrix::identity(p);
    for f in factors {
        m = act_by(&m, *f, p);
    }
    m
}

fn seqs(items: &[&[u32]]) -> Vec<Vec<u32>> {
    items.iter().map(|s| s.to_vec()).collect()
}

fn frontier_of(items: &[&[u32]], p: u8) -> Frontier {
    let mut f = Frontier::new();
    for s in items {
        f.push(state(s, p));
    }
    f
}

fn distribution(f: &Frontier) -> Vec<(u32, usize)> {
    f.sorted_keys().iter().map(|k| (*k, f.bucket_size(*k))).collect()
}

fn factors_of(states: &[State]) -> Vec<Vec<u32>> {
    states.iter().map(|s| s.factors.clone()).collect()
}

#[test]
fn the_constants_of_the_strategies() {
    assert_eq!(LOOKAHEAD_DEPTH, 2);
    assert_eq!(SAMPLE_COUNT, 1000);
    assert_eq!(BUCKET_CAPACITY, 50000);
    assert_eq!(MAX_KEEP, 60000);
    assert_eq!(TO_HANDLE_PER_LAYER, 8000);
    assert_eq!(CANDIDATES_TO_CHOOSE, 15000);
    assert_eq!(SCORERS, 16);
}

#[test]
fn least_in_is_the_least_projlen() {
    let states = vec![state(&[1, 4], 5), state(&[3], 5), state(&[1, 1], 5)];
    assert_eq!(least_in(&states, 5), 4);
    assert_eq!(least_in(&Vec::new(), 5), u32::MAX);
}

#[test]
fn lookahead_sees_the_least_projlen_at_its_depth() {
    let s = State::new(1, 5);
    assert_eq!(lookahead(&s, 0, 5), u32::MAX);
    assert_eq!(lookahead(&s, 1, 5), 5);
    assert_eq!(lookahead(&s, 2, 5), 7);
    assert_eq!(lookahead(&s, 3, 5), 9);
}

#[test]
fn lookahead_finds_a_goal_one_step_ahead() {
    let s = state(&[10, 13, 10, 13, 10, 13, 10], 2);
    assert_eq!(lookahead(&s, 1, 2), 1);
}

#[test]
fn evaluate_candidate_looks_two_generators_ahead() {
    let s = State::new(1, 5);
    assert_eq!(evaluate_candidate(&s, 5), 7);
    assert_eq!(evaluate_candidate(&s, 5), lookahead(&s, 2, 5));
}

#[test]
fn evaluate_candidates_scores_each_state() {
    let states = vec![State::new(1, 5), state(&[10, 13, 10, 13, 10, 13], 2)];
    assert_eq!(evaluate_candidates(&states[..1], 5), vec![7]);
    assert_eq!(evaluate_candidates(&states[1..], 2), vec![1]);
    assert_eq!(evaluate_candidates(&[], 5), vec![]);
}

#[test]
fn least_of_picks_looks_at_the_picked_children_only() {
    // the children of generator 1 over Z/5Z have the lengths 5, 6 and 6
    let s = State::new(1, 5);
    assert_eq!(least_of_picks(&s, &vec![0], 5), 5);
    assert_eq!(least_of_picks(&s, &vec![1, 2, 2, 1], 5), 6);
    assert_eq!(least_of_picks(&s, &vec![2, 0, 1], 5), 5);
    assert_eq!(least_of_picks(&s, &vec![], 5), u32::MAX);
}

#[test]
fn random_lookahead_sees_a_child() {
    let s = State::new(1, 5);
    for seed in [0u64, 1, 7, 12345] {
        // with 1000 picks among 3 children none is missed
        assert_eq!(evaluate_candidate_mc(&s, 5, seed), 5);
    }
    let wide = State::new(5, 5);
    let score = evaluate_candidate_mc(&wide, 5, 3);
    assert_eq!(score, 6);
    assert_eq!(evaluate_candidate_mc(&wide, 5, 3), score);
}

#[test]
fn placement_in_a_bucket_of_bounded_size() {
    assert_eq!(reservoir_placement(0, 3, 0), Placement::Append);
    assert_eq!(reservoir_placement(2, 3, 9), Placement::Append);
    assert_eq!(reservoir_placement(3, 3, 0), Placement::Replace(0));
    assert_eq!(reservoir_placement(3, 3, 2), Placement::Replace(2));
    assert_eq!(reservoir_placement(3, 3, 3), Placement::Discard);
    assert_eq!(reservoir_placement(3, 3, 100), Placement::Discard);
    assert_eq!(reservoir_placement(0, 0, 0), Placement::Discard);
    // a bucket that holds more than its capacity gives only the places
    // below the capacity
    assert_eq!(reservoir_placement(5, 3, 2), Placement::Replace(2));
    assert_eq!(reservoir_placement(5, 3, 4), Placement::Discard);
}

#[test]
fn offers_to_a_bucket_of_bounded_size() {
    let mut bucket: Vec<u32> = Vec::new();
    assert!(reservoir_offer(&mut bucket, 2, 10, 0));
    assert!(reservoir_offer(&mut bucket, 2, 11, 1));
    assert_eq!(bucket, vec![10, 11]);
    assert!(!reservoir_offer(&mut bucket, 2, 12, 2));
    assert_eq!(bucket, vec![10, 11]);
    assert!(reservoir_offer(&mut bucket, 2, 13, 1));
    assert_eq!(bucket, vec![10, 13]);
    assert!(reservoir_offer(&mut bucket, 2, 14, 0));
    assert_eq!(bucket, vec![14, 13]);
}

#[test]
fn a_reservoir_keeps_an_even_sample() {
    // 60 items are offered to a bucket of 12, over and over: each of them
    // should stay about 12 times in 60
    let capacity = 12usize;
    let offered = 60usize;
    let trials = 4000usize;
    let mut rng = Pcg32::seed_from_u64(0);
    let mut stayed = vec![0usize; offered];
    for _ in 0..trials {
        let mut bucket: Vec<usize> = Vec::new();
        for item in 0..offered {
            let seen = item + 1;
            let draw = rng.gen_range(0..seen);
            reservoir_offer(&mut bucket, capacity, item, draw);
        }
        assert_eq!(bucket.len(), capacity);
        for item in bucket {
            stayed[item] += 1;
        }
    }
    let expected = capacity as f64 / offered as f64;
    for item in 0..offered {
        let share = stayed[item] as f64 / trials as f64;
        assert!((share - expected).abs() < 0.03, "item {} stayed with share {}", item, share);
    }
}

#[test]
fn counts_go_up_by_one() {
    let mut seen = SeenCounts::new();
    assert_eq!(seen.bump(5), 1);
    assert_eq!(seen.bump(5), 2);
    assert_eq!(seen.bump(7), 1);
    assert_eq!(seen.bump(5), 3);
    assert_eq!(seen.bump(7), 2);
}

#[test]
fn a_reservoir_step_expands_the_last_state_of_the_lowest_bucket() {
    let mut f = roots(5);
    let mut seen = SeenCounts::new();
    let mut rng = Pcg32::seed_from_u64(0);
    let out = reservoir_step(&mut f, &mut seen, &mut rng, 5, 1000);
    assert!(matches!(out, StepOutcome::Expanded));
    // generator 22 was expanded: its 11 children stand in the frontier
    assert_eq!(f.bucket_size(3), 9);
    assert_eq!(f.bucket_size(4), 12);
    assert_eq!(f.occupancy(1000), 21 + 11);
    assert_eq!(f.sequences_of(5)[0], vec![22, 2]);
    assert_eq!(seen.bump(5), f.bucket_size(5) + 1);
}

#[test]
fn a_reservoir_step_keeps_the_buckets_within_their_capacity() {
    let mut f = roots(5);
    let mut seen = SeenCounts::new();
    let mut rng = Pcg32::seed_from_u64(1);
    for _ in 0..40 {
        let out = reservoir_step(&mut f, &mut seen, &mut rng, 5, 12);
        assert!(matches!(out, StepOutcome::Expanded));
        for k in f.sorted_keys() {
            assert!(f.bucket_size(k) <= 12);
        }
    }
}

#[test]
fn a_reservoir_step_on_an_empty_frontier_is_idle() {
    let mut f = Frontier::new();
    let mut seen = SeenCounts::new();
    let mut rng = Pcg32::seed_from_u64(0);
    assert!(matches!(reservoir_step(&mut f, &mut seen, &mut rng, 5, 10), StepOutcome::Idle));
}

#[test]
fn a_reservoir_step_reports_a_goal() {
    let mut f = Frontier::new();
    f.push(state(&[10, 13, 10, 13, 10, 13, 10], 2));
    let mut seen = SeenCounts::new();
    let mut rng = Pcg32::seed_from_u64(0);
    match reservoir_step(&mut f, &mut seen, &mut rng, 2, 10) {
        StepOutcome::Found(factors) => assert_eq!(factors, vec![10, 13, 10, 13, 10, 13, 10, 13]),
        _ => panic!("the child by generator 13 is a goal"),
    }
}

#[test]
fn reservoir_search_mod_two_finds_a_kernel_element() {
    let found = search_best_first_reservoir(roots(2), 0, 2, 1000);
    assert_eq!(found, Some(vec![13, 10, 13, 10, 13, 10, 13, 10]));
    assert_eq!(replay(&found.unwrap(), 2).projlen(), 1);
}

#[test]
fn reservoir_search_without_steps_finds_nothing() {
    assert_eq!(search_best_first_reservoir(roots(2), 0, 2, 0), None);
    assert_eq!(search_best_first_reservoir(Frontier::new(), 0, 2, 9), None);
}

#[test]
fn reservoir_search_with_narrow_buckets() {
    let found = reservoir_search(roots(2), 3, 2, 4, 5000);
    if let Some(factors) = found {
        assert_eq!(replay(&factors, 2).projlen(), 1);
    }
    assert_eq!(reservoir_search(roots(2), 3, 2, 4, 5000), reservoir_search(roots(2), 3, 2, 4, 5000));
}

#[test]
fn squeeze_in_keeps_the_frontier_below_its_limit() {
    let mut f = frontier_of(&[&[1], &[2], &[3]], 5);
    // a state above the highest bucket comes in, fills the frontier and
    // leaves again as the last of the highest bucket
    squeeze_in(&mut f, state(&[1, 1], 5), 4);
    assert_eq!(distribution(&f), vec![(3, 2), (4, 1)]);
    squeeze_in(&mut f, state(&[1, 4], 5), 4);
    assert_eq!(distribution(&f), vec![(3, 2), (4, 1)]);
    // a state of the lowest bucket pushes the last of the highest out
    squeeze_in(&mut f, state(&[6], 5), 4);
    assert_eq!(distribution(&f), vec![(3, 3)]);
    assert_eq!(f.sequences_of(3), seqs(&[&[1], &[2], &[6]]));
    // a state of the highest bucket takes the place of its last
    squeeze_in(&mut f, state(&[7], 5), 4);
    assert_eq!(f.sequences_of(3), seqs(&[&[1], &[2], &[6]]));
}

#[test]
fn squeeze_in_with_room_keeps_everything() {
    let mut f = frontier_of(&[&[1], &[3]], 5);
    squeeze_in(&mut f, state(&[1, 1], 5), 100);
    squeeze_in(&mut f, state(&[2], 5), 100);
    assert_eq!(distribution(&f), vec![(3, 2), (4, 1), (5, 1)]);
}

#[test]
fn squeeze_in_drops_what_lies_above_a_full_frontier() {
    let mut f = frontier_of(&[&[1], &[2], &[3]], 5);
    squeeze_in(&mut f, state(&[1, 1], 5), 3);
    assert_eq!(distribution(&f), vec![(3, 2), (4, 1)]);
    squeeze_in(&mut f, state(&[1, 1], 5), 0);
    assert_eq!(distribution(&f), vec![(3, 2), (4, 1)]);
}

#[test]
fn limited_width_steps() {
    let mut f = roots(5);
    let mut trace = Vec::new();
    for _ in 0..3 {
        assert!(matches!(limited_width_step(&mut f, 5, 30), StepOutcome::Expanded));
        trace.push(distribution(&f));
    }
    assert_eq!(
        trace,
        vec![
            vec![(3, 9), (4, 12), (5, 6), (6, 2)],
            vec![(3, 8), (4, 12), (5, 9)],
            vec![(3, 7), (4, 12), (5, 10)],
        ]
    );
}

#[test]
fn limited_width_step_on_an_empty_frontier_is_idle() {
    let mut f = Frontier::new();
    assert!(matches!(limited_width_step(&mut f, 5, 30), StepOutcome::Idle));
}

#[test]
fn limited_width_step_reports_a_goal() {
    let mut f = frontier_of(&[&[10, 13, 10, 13, 10, 13, 10]], 2);
    match limited_width_step(&mut f, 2, 30) {
        StepOutcome::Found(factors) => assert_eq!(factors, vec![10, 13, 10, 13, 10, 13, 10, 13]),
        _ => panic!("the child by generator 13 is a goal"),
    }
    // the children before the goal have their places
    assert_eq!(distribution(&f), vec![(3, 3)]);
}

#[test]
fn limited_width_search_mod_two() {
    let want = Some(vec![13, 10, 13, 10, 13, 10, 13, 10]);
    assert_eq!(search_best_first_limited_width(roots(2), 2, 1000), want);
    assert_eq!(limited_width_search(roots(2), 2, MAX_KEEP, 43), want);
    assert_eq!(limited_width_search(roots(2), 2, MAX_KEEP, 42), None);
}

#[test]
fn limited_width_search_that_is_too_narrow_finds_nothing() {
    assert_eq!(limited_width_search(roots(2), 2, 10, 1000), None);
    assert_eq!(limited_width_search(roots(2), 2, 10, 0), None);
    assert_eq!(limited_width_search(Frontier::new(), 2, 10, 5), None);
}

#[test]
fn beam_layer_keeps_at_most_the_beam_width() {
    let mut rng = Pcg32::seed_from_u64(0);
    for width in [0usize, 1, 5, 40, 500] {
        let out = beam_layer(roots(5), &mut rng, width, 5);
        assert_eq!(out.goal, None);
        // the 22 generators have 164 children in all
        assert_eq!(out.next.occupancy(10000), width.min(164));
    }
}

#[test]
fn beam_layer_prefers_the_lowest_projlens() {
    let mut rng = Pcg32::seed_from_u64(5);
    let all = beam_layer(roots(5), &mut rng, 1000, 5).next;
    let narrow = beam_layer(roots(5), &mut rng, 40, 5).next;
    assert_eq!(distribution(&all), vec![(5, 56), (6, 76), (7, 32)]);
    // the children of the lowest projective length are more than 40: the
    // narrow beam holds nothing else
    assert_eq!(distribution(&narrow), vec![(5, 40)]);
}

#[test]
fn beam_layer_reports_a_goal() {
    let mut rng = Pcg32::seed_from_u64(0);
    let f = frontier_of(&[&[10, 13, 10, 13, 10, 13, 10]], 2);
    let out = beam_layer(f, &mut rng, 10, 2);
    assert_eq!(out.goal, Some(vec![10, 13, 10, 13, 10, 13, 10, 13]));
}

#[test]
fn beam_search_mod_two_finds_a_kernel_element() {
    let found = beam_search(roots(2), 0, 250000, 2, 20).unwrap();
    assert_eq!(found.len(), 8);
    assert_eq!(replay(&found, 2).projlen(), 1);
    assert_eq!(beam_search(roots(2), 0, 250000, 2, 20), Some(found));
    assert_eq!(beam_search(roots(2), 0, 250000, 2, 0), None);
}

#[test]
fn beam_search_with_a_narrow_beam() {
    for seed in 0..5u64 {
        if let Some(found) = beam_search(roots(2), seed, 7, 2, 200) {
            assert_eq!(replay(&found, 2).projlen(), 1);
        }
    }
}

#[test]
fn parallel_beam_layer_collects_the_children() {
    let out = beam_layer_parallel(roots(5), 4, 5, 8000);
    assert_eq!(out.goal, None);
    assert_eq!(distribution(&out.next), vec![(5, 56), (6, 76), (7, 32)]);
}

#[test]
fn parallel_beam_layer_cuts_its_collection() {
    let first = beam_layer_parallel(roots(5), 4, 5, 12);
    assert_eq!(first.goal, None);
    assert_eq!(distribution(&first.next), vec![(5, 22), (6, 5), (7, 3)]);
    assert_eq!(first.next.sequences_of(5)[..4], seqs(&[&[1, 1], &[2, 2], &[2, 13], &[2, 16]])[..]);
    let second = beam_layer_parallel(first.next, 4, 5, 12);
    assert_eq!(second.goal, None);
    assert_eq!(distribution(&second.next), vec![(7, 17)]);
}

#[test]
fn parallel_beam_layer_reports_a_goal() {
    let f = frontier_of(&[&[1], &[10, 13, 10, 13, 10, 13, 10]], 2);
    let out = beam_layer_parallel(f, 3, 2, 100);
    assert_eq!(out.goal, Some(vec![10, 13, 10, 13, 10, 13, 10, 13]));
}

#[test]
fn parallel_beam_search_mod_two() {
    let want = Some(vec![10, 13, 10, 13, 10, 13, 10, 13]);
    assert_eq!(beam_search_parallel(roots(2), 16, 2, 20), want);
    assert_eq!(beam_search_parallel(roots(2), 16, 2, 7), want);
    assert_eq!(beam_search_parallel(roots(2), 16, 2, 6), None);
    assert_eq!(beam_search_parallel(Frontier::new(), 16, 2, 6), None);
}

#[test]
fn scores_of_the_generators() {
    let candidates: Vec<State> = (1..=22).map(|g| State::new(g, 5)).collect();
    assert_eq!(
        score_all(&candidates, 5),
        vec![7, 7, 8, 8, 8, 7, 7, 8, 8, 7, 7, 8, 7, 8, 7, 7, 7, 8, 7, 7, 7, 7]
    );
    assert_eq!(score_all(&Vec::new(), 5), vec![]);
    let few = vec![State::new(10, 2), State::new(13, 2), State::new(3, 2)];
    assert_eq!(score_all(&few, 2), vec![5, 5, 8]);
}

#[test]
fn rank_is_by_score_and_keeps_the_order_of_equals() {
    let candidates = vec![state(&[1], 5), state(&[2], 5), state(&[3], 5), state(&[4], 5)];
    let ranked = rank(candidates, &vec![9, 2, 9, 1]);
    assert_eq!(factors_of(&ranked), seqs(&[&[4], &[2], &[1], &[3]]));
    assert_eq!(factors_of(&rank(Vec::new(), &Vec::new())), seqs(&[]));
}

#[test]
fn lookahead_layer_expands_the_best_candidates() {
    let candidates: Vec<State> = (1..=22).map(|g| State::new(g, 5)).collect();
    let out = lookahead_layer(candidates, 5, 3);
    assert_eq!(out.goal, None);
    assert_eq!(
        factors_of(&out.next),
        seqs(&[
            &[1, 1],
            &[1, 4],
            &[1, 18],
            &[2, 2],
            &[2, 3],
            &[2, 12],
            &[2, 13],
            &[2, 16],
            &[6, 6],
            &[6, 8],
            &[6, 9],
        ])
    );
}

#[test]
fn lookahead_layer_ranks_before_it_keeps() {
    let candidates: Vec<State> = (1..=22).map(|g| State::new(g, 2)).collect();
    let out = lookahead_layer(candidates, 2, 4);
    assert_eq!(out.goal, None);
    assert_eq!(out.next.len(), 32);
    assert_eq!(
        factors_of(&out.next[..5]),
        seqs(&[&[10, 2], &[10, 3], &[10, 12], &[10, 13], &[10, 16]])
    );
}

#[test]
fn lookahead_layer_reports_the_best_candidate_if_it_is_a_goal() {
    let candidates = vec![state(&[1], 2), state(&[10, 13, 10, 13, 10, 13, 10, 13], 2)];
    let out = lookahead_layer(candidates, 2, 4);
    assert_eq!(out.goal, Some(vec![10, 13, 10, 13, 10, 13, 10, 13]));
    assert!(out.next.is_empty());
}

#[test]
fn lookahead_layer_of_nothing() {
    let out = lookahead_layer(Vec::new(), 5, 3);
    assert_eq!(out.goal, None);
    assert!(out.next.is_empty());
    let none_kept = lookahead_layer(vec![State::new(1, 5)], 5, 0);
    assert_eq!(none_kept.goal, None);
    assert!(none_kept.next.is_empty());
}

#[test]
fn rotated_turns_to_the_left() {
    let v = vec![state(&[1], 5), state(&[2], 5), state(&[3], 5), state(&[4], 5)];
    assert_eq!(factors_of(&rotated(v, 1)), seqs(&[&[2], &[3], &[4], &[1]]));
    let v = vec![state(&[1], 5), state(&[2], 5), state(&[3], 5)];
    assert_eq!(factors_of(&rotated(v, 0)), seqs(&[&[1], &[2], &[3]]));
    let v = vec![state(&[1], 5), state(&[2], 5), state(&[3], 5)];
    assert_eq!(factors_of(&rotated(v, 3)), seqs(&[&[1], &[2], &[3]]));
}

#[test]
fn lookahead_search_mod_two_finds_kernel_elements() {
    for keep in [1usize, 4, 16] {
        for seed in 0..3u64 {
            let found = lookahead_search_with(2, seed, keep, 14).unwrap();
            assert!(found.len() >= 8);
            assert_eq!(replay(&found, 2).projlen(), 1);
            assert_eq!(lookahead_search_with(2, seed, keep, 14), Some(found));
        }
    }
    assert_eq!(
        lookahead_search_with(2, 1, 1, 14),
        Some(vec![10, 13, 10, 13, 10, 13, 10, 13])
    );
}

#[test]
fn lookahead_search_ends_after_its_layers() {
    assert_eq!(lookahead_search(2, 0, 0), None);
    assert_eq!(lookahead_search(2, 0, 3), None);
    assert_eq!(lookahead_search_with(2, 0, 0, 14), None);
}

#[test]
fn a_goal_in_the_first_step_is_found_whatever_is_drawn() {
    let want = Some(vec![10, 13, 10, 13, 10, 13, 10, 13]);
    for seed in 0..4u64 {
        let f = frontier_of(&[&[10, 13, 10, 13, 10, 13, 10], &[3], &[1, 4]], 2);
        assert_eq!(reservoir_search(f, seed, 2, 1, 1), want);
        let f = frontier_of(&[&[10, 13, 10, 13, 10, 13, 10], &[3], &[1, 4]], 2);
        assert_eq!(search_best_first_reservoir(f, seed, 2, 5), want);
    }
}

#[test]
fn a_goal_in_the_first_layer_is_found_whatever_is_drawn() {
    // the children of the states of lower projective length come first:
    // among them no goal is found before that of the longest sequence
    for seed in 0..4u64 {
        let f = frontier_of(&[&[3], &[10, 13, 10, 13, 10, 13, 10], &[1]], 2);
        assert_eq!(beam_search(f, seed, 2, 2, 1), Some(vec![10, 13, 10, 13, 10, 13, 10, 13]));
    }
}

#[test]
fn searches_on_nothing_find_nothing() {
    assert_eq!(reservoir_search(Frontier::new(), 0, 2, 10, 5), None);
    assert_eq!(beam_search(Frontier::new(), 0, 10, 2, 5), None);
    assert_eq!(beam_search_parallel(Frontier::new(), 4, 2, 5), None);
}
