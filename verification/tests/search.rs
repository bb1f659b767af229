use burau_search::algebra::Matrix;
use burau_search::frontier::Frontier;
use burau_search::garside::{act_by, generate_descendants};
use burau_search::search::{
    expand_batch, expand_state, roots, round, run_to_fixed_limited, search_best_first_parallel,
    search_with_caps, BATCH_CAP, TOTAL_CAP,
};
use burau_search::state::{State, MAX_DEPTH};

fn seqs(items: &[&[u32]]) -> Vec<Vec<u32>> {
    items.iter().map(|s| s.to_vec()).collect()
}

fn state(factors: &[u32], p: u8) -> State {
    let mut s = State::new(factors[0], p);
    for f in &factors[1..] {
        s = s.append(*f, p);
    }
    s
}

fn replay(factors: &[u32], p: u8) -> Matrix {
    let mut m = Matrix::identity(p);
    for f in factors {
        m = act_by(&m, *f, p);
    }
    m
}

fn is_admissible(factors: &[u32]) -> bool {
    let table = generate_descendants();
    factors.windows(2).all(|w| table.get(w[0]).map_or(false, |next| next.contains(&w[1])))
}

fn distribution(f: &Frontier) -> Vec<(u32, usize)> {
    f.sorted_keys().iter().map(|k| (*k, f.bucket_size(*k))).collect()
}

#[test]
fn state_new_applies_one_generator_to_the_identity() {
    let s = State::new(1, 5);
    assert_eq!(s.factors, vec![1]);
    assert!(s.mat == act_by(&Matrix::identity(5), 1, 5));
    assert_eq!(s.projlen(), 3);
    assert!(!s.is_goal());
}

#[test]
fn state_append_applies_one_more_generator() {
    let s = State::new(1, 5);
    let c = s.append(4, 5);
    assert_eq!(c.factors, vec![1, 4]);
    assert!(c.mat == replay(&[1, 4], 5));
    assert_eq!(c.projlen(), 6);
    // the parent is unchanged
    assert_eq!(s.factors, vec![1]);
}

#[test]
fn root_projlens() {
    let want = [3, 3, 4, 4, 4, 3, 3, 4, 4, 3, 4, 4, 3, 4, 4, 3, 3, 4, 4, 4, 3, 3];
    for p in [2u8, 3, 5] {
        for g in 1..=22u32 {
            assert_eq!(State::new(g, p).projlen(), want[g as usize - 1]);
        }
    }
}

#[test]
fn a_goal_state_is_recognised() {
    let s = state(&[10, 13, 10, 13, 10, 13, 10, 13], 2);
    assert_eq!(s.projlen(), 1);
    assert!(s.is_goal());
    assert!(!state(&[10, 13, 10, 13, 10, 13, 10], 2).is_goal());
    // over Z/3Z the same generators give no goal
    assert!(!state(&[10, 13, 10, 13, 10, 13, 10, 13], 3).is_goal());
}

#[test]
fn the_caps_and_the_depth_limit() {
    assert_eq!(TOTAL_CAP, 150000);
    assert_eq!(BATCH_CAP, 20000);
    assert_eq!(MAX_DEPTH, 16382);
}

#[test]
fn roots_hold_the_22_generators() {
    for p in [2u8, 3, 5] {
        let f = roots(p);
        assert_eq!(distribution(&f), vec![(3, 10), (4, 12)]);
        assert_eq!(
            f.sequences_of(3),
            seqs(&[&[1], &[2], &[6], &[7], &[10], &[13], &[16], &[17], &[21], &[22]])
        );
        assert_eq!(
            f.sequences_of(4),
            seqs(&[&[3], &[4], &[5], &[8], &[9], &[11], &[12], &[14], &[15], &[18], &[19], &[20]])
        );
    }
}

#[test]
fn expand_state_makes_the_children_in_table_order() {
    let table = generate_descendants();
    let kids = expand_state(&State::new(1, 5), &table, 5);
    let factors: Vec<Vec<u32>> = kids.iter().map(|s| s.factors.clone()).collect();
    assert_eq!(factors, seqs(&[&[1, 1], &[1, 4], &[1, 18]]));
    let lens: Vec<u32> = kids.iter().map(|s| s.projlen()).collect();
    assert_eq!(lens, vec![5, 6, 6]);
}

#[test]
fn expansion_makes_every_child_of_every_state() {
    let batch = vec![State::new(1, 5), State::new(5, 5)];
    let out = run_to_fixed_limited(&batch, 5);
    assert_eq!(out.goal, None);
    assert_eq!(distribution(&out.children), vec![(5, 1), (6, 8), (7, 5)]);
    assert_eq!(out.children.sequences_of(5), seqs(&[&[1, 1]]));
    assert_eq!(
        out.children.sequences_of(6),
        seqs(&[&[1, 4], &[1, 18], &[5, 1], &[5, 2], &[5, 12], &[5, 13], &[5, 16], &[5, 22]])
    );
    assert_eq!(
        out.children.sequences_of(7),
        seqs(&[&[5, 3], &[5, 4], &[5, 5], &[5, 18], &[5, 19]])
    );
}

#[test]
fn expansion_of_nothing_gives_nothing() {
    let out = run_to_fixed_limited(&[], 5);
    assert_eq!(out.goal, None);
    assert_eq!(distribution(&out.children), vec![]);
}

#[test]
fn expansion_stops_at_the_first_goal() {
    let parent = state(&[10, 13, 10, 13, 10, 13, 10], 2);
    let later = State::new(1, 2);
    let out = run_to_fixed_limited(&[parent, later], 2);
    assert_eq!(out.goal, Some(vec![10, 13, 10, 13, 10, 13, 10, 13]));
    // the children made before the goal stand in the buckets, no others
    assert_eq!(
        out.children.sequences_of(3),
        seqs(&[
            &[10, 13, 10, 13, 10, 13, 10, 2],
            &[10, 13, 10, 13, 10, 13, 10, 3],
            &[10, 13, 10, 13, 10, 13, 10, 12],
        ])
    );
    assert_eq!(distribution(&out.children), vec![(3, 3)]);
}

#[test]
fn a_batch_is_expanded_in_chunks() {
    let batch: Vec<State> = [13u32, 16, 17, 21, 22].iter().map(|g| State::new(*g, 5)).collect();
    let out = expand_batch(&batch, 4, 5);
    assert_eq!(out.goal, None);
    // five states in four chunks: the first chunk holds two of them
    let per_chunk: Vec<Vec<(u32, usize)>> = out.parts.iter().map(distribution).collect();
    assert_eq!(
        per_chunk,
        vec![
            vec![(5, 10), (6, 6)],
            vec![(5, 6), (6, 5)],
            vec![(5, 7), (6, 4)],
            vec![(5, 6), (6, 5)],
        ]
    );
    assert_eq!(out.parts[0].sequences_of(6)[4..], seqs(&[&[16, 3], &[16, 12]])[..]);
}

#[test]
fn a_batch_with_a_goal_reports_the_first_one() {
    let batch = vec![
        State::new(1, 2),
        state(&[13, 10, 13, 10, 13, 10, 13], 2),
        state(&[10, 13, 10, 13, 10, 13, 10], 2),
    ];
    let out = expand_batch(&batch, 3, 2);
    assert_eq!(out.goal, Some(vec![13, 10, 13, 10, 13, 10, 13, 10]));
    assert!(out.parts.is_empty());
    let out = expand_batch(&batch, 1, 2);
    assert_eq!(out.goal, Some(vec![13, 10, 13, 10, 13, 10, 13, 10]));
}

#[test]
fn a_round_trims_selects_expands_and_merges() {
    let mut f = roots(5);
    assert_eq!(round(&mut f, 4, 5, 40, 5), None);
    assert_eq!(distribution(&f), vec![(3, 5), (4, 12), (5, 29), (6, 7)]);
    assert_eq!(f.sequences_of(3), seqs(&[&[1], &[2], &[6], &[7], &[10]]));
    assert_eq!(
        f.sequences_of(6),
        seqs(&[&[13, 9], &[13, 11], &[13, 18], &[13, 20], &[16, 3], &[16, 12], &[17, 3]])
    );
    assert_eq!(f.sequences_of(5)[..3], seqs(&[&[13, 1], &[13, 4], &[13, 6]])[..]);
    assert_eq!(f.sequences_of(5)[26..], seqs(&[&[22, 13], &[22, 16], &[22, 17]])[..]);
}

#[test]
fn rounds_follow_one_another() {
    let mut f = roots(5);
    let mut trace = Vec::new();
    for _ in 0..4 {
        assert_eq!(round(&mut f, 4, 5, 40, 5), None);
        trace.push(distribution(&f));
    }
    assert_eq!(
        trace,
        vec![
            vec![(3, 5), (4, 12), (5, 29), (6, 7)],
            vec![(4, 12), (5, 38), (6, 4)],
            vec![(4, 7), (5, 36), (6, 24), (7, 7)],
            vec![(4, 2), (5, 37), (6, 15), (7, 6)],
        ]
    );
}

#[test]
fn a_round_with_room_for_all_keeps_all_children() {
    let mut f = roots(5);
    assert_eq!(round(&mut f, 3, 5, 1000, 1000), None);
    assert_eq!(distribution(&f), vec![(4, 12), (5, 44), (6, 32)]);
}

#[test]
fn a_round_on_an_empty_frontier_is_idle() {
    let mut f = Frontier::new();
    assert_eq!(round(&mut f, 4, 3, 10, 10), None);
    assert_eq!(distribution(&f), vec![]);
}

#[test]
fn a_round_without_a_batch_only_trims() {
    let mut f = roots(5);
    assert_eq!(round(&mut f, 4, 5, 15, 0), None);
    assert_eq!(distribution(&f), vec![(3, 10), (4, 5)]);
}

#[test]
fn a_round_starts_within_the_cap_whatever_the_last_one_left() {
    let mut f = roots(5);
    for _ in 0..6 {
        assert_eq!(round(&mut f, 4, 5, 40, 5), None);
        // what the merge left may be more than the cap; the trim of the
        // next round cuts it down
        let mut copy = Frontier::new();
        for k in f.sorted_keys() {
            for fs in f.sequences_of(k) {
                copy.push(state(&fs, 5));
            }
        }
        assert!(copy.trim(40) <= 40);
    }
}

#[test]
fn more_workers_than_states() {
    let mut f = roots(5);
    assert_eq!(round(&mut f, 64, 5, 1000, 3), None);
    assert_eq!(f.bucket_size(3), 7);
    // the generators 17, 21 and 22 have 11 descendants each
    assert_eq!(f.occupancy(1000), 19 + 33);
}

#[test]
fn search_mod_two_finds_a_kernel_element() {
    let found = search_best_first_parallel(roots(2), 16, 2, 50);
    assert_eq!(found, Some(vec![10, 13, 10, 13, 10, 13, 10, 13]));
    let factors = found.unwrap();
    assert!(is_admissible(&factors));
    assert_eq!(replay(&factors, 2).projlen(), 1);
}

#[test]
fn search_mod_two_takes_seven_rounds() {
    assert_eq!(search_best_first_parallel(roots(2), 16, 2, 6), None);
    assert!(search_best_first_parallel(roots(2), 16, 2, 7).is_some());
}

#[test]
fn search_mod_two_is_the_same_on_every_run() {
    let first = search_best_first_parallel(roots(2), 16, 2, 50);
    let second = search_best_first_parallel(roots(2), 16, 2, 50);
    assert!(first.is_some());
    assert_eq!(first, second);
}

#[test]
fn search_without_rounds_finds_nothing() {
    assert_eq!(search_best_first_parallel(roots(2), 4, 2, 0), None);
}

#[test]
fn search_on_an_empty_frontier_finds_nothing() {
    assert_eq!(search_best_first_parallel(Frontier::new(), 4, 2, 5), None);
}

#[test]
fn search_with_small_caps_mod_two() {
    assert_eq!(
        search_with_caps(roots(2), 3, 2, 7, 2, 300),
        Some(vec![13, 10, 13, 10, 13, 10, 13, 10])
    );
    assert_eq!(
        search_with_caps(roots(2), 2, 2, 5, 5, 200),
        Some(vec![10, 13, 10, 13, 10, 13, 10, 13])
    );
}

#[test]
fn search_mod_three_finds_a_kernel_element() {
    let found = search_with_caps(roots(3), 16, 3, 5000, 20000, 60);
    let want = vec![
        1, 4, 13, 11, 13, 10, 13, 4, 13, 7, 11, 22, 13, 7, 10, 13, 8, 13, 20, 13, 10, 13, 6, 6,
    ];
    assert_eq!(found, Some(want.clone()));
    assert!(is_admissible(&want));
    assert_eq!(replay(&want, 3).projlen(), 1);
    assert_eq!(search_with_caps(roots(3), 16, 3, 5000, 20000, 41), None);
}
