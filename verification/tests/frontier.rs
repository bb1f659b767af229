use burau_search::frontier::Frontier;
use burau_search::search::roots;
use burau_search::state::State;

fn seqs(items: &[&[u32]]) -> Vec<Vec<u32>> {
    items.iter().map(|s| s.to_vec()).collect()
}

fn state(factors: &[u32], p: u8) -> State {
    let mut s = State::new(factors[0], p);
    for f in &factors[1..] {
        s = s.append(*f, p);
    }
    s
}

fn frontier_of(items: &[&[u32]], p: u8) -> Frontier {
    let mut f = Frontier::new();
    for s in items {
        f.push(state(s, p));
    }
    f
}

fn distribution(f: &Frontier) -> Vec<(u32, usize)> {
    f.sorted_keys().iter().map(|k| (*k, f.bucket_size(*k))).collect()
}

#[test]
fn a_new_frontier_is_empty() {
    let f = Frontier::new();
    assert_eq!(f.sorted_keys(), vec![]);
    assert_eq!(f.occupancy(10), 0);
    assert_eq!(f.top(), 0);
    assert_eq!(f.bucket_size(3), 0);
    assert_eq!(f.sequences_of(3), seqs(&[]));
}

#[test]
fn push_puts_a_state_in_the_bucket_of_its_projlen() {
    let mut f = Frontier::new();
    f.push(state(&[1], 5));
    f.push(state(&[3], 5));
    f.push(state(&[1, 4], 5));
    f.push(state(&[2], 5));
    assert_eq!(f.sorted_keys(), vec![3, 4, 6]);
    assert_eq!(f.sequences_of(3), seqs(&[&[1], &[2]]));
    assert_eq!(f.sequences_of(4), seqs(&[&[3]]));
    assert_eq!(f.sequences_of(6), seqs(&[&[1, 4]]));
    assert_eq!(f.sequences_of(5), seqs(&[]));
    assert_eq!(f.top(), 6);
    assert_eq!(f.occupancy(100), 4);
    assert_eq!(f.bucket_size(3), 2);
}

#[test]
fn occupancy_counts_up_to_the_cap() {
    let f = roots(5);
    assert_eq!(f.occupancy(100), 22);
    assert_eq!(f.occupancy(22), 22);
    assert_eq!(f.occupancy(21), 21);
    assert_eq!(f.occupancy(0), 0);
}

#[test]
fn trim_keeps_the_lowest_buckets() {
    let mut f = roots(5);
    assert_eq!(f.trim(15), 15);
    assert_eq!(
        f.sequences_of(3),
        seqs(&[&[1], &[2], &[6], &[7], &[10], &[13], &[16], &[17], &[21], &[22]])
    );
    assert_eq!(f.sequences_of(4), seqs(&[&[3], &[4], &[5], &[8], &[9]]));
    assert_eq!(f.sorted_keys(), vec![3, 4]);
}

#[test]
fn trim_removes_a_bucket_that_it_empties() {
    let mut f = roots(5);
    assert_eq!(f.trim(10), 10);
    assert_eq!(distribution(&f), vec![(3, 10)]);
    assert_eq!(f.trim(4), 4);
    assert_eq!(f.sequences_of(3), seqs(&[&[1], &[2], &[6], &[7]]));
    assert_eq!(f.trim(0), 0);
    assert_eq!(f.sorted_keys(), vec![]);
}

#[test]
fn trim_leaves_a_frontier_within_the_cap_alone() {
    let mut f = roots(5);
    assert_eq!(f.trim(22), 22);
    assert_eq!(distribution(&f), vec![(3, 10), (4, 12)]);
    assert_eq!(f.trim(1000), 22);
    assert_eq!(distribution(&f), vec![(3, 10), (4, 12)]);
}

#[test]
fn after_trim_the_population_is_within_the_cap() {
    for cap in [0usize, 1, 9, 10, 11, 21, 22, 23] {
        let mut f = roots(3);
        let kept = f.trim(cap);
        assert!(kept <= cap);
        assert_eq!(kept, cap.min(22));
        assert_eq!(f.occupancy(1000), kept);
    }
}

#[test]
fn select_takes_the_tail_of_the_lowest_bucket() {
    let mut f = roots(5);
    let batch: Vec<Vec<u32>> = f.select(5).into_iter().map(|s| s.factors).collect();
    assert_eq!(batch, seqs(&[&[13], &[16], &[17], &[21], &[22]]));
    assert_eq!(f.sequences_of(3), seqs(&[&[1], &[2], &[6], &[7], &[10]]));
    assert_eq!(f.bucket_size(4), 12);
}

#[test]
fn select_removes_a_bucket_that_it_empties() {
    let mut f = roots(5);
    assert_eq!(f.select(100).len(), 10);
    assert_eq!(distribution(&f), vec![(4, 12)]);
    assert_eq!(f.select(12).len(), 12);
    assert_eq!(distribution(&f), vec![]);
    assert_eq!(f.select(12).len(), 0);
}

#[test]
fn select_of_nothing_changes_nothing() {
    let mut f = roots(5);
    assert_eq!(f.select(0).len(), 0);
    assert_eq!(distribution(&f), vec![(3, 10), (4, 12)]);
}

#[test]
fn merge_lets_lower_buckets_in_whole() {
    // two states of projective length 3 and three of length 4: the highest
    // bucket is 4
    let mut f = frontier_of(&[&[1], &[2], &[3], &[4], &[5]], 5);
    let children = frontier_of(&[&[6], &[7]], 5);
    f.merge(children, 5);
    assert_eq!(f.sequences_of(3), seqs(&[&[1], &[2], &[6], &[7]]));
    assert_eq!(f.sequences_of(4), seqs(&[&[3], &[4], &[5]]));
    // the frontier now holds more than the cap: the next trim cuts it down
    assert_eq!(f.occupancy(100), 7);
    assert_eq!(f.trim(5), 5);
    assert_eq!(distribution(&f), vec![(3, 4), (4, 1)]);
}

#[test]
fn merge_fills_the_highest_bucket_up_to_the_cap() {
    let mut f = frontier_of(&[&[1], &[2], &[3], &[4], &[5]], 5);
    let children = frontier_of(&[&[8], &[9], &[11]], 5);
    f.merge(children, 6);
    assert_eq!(f.sequences_of(4), seqs(&[&[3], &[4], &[5], &[8]]));
    assert_eq!(f.occupancy(100), 6);
}

#[test]
fn merge_into_a_full_frontier_lets_nothing_into_the_highest_bucket() {
    let mut f = frontier_of(&[&[1], &[2], &[3], &[4], &[5]], 5);
    f.merge(frontier_of(&[&[8], &[9]], 5), 5);
    assert_eq!(distribution(&f), vec![(3, 2), (4, 3)]);
    f.merge(frontier_of(&[&[8], &[9]], 5), 3);
    assert_eq!(distribution(&f), vec![(3, 2), (4, 3)]);
}

#[test]
fn merge_lets_a_higher_bucket_in_whole() {
    let mut f = frontier_of(&[&[1], &[2], &[3], &[4], &[5]], 5);
    f.merge(frontier_of(&[&[1, 1]], 5), 5);
    assert_eq!(distribution(&f), vec![(3, 2), (4, 3), (5, 1)]);
    assert_eq!(f.sequences_of(5), seqs(&[&[1, 1]]));
    assert_eq!(f.top(), 5);
}

#[test]
fn merge_goes_by_ascending_projlen() {
    // the children of length 4 fill the highest bucket up to the cap, then
    // those of length 6 open a bucket of their own
    let mut f = frontier_of(&[&[1], &[3]], 5);
    let children = frontier_of(&[&[1, 4], &[4], &[5], &[1, 18]], 5);
    f.merge(children, 3);
    assert_eq!(f.sequences_of(3), seqs(&[&[1]]));
    assert_eq!(f.sequences_of(4), seqs(&[&[3], &[4]]));
    assert_eq!(f.sequences_of(6), seqs(&[&[1, 4], &[1, 18]]));
}

#[test]
fn merge_into_an_empty_frontier_lets_everything_in() {
    let mut f = Frontier::new();
    f.merge(roots(5), 3);
    assert_eq!(distribution(&f), vec![(3, 10), (4, 12)]);
}

#[test]
fn merge_of_nothing_changes_nothing() {
    let mut f = roots(5);
    f.merge(Frontier::new(), 3);
    assert_eq!(distribution(&f), vec![(3, 10), (4, 12)]);
}

#[test]
fn replace_puts_a_state_in_a_given_place() {
    let mut f = frontier_of(&[&[1], &[2], &[6]], 5);
    f.replace(1, state(&[7], 5));
    assert_eq!(f.sequences_of(3), seqs(&[&[1], &[7], &[6]]));
}

#[test]
fn sorted_keys_are_ascending() {
    let f = frontier_of(&[&[5, 3], &[1, 1], &[3], &[1], &[1, 4]], 5);
    assert_eq!(f.sorted_keys(), vec![3, 4, 5, 6, 7]);
}

#[test]
fn push_at_puts_a_state_in_the_bucket_of_a_key() {
    let mut f = Frontier::new();
    f.push_at(9, state(&[1], 5));
    f.push_at(2, state(&[3], 5));
    f.push_at(9, state(&[2], 5));
    assert_eq!(f.sorted_keys(), vec![2, 9]);
    assert_eq!(f.sequences_of(9), seqs(&[&[1], &[2]]));
    assert_eq!(f.sequences_of(2), seqs(&[&[3]]));
}

#[test]
fn into_sorted_goes_by_ascending_key() {
    let f = frontier_of(&[&[5, 3], &[1, 1], &[3], &[1], &[4], &[2]], 5);
    let all: Vec<Vec<u32>> = f.into_sorted().into_iter().map(|s| s.factors).collect();
    assert_eq!(all, seqs(&[&[1], &[2], &[3], &[4], &[1, 1], &[5, 3]]));
    assert!(Frontier::new().into_sorted().is_empty());
}

#[test]
fn take_at_takes_a_whole_bucket() {
    let mut f = roots(5);
    let taken: Vec<Vec<u32>> = f.take_at(3).into_iter().map(|s| s.factors).collect();
    assert_eq!(taken.len(), 10);
    assert_eq!(taken[0], vec![1]);
    assert_eq!(taken[9], vec![22]);
    assert_eq!(distribution(&f), vec![(4, 12)]);
    assert!(f.take_at(3).is_empty());
    assert!(f.take_at(7).is_empty());
    assert_eq!(distribution(&f), vec![(4, 12)]);
}

#[test]
fn extend_at_appends_to_a_bucket() {
    let mut f = frontier_of(&[&[1], &[3]], 5);
    f.extend_at(3, vec![state(&[2], 5), state(&[6], 5)]);
    f.extend_at(5, vec![state(&[1, 1], 5)]);
    f.extend_at(6, Vec::new());
    assert_eq!(f.sequences_of(3), seqs(&[&[1], &[2], &[6]]));
    assert_eq!(distribution(&f), vec![(3, 3), (4, 1), (5, 1)]);
}

#[test]
fn cut_at_cuts_above_the_key_that_fills_the_limit() {
    let build = || frontier_of(&[&[1], &[2], &[3], &[4], &[5], &[1, 1]], 5);
    let expected: [(usize, Option<u32>, Vec<(u32, usize)>); 7] = [
        (0, Some(3), vec![(3, 2)]),
        (1, Some(3), vec![(3, 2)]),
        (2, Some(3), vec![(3, 2)]),
        (3, Some(4), vec![(3, 2), (4, 3)]),
        (5, Some(4), vec![(3, 2), (4, 3)]),
        (6, Some(5), vec![(3, 2), (4, 3), (5, 1)]),
        (7, None, vec![(3, 2), (4, 3), (5, 1)]),
    ];
    for (limit, cut, left) in expected {
        let mut f = build();
        assert_eq!(f.cut_at(limit), cut);
        assert_eq!(distribution(&f), left);
    }
    assert_eq!(Frontier::new().cut_at(0), None);
}

#[test]
fn evict_last_takes_the_last_state_of_a_bucket() {
    let mut f = frontier_of(&[&[1], &[2], &[3]], 5);
    assert_eq!(f.evict_last(3).map(|s| s.factors), Some(vec![2]));
    assert_eq!(f.sequences_of(3), seqs(&[&[1]]));
    assert_eq!(f.evict_last(4).map(|s| s.factors), Some(vec![3]));
    assert_eq!(distribution(&f), vec![(3, 1)]);
    assert!(f.evict_last(4).is_none());
    assert!(f.evict_last(9).is_none());
    assert_eq!(distribution(&f), vec![(3, 1)]);
}
