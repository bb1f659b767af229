//! A search with buckets of bounded size, each of which keeps an even random
//! sample of the states that were offered to it.

use crate::buckets::{after_select, bucket_len, is_lowest_key, no_bucket, selected, with_sequence};
use crate::frontier::{seq_projlen, sequences, Frontier};
use crate::garside::{descendants, generate_descendants, lemma_descendants_range};
use crate::random::{draw_below, seeded};
use crate::search::{children_of, first_goal, is_goal_seq, lemma_first_goal, lowest_key};
use crate::state::MAX_DEPTH;
use crate::strategies::{found_goal, outcome_goal, StepOutcome};
use hashbrown::HashMap;
use rand_pcg::Pcg32;
use vstd::prelude::*;

verus! {

/// How many states a bucket of the reservoir search holds at most.
pub const BUCKET_CAPACITY: usize = 50000;

/// Where an item that is offered to a bucket of bounded size goes.
#[derive(Debug, PartialEq, Eq, Structural)]
pub enum Placement {
    Append,
    Replace(usize),
    Discard,
}

/// Where an item goes that is offered to a bucket of `len` items which holds
/// at most `capacity`, with the number `draw` drawn for it: to the end while
/// there is room; else to the place `draw` where that is below `capacity`;
/// else nowhere.
pub open spec fn placement_spec(len: nat, capacity: nat, draw: nat) -> Placement {
    if len < capacity {
        Placement::Append
    } else if draw < capacity && draw < len {
        Placement::Replace(draw as usize)
    } else {
        Placement::Discard
    }
}

/// The bucket `b` after `item` was offered to it with the number `draw`.
pub open spec fn offered<T>(b: Seq<T>, capacity: nat, item: T, draw: nat) -> Seq<T> {
    match placement_spec(b.len(), capacity, draw) {
        Placement::Append => b.push(item),
        Placement::Replace(at) => b.update(at as int, item),
        Placement::Discard => b,
    }
}

/// Where an item goes that is offered to a bucket of bounded size. With
/// `draw` drawn evenly below the number of items offered so far, the new one
/// included, the bucket holds an even sample of them.
pub fn reservoir_placement(len: usize, capacity: usize, draw: usize) -> (r: Placement)
    ensures
        r == placement_spec(len as nat, capacity as nat, draw as nat),
{
    if len < capacity {
        Placement::Append
    } else if draw < capacity && draw < len {
        Placement::Replace(draw)
    } else {
        Placement::Discard
    }
}

/// Offers `item` to a bucket that holds at most `capacity` items, with the
/// number `draw` drawn for it. Returns whether the bucket took it.
pub fn reservoir_offer<T>(bucket: &mut Vec<T>, capacity: usize, item: T, draw: usize) -> (kept: bool)
    ensures
        final(bucket)@ == offered(old(bucket)@, capacity as nat, item, draw as nat),
        kept == (placement_spec(old(bucket)@.len(), capacity as nat, draw as nat)
            != Placement::Discard),
{
    match reservoir_placement(bucket.len(), capacity, draw) {
        Placement::Append => {
            bucket.push(item);
            true
        },
        Placement::Replace(at) => {
            bucket.set(at, item);
            true
        },
        Placement::Discard => false,
    }
}

/// How many states were offered to each bucket of a reservoir search, by
/// projective length, in a `hashbrown::HashMap`. Of the map itself nothing
/// is known but what `count_map` names and the functions below say of it.
#[verifier::external_body]
pub struct SeenCounts {
    counts: HashMap<u32, usize>,
}

/// What the counts hold: projective length to number of states offered.
pub uninterp spec fn count_map(c: SeenCounts) -> Map<u32, usize>;

/// `hashbrown::HashMap::new`: a map that holds nothing.
#[verifier::external_body]
fn empty_counts() -> (out: SeenCounts)
    ensures
        count_map(out) =~= Map::empty(),
{
    SeenCounts { counts: HashMap::new() }
}

/// `hashbrown::HashMap::get`: the value at `key`, if the map holds one.
#[verifier::external_body]
fn lookup_count(c: &SeenCounts, key: u32) -> (out: Option<&usize>)
    ensures
        out == if count_map(*c).contains_key(key) {
            Some(&count_map(*c)[key])
        } else {
            None
        },
{
    c.counts.get(&key)
}

/// `hashbrown::HashMap::insert`: the map holds `value` at `key` afterwards
/// and is otherwise unchanged; the value that was there before comes back.
#[verifier::external_body]
fn store_count(c: &mut SeenCounts, key: u32, value: usize) -> (prev: Option<usize>)
    ensures
        count_map(*final(c)) == count_map(*old(c)).insert(key, value),
        prev == if count_map(*old(c)).contains_key(key) {
            Some(count_map(*old(c))[key])
        } else {
            None
        },
{
    c.counts.insert(key, value)
}

/// The count at `k`, 0 where there is none.
pub open spec fn seen_at(m: Map<u32, usize>, k: u32) -> usize {
    if m.contains_key(k) {
        m[k]
    } else {
        0
    }
}

impl SeenCounts {
    /// Counts in which nothing was counted yet.
    pub fn new() -> (out: SeenCounts)
        ensures
            count_map(out) == Map::<u32, usize>::empty(),
    {
        empty_counts()
    }

    /// Counts one more state for the projective length `k`, and returns the
    /// new count. A count that has reached `usize::MAX` stays there.
    pub fn bump(&mut self, k: u32) -> (n: usize)
        ensures
            n == if seen_at(count_map(*old(self)), k) < usize::MAX {
                (seen_at(count_map(*old(self)), k) + 1) as usize
            } else {
                usize::MAX
            },
            n >= 1,
            count_map(*final(self)) == count_map(*old(self)).insert(k, n),
    {
        let was: usize = match lookup_count(self, k) {
            Some(v) => *v,
            None => 0,
        };
        let n = if was < usize::MAX {
            was + 1
        } else {
            was
        };
        store_count(self, k, n);
        n
    }
}


/// The counts `c` with one more counted at `k`; a count that has reached
/// `usize::MAX` stays there.
pub open spec fn bumped(c: Map<u32, usize>, k: u32) -> Map<u32, usize> {
    c.insert(
        k,
        if seen_at(c, k) < usize::MAX {
            (seen_at(c, k) + 1) as usize
        } else {
            usize::MAX
        },
    )
}

/// The buckets `m` after the sequence `fs` of projective length `q` was
/// offered to its bucket, which holds at most `capacity`, with the number
/// `draw` drawn for it.
pub open spec fn offered_to(
    m: Map<u32, Seq<Seq<u32>>>,
    q: u32,
    fs: Seq<u32>,
    capacity: nat,
    draw: nat,
) -> Map<u32, Seq<Seq<u32>>> {
    match placement_spec(bucket_len(m, q), capacity, draw) {
        Placement::Append => with_sequence(m, q, fs),
        Placement::Replace(at) => m.insert(q, m[q].update(at as int, fs)),
        Placement::Discard => m,
    }
}

/// The buckets `m` and the counts `c` after the sequences `cs` were counted
/// and offered, one after another, the `i`-th with the number `draws[i]`
/// drawn for it.
pub open spec fn offered_all(
    m: Map<u32, Seq<Seq<u32>>>,
    c: Map<u32, usize>,
    cs: Seq<Seq<u32>>,
    draws: Seq<usize>,
    p: u8,
    capacity: nat,
) -> (Map<u32, Seq<Seq<u32>>>, Map<u32, usize>)
    decreases cs.len(),
{
    if cs.len() == 0 {
        (m, c)
    } else {
        let before = offered_all(m, c, cs.drop_last(), draws.drop_last(), p, capacity);
        let q = seq_projlen(cs.last(), p) as u32;
        (offered_to(before.0, q, cs.last(), capacity, draws.last() as nat), bumped(before.1, q))
    }
}

/// The numbers `draws` are such as can be drawn for the sequences `cs`: one
/// for each of them, and the one for a sequence that finds its bucket full
/// is below the count of the sequences offered to that bucket, the
/// sequence itself counted.
pub open spec fn draws_fit(
    m: Map<u32, Seq<Seq<u32>>>,
    c: Map<u32, usize>,
    cs: Seq<Seq<u32>>,
    draws: Seq<usize>,
    p: u8,
    capacity: nat,
) -> bool
    decreases cs.len(),
{
    if cs.len() == 0 {
        draws.len() == 0
    } else {
        let before = offered_all(m, c, cs.drop_last(), draws.drop_last(), p, capacity);
        let q = seq_projlen(cs.last(), p) as u32;
        &&& draws.len() == cs.len()
        &&& draws_fit(m, c, cs.drop_last(), draws.drop_last(), p, capacity)
        &&& bucket_len(before.0, q) >= capacity ==> draws.last() < seen_at(bumped(before.1, q), q)
    }
}

/// The children that a step offers to the buckets `m`: those of the last
/// sequence of the lowest bucket, up to the first goal among them.
pub open spec fn step_offers(m: Map<u32, Seq<Seq<u32>>>, p: u8) -> Seq<Seq<u32>> {
    let cs = children_of(m[lowest_key(m)].last());
    cs.take(first_goal(cs, p))
}

/// The goal that a step on the buckets `m` finds: the first goal among the
/// children of the last sequence of the lowest bucket.
pub open spec fn step_goal(m: Map<u32, Seq<Seq<u32>>>, p: u8) -> Option<Seq<u32>> {
    let cs = children_of(m[lowest_key(m)].last());
    if no_bucket(m) || first_goal(cs, p) >= cs.len() {
        None
    } else {
        Some(cs[first_goal(cs, p)])
    }
}

/// One step of the reservoir search from the buckets `m` and the counts `c`,
/// with the numbers `draws` drawn, leads to the buckets `m2` and the counts
/// `c2`. Empty buckets stay as they are. Else the last sequence of the
/// lowest bucket is taken and its children up to the first goal are counted
/// and offered; a goal is counted too.
pub open spec fn step_with(
    m: Map<u32, Seq<Seq<u32>>>,
    c: Map<u32, usize>,
    draws: Seq<usize>,
    p: u8,
    capacity: nat,
    m2: Map<u32, Seq<Seq<u32>>>,
    c2: Map<u32, usize>,
) -> bool {
    if no_bucket(m) {
        draws.len() == 0 && m2 == m && c2 == c
    } else {
        let start = after_select(m, lowest_key(m), 1);
        let after = offered_all(start, c, step_offers(m, p), draws, p, capacity);
        &&& draws_fit(start, c, step_offers(m, p), draws, p, capacity)
        &&& m2 == after.0
        &&& c2 == if step_goal(m, p) is Some {
            bumped(after.1, 1)
        } else {
            after.1
        }
    }
}

/// One step of the reservoir search from the buckets `m` and the counts `c`
/// can lead to the buckets `m2` and the counts `c2`: there are numbers that
/// can be drawn with which it does.
pub open spec fn step_leads(
    m: Map<u32, Seq<Seq<u32>>>,
    c: Map<u32, usize>,
    p: u8,
    capacity: nat,
    m2: Map<u32, Seq<Seq<u32>>>,
    c2: Map<u32, usize>,
) -> bool {
    exists|draws: Seq<usize>| #[trigger] step_with(m, c, draws, p, capacity, m2, c2)
}

/// The step from the place `i` of a path of buckets and counts to the next
/// place is a step of the reservoir search that finds neither a goal nor the
/// buckets empty.
pub open spec fn step_on_path(
    ms: Seq<Map<u32, Seq<Seq<u32>>>>,
    cs: Seq<Map<u32, usize>>,
    i: int,
    p: u8,
    capacity: nat,
) -> bool {
    &&& !no_bucket(ms[i])
    &&& step_goal(ms[i], p) is None
    &&& step_leads(ms[i], cs[i], p, capacity, ms[i + 1], cs[i + 1])
}

/// The buckets `ms` and the counts `cs` are a path of `k` steps of the
/// reservoir search from the buckets `m` and the counts `c` to the buckets
/// `m2` and the counts `c2`.
pub open spec fn path_leads(
    m: Map<u32, Seq<Seq<u32>>>,
    c: Map<u32, usize>,
    p: u8,
    capacity: nat,
    k: nat,
    m2: Map<u32, Seq<Seq<u32>>>,
    c2: Map<u32, usize>,
    ms: Seq<Map<u32, Seq<Seq<u32>>>>,
    cs: Seq<Map<u32, usize>>,
) -> bool {
    &&& ms.len() == k + 1
    &&& cs.len() == k + 1
    &&& ms[0] == m
    &&& cs[0] == c
    &&& ms[k as int] == m2
    &&& cs[k as int] == c2
    &&& forall|i: int| 0 <= i < k ==> #[trigger] step_on_path(ms, cs, i, p, capacity)
}

/// `k` steps of the reservoir search, none of which finds a goal or the
/// buckets empty, can lead from the buckets `m` and the counts `c` to the
/// buckets `m2` and the counts `c2`.
pub open spec fn steps_lead(
    m: Map<u32, Seq<Seq<u32>>>,
    c: Map<u32, usize>,
    p: u8,
    capacity: nat,
    k: nat,
    m2: Map<u32, Seq<Seq<u32>>>,
    c2: Map<u32, usize>,
) -> bool {
    exists|ms: Seq<Map<u32, Seq<Seq<u32>>>>, cs: Seq<Map<u32, usize>>| #[trigger]
        path_leads(m, c, p, capacity, k, m2, c2, ms, cs)
}

/// No step leads from the buckets and counts to themselves.
pub proof fn lemma_no_step(m: Map<u32, Seq<Seq<u32>>>, c: Map<u32, usize>, p: u8, capacity: nat)
    ensures
        steps_lead(m, c, p, capacity, 0, m, c),
{
    assert(path_leads(m, c, p, capacity, 0, m, c, seq![m], seq![c]));
}

/// One more step after `k` steps.
pub proof fn lemma_one_more_step(
    m: Map<u32, Seq<Seq<u32>>>,
    c: Map<u32, usize>,
    p: u8,
    capacity: nat,
    k: nat,
    mid: Map<u32, Seq<Seq<u32>>>,
    cm: Map<u32, usize>,
    m2: Map<u32, Seq<Seq<u32>>>,
    c2: Map<u32, usize>,
)
    requires
        steps_lead(m, c, p, capacity, k, mid, cm),
        !no_bucket(mid),
        step_goal(mid, p) is None,
        step_leads(mid, cm, p, capacity, m2, c2),
    ensures
        steps_lead(m, c, p, capacity, k + 1, m2, c2),
{
    let (ms, cs) = choose|ms: Seq<Map<u32, Seq<Seq<u32>>>>, cs: Seq<Map<u32, usize>>| #[trigger]
        path_leads(m, c, p, capacity, k, mid, cm, ms, cs);
    let ms2 = ms.push(m2);
    let cs2 = cs.push(c2);
    assert forall|i: int| 0 <= i < k + 1 implies #[trigger] step_on_path(
        ms2,
        cs2,
        i,
        p,
        capacity,
    ) by {
        if i < k {
            assert(step_on_path(ms, cs, i, p, capacity));
        }
    }
    assert(path_leads(m, c, p, capacity, k + 1, m2, c2, ms2, cs2));
}

/// `found` is what a reservoir search of at most `max_steps` steps can
/// find, from the buckets `m`: some number of steps that find no goal lead
/// to buckets where the next step finds `found`, or to empty buckets, or
/// `max_steps` steps lead nowhere.
pub open spec fn reservoir_finds(
    m: Map<u32, Seq<Seq<u32>>>,
    p: u8,
    capacity: nat,
    max_steps: nat,
    found: Option<Seq<u32>>,
) -> bool {
    exists|k: nat, m2: Map<u32, Seq<Seq<u32>>>, c2: Map<u32, usize>|
        {
            &&& #[trigger] steps_lead(m, Map::empty(), p, capacity, k, m2, c2)
            &&& k <= max_steps
            &&& found == if k < max_steps {
                step_goal(m2, p)
            } else {
                None
            }
            &&& found is None ==> k == max_steps || no_bucket(m2)
        }
}

/// Searches for a goal by expanding, step by step, the last state of the
/// lowest bucket, with buckets of at most `capacity` states that keep an
/// even sample of the states offered to them. Ends after `max_steps` steps,
/// or when the frontier is empty. Returns the generators of the goal that it
/// finds. The generator of random numbers is made from `seed`.
///
/// Whether a step finds a goal does not hang on the numbers drawn: where the
/// first step finds one, that is what the search returns.
pub fn reservoir_search(
    states: Frontier,
    seed: u64,
    p: u8,
    capacity: usize,
    max_steps: usize,
) -> (found: Option<Vec<u32>>)
    requires
        states.wf(p),
        max_steps <= MAX_DEPTH,
        states.depth_at_most(MAX_DEPTH + 1 - max_steps),
    ensures
        reservoir_finds(states@, p, capacity as nat, max_steps as nat, found_goal(found)),
        max_steps > 0 && step_goal(states@, p) is Some ==> found_goal(found) == step_goal(
            states@,
            p,
        ),
        max_steps == 0 || no_bucket(states@) ==> found is None,
        found matches Some(f) ==> is_goal_seq(f@, p),
{
    let mut frontier = states;
    let mut seen = SeenCounts::new();
    let mut rng = seeded(seed);
    let mut step: usize = 0;
    proof {
        lemma_no_step(states@, Map::empty(), p, capacity as nat);
    }
    while step < max_steps
        invariant
            step <= max_steps <= MAX_DEPTH,
            frontier.wf(p),
            frontier.depth_at_most(MAX_DEPTH + 1 - max_steps + step),
            steps_lead(
                states@,
                Map::empty(),
                p,
                capacity as nat,
                step as nat,
                frontier@,
                count_map(seen),
            ),
            step == 0 ==> frontier@ == states@,
            step > 0 ==> !no_bucket(states@) && step_goal(states@, p) is None,
        decreases max_steps - step,
    {
        proof {
            frontier.lemma_depth_upto(MAX_DEPTH + 1 - max_steps + step, MAX_DEPTH as int);
        }
        let ghost mid = frontier@;
        let ghost cm = count_map(seen);
        match reservoir_step(&mut frontier, &mut seen, &mut rng, p, capacity) {
            StepOutcome::Found(f) => {
                proof {
                    assert(steps_lead(
                        states@,
                        Map::empty(),
                        p,
                        capacity as nat,
                        step as nat,
                        mid,
                        cm,
                    ));
                }
                return Some(f);
            },
            StepOutcome::Idle => {
                proof {
                    assert(steps_lead(
                        states@,
                        Map::empty(),
                        p,
                        capacity as nat,
                        step as nat,
                        mid,
                        cm,
                    ));
                }
                return None;
            },
            StepOutcome::Expanded => {},
        }
        proof {
            lemma_one_more_step(
                states@,
                Map::empty(),
                p,
                capacity as nat,
                step as nat,
                mid,
                cm,
                frontier@,
                count_map(seen),
            );
        }
        step += 1;
    }
    None
}

/// The reservoir search with buckets of at most `BUCKET_CAPACITY` states.
pub fn search_best_first_reservoir(states: Frontier, seed: u64, p: u8, max_steps: usize) -> (found:
    Option<Vec<u32>>)
    requires
        states.wf(p),
        max_steps <= MAX_DEPTH,
        states.depth_at_most(MAX_DEPTH + 1 - max_steps),
    ensures
        reservoir_finds(states@, p, BUCKET_CAPACITY as nat, max_steps as nat, found_goal(found)),
        max_steps > 0 && step_goal(states@, p) is Some ==> found_goal(found) == step_goal(
            states@,
            p,
        ),
        max_steps == 0 || no_bucket(states@) ==> found is None,
        found matches Some(f) ==> is_goal_seq(f@, p),
{
    reservoir_search(states, seed, p, BUCKET_CAPACITY, max_steps)
}

/// One step of the reservoir search: takes the last state of the lowest
/// bucket and makes its children, in order. The first child that is a goal
/// ends the step. Every other child is counted and offered to the bucket of
/// its projective length, which holds at most `capacity` states: a full
/// bucket gives one of its places, drawn at random, to the child with the
/// chance of `capacity` in the count, so that it keeps an even sample of
/// the states offered to it.
pub fn reservoir_step(
    frontier: &mut Frontier,
    seen: &mut SeenCounts,
    rng: &mut Pcg32,
    p: u8,
    capacity: usize,
) -> (out: StepOutcome)
    requires
        old(frontier).wf(p),
        old(frontier).depth_at_most(MAX_DEPTH as int),
    ensures
        final(frontier).wf(p),
        forall|d: int| old(frontier).depth_at_most(d) ==> final(frontier).depth_at_most(d + 1),
        (out is Idle) == no_bucket(old(frontier)@),
        outcome_goal(out) == step_goal(old(frontier)@, p),
        step_leads(
            old(frontier)@,
            count_map(*old(seen)),
            p,
            capacity as nat,
            final(frontier)@,
            count_map(*final(seen)),
        ),
        out matches StepOutcome::Found(f) ==> is_goal_seq(f@, p),
        forall|k: u32|
            bucket_len(final(frontier)@, k) <= bucket_len(old(frontier)@, k) || bucket_len(
                final(frontier)@,
                k,
            ) <= capacity,
        forall|k: u32|
            is_lowest_key(old(frontier)@, k) ==> {
                let cs = children_of(old(frontier)@[k].last());
                &&& (out is Found) == (first_goal(cs, p) < cs.len())
                &&& out matches StepOutcome::Found(f) ==> f@ == cs[first_goal(cs, p)]
                    && is_goal_seq(f@, p)
            },
{
    let ghost m = frontier@;
    let ghost c0 = count_map(*seen);
    let mut batch = frontier.select(1);
    if batch.len() == 0 {
        proof {
            if !no_bucket(m) {
                let k = choose|k: u32| is_lowest_key(m, k);
                assert(m[k].len() > 0) by {
                    assert(crate::frontier::bucket_map(*old(frontier)).contains_key(k));
                }
                assert(sequences(batch@).len() == 1);
            }
            assert forall|d: int| old(frontier).depth_at_most(d) implies frontier.depth_at_most(
                d + 1,
            ) by {
                frontier.lemma_depth_weaken(d);
            }
            assert(step_with(m, c0, Seq::<usize>::empty(), p, capacity as nat, m, c0));
        }
        return StepOutcome::Idle;
    }
    let state = match batch.pop() {
        Some(s) => s,
        None => {
            proof {
                assert(false);
            }
            return StepOutcome::Idle;
        },
    };
    let ghost fs = state.factors@;
    let ghost cs = children_of(fs);
    let ghost m0 = frontier@;
    let ghost mut draws: Seq<usize> = Seq::empty();
    proof {
        assert forall|j: u32| bucket_len(frontier@, j) <= bucket_len(m, j) by {
            let k = choose|k: u32| is_lowest_key(m, k);
            assert(is_lowest_key(m, k));
            assert(frontier@ == crate::buckets::after_select(m, k, 1));
        }
        assert(!no_bucket(m));
        assert(is_lowest_key(m, lowest_key(m)));
        assert(m0 == after_select(m, lowest_key(m), 1));
        assert(cs.take(0) =~= Seq::<Seq<u32>>::empty());
        assert forall|k: u32| is_lowest_key(m, k) implies m[k].last() == fs by {
            assert(m[k].len() > 0);
            let sel = selected(m, k, 1);
            assert(sequences(batch@.push(state)) =~= sequences(batch@).push(fs));
            assert(sel.len() == 1);
            assert(sel[0] == m[k].last());
        }
        assert forall|d: int| old(frontier).depth_at_most(d) implies frontier.depth_at_most(
            d + 1,
        ) && fs.len() <= d by {
            frontier.lemma_depth_weaken(d);
        }
    }
    let table = generate_descendants();
    let last_factor = state.factors[state.factors.len() - 1];
    proof {
        assert(state.wf(p));
        assert(fs.len() <= MAX_DEPTH);
        lemma_descendants_range(fs.last());
        state.mat.lemma_powers_weaken(4 * (fs.len() as int), u16::MAX - 4);
    }
    if let Some(next) = table.get(last_factor) {
        let n = next.len();
        let mut gi: usize = 0;
        while gi < n
            invariant
                gi <= n,
                n == next@.len(),
                next@ == descendants(fs.last()),
                fs == state.factors@,
                cs == children_of(fs),
                state.wf(p),
                state.mat.powers_upto(u16::MAX - 4),
                forall|j: int| 0 <= j < next@.len() ==> 1 <= #[trigger] next@[j] <= 22,
                frontier.wf(p),
                forall|d: int|
                    old(frontier).depth_at_most(d) ==> frontier.depth_at_most(d + 1) && fs.len()
                        <= d,
                forall|j: int| 0 <= j < gi ==> !is_goal_seq(#[trigger] cs[j], p),
                m == old(frontier)@,
                !no_bucket(m),
                forall|k: u32| is_lowest_key(m, k) ==> m[k].last() == fs,
                forall|k: u32|
                    bucket_len(frontier@, k) <= bucket_len(m, k) || bucket_len(frontier@, k)
                        <= capacity,
                n == cs.len(),
                c0 == count_map(*old(seen)),
                m0 == after_select(m, lowest_key(m), 1),
                is_lowest_key(m, lowest_key(m)),
                draws.len() == gi,
                draws_fit(m0, c0, cs.take(gi as int), draws, p, capacity as nat),
                offered_all(m0, c0, cs.take(gi as int), draws, p, capacity as nat) == (
                    frontier@,
                    count_map(*seen),
                ),
            decreases n - gi,
        {
            let child = state.append(next[gi], p);
            proof {
                assert(child.factors@ == cs[gi as int]);
                assert(child.mat.spec_projlen() == seq_projlen(child.factors@, p));
                assert(cs.take(gi + 1).drop_last() =~= cs.take(gi as int));
                assert(cs.take(gi + 1).last() == cs[gi as int]);
            }
            let ghost counts = count_map(*seen);
            let k = child.projlen();
            let count = seen.bump(k);
            proof {
                assert(count_map(*seen) == bumped(counts, k));
            }
            if k == 1 {
                proof {
                    lemma_first_goal(cs, p, gi as int);
                    assert(step_with(
                        m,
                        c0,
                        draws,
                        p,
                        capacity as nat,
                        frontier@,
                        count_map(*seen),
                    ));
                }
                return StepOutcome::Found(child.factors);
            }
            let size = frontier.bucket_size(k);
            let draw = if size < capacity {
                0
            } else {
                draw_below(rng, count)
            };
            let ghost before = frontier@;
            match reservoir_placement(size, capacity, draw) {
                Placement::Append => {
                    frontier.push(child);
                },
                Placement::Replace(at) => {
                    frontier.replace(at, child);
                },
                Placement::Discard => {},
            }
            proof {
                assert forall|j: u32|
                    bucket_len(frontier@, j) <= bucket_len(m, j) || bucket_len(frontier@, j)
                        <= capacity by {
                    if j != k {
                        assert(bucket_len(frontier@, j) == bucket_len(before, j));
                    }
                }
                assert(frontier@ == offered_to(
                    before,
                    k,
                    child.factors@,
                    capacity as nat,
                    draw as nat,
                ));
                let longer = draws.push(draw);
                assert(longer.drop_last() =~= draws);
                assert(longer.last() == draw);
                draws = longer;
            }
            gi += 1;
        }
        proof {
            lemma_first_goal(cs, p, cs.len() as int);
            assert(cs.take(cs.len() as int) =~= cs);
            assert(step_with(m, c0, draws, p, capacity as nat, frontier@, count_map(*seen)));
        }
    } else {
        proof {
            assert(crate::garside::descendant_map(table).contains_key(last_factor));
            assert(false);
        }
    }
    StepOutcome::Expanded
}

} // verus!
