//! A search with a frontier of bounded size that expands one state at a time:
//! when the frontier is full, the last state of its highest bucket leaves.

use crate::buckets::{
    after_select, is_lowest_key, no_bucket, population, selected, top_key, with_sequence,
    without_last,
};
use crate::frontier::{seq_projlen, sequences, Frontier};
use crate::garside::{descendants, generate_descendants, lemma_descendants_range};
use crate::search::{children_of, first_goal, is_goal_seq, lemma_first_goal, lowest_key};
use crate::state::{State, MAX_DEPTH};
use crate::strategies::StepOutcome;
use vstd::prelude::*;

verus! {

/// How many states the frontier of the limited-width search holds at most.
pub const MAX_KEEP: usize = 60000;

/// The buckets `m` after the sequence `fs` of projective length `q` asked
/// for a place among at most `keep`: a sequence above the highest bucket
/// gets none where the buckets are full; any other gets one, and where that
/// fills the buckets, the last sequence of the highest bucket leaves.
pub open spec fn squeezed_in(m: Map<u32, Seq<Seq<u32>>>, q: u32, fs: Seq<u32>, keep: nat) -> Map<
    u32,
    Seq<Seq<u32>>,
> {
    if q > top_key(m) && population(m) >= keep {
        m
    } else {
        let with = with_sequence(m, q, fs);
        if population(with) >= keep {
            without_last(with, top_key(with))
        } else {
            with
        }
    }
}

/// The buckets `m` after the sequences `cs` asked for a place, one after
/// another.
pub open spec fn squeezed_all(m: Map<u32, Seq<Seq<u32>>>, cs: Seq<Seq<u32>>, p: u8, keep: nat) -> Map<
    u32,
    Seq<Seq<u32>>,
>
    decreases cs.len(),
{
    if cs.len() == 0 {
        m
    } else {
        squeezed_in(
            squeezed_all(m, cs.drop_last(), p, keep),
            seq_projlen(cs.last(), p) as u32,
            cs.last(),
            keep,
        )
    }
}

/// Lets `state` ask for a place in a frontier of at most `keep` states.
pub fn squeeze_in(frontier: &mut Frontier, state: State, keep: usize)
    requires
        state.wf(state.mat.p),
        old(frontier).wf(state.mat.p),
    ensures
        final(frontier)@ == squeezed_in(
            old(frontier)@,
            state.mat.spec_projlen() as u32,
            state.factors@,
            keep as nat,
        ),
        final(frontier).wf(state.mat.p),
        forall|d: int|
            old(frontier).depth_at_most(d) && state.factors@.len() <= d ==> final(frontier).depth_at_most(
                d,
            ),
{
    let q = state.projlen();
    let top = frontier.top();
    let total = frontier.occupancy(keep);
    if q > top && total >= keep {
        return ;
    }
    frontier.push(state);
    if frontier.occupancy(keep) >= keep {
        let highest = frontier.top();
        frontier.evict_last(highest);
    }
}

/// One step of the limited-width search on the buckets `m`: the goal that
/// it finds, if any, and the buckets that it leaves. The last sequence of
/// the lowest bucket is taken and its children are made in order; the first
/// goal among them ends the step, and the children before it ask for a
/// place.
pub open spec fn limited_step_spec(m: Map<u32, Seq<Seq<u32>>>, p: u8, keep: nat) -> (
    Option<Seq<u32>>,
    Map<u32, Seq<Seq<u32>>>,
) {
    if no_bucket(m) {
        (None, m)
    } else {
        let k = lowest_key(m);
        let cs = children_of(m[k].last());
        let g = first_goal(cs, p);
        let left = squeezed_all(after_select(m, k, 1), cs.take(g), p, keep);
        if g < cs.len() {
            (Some(cs[g]), left)
        } else {
            (None, left)
        }
    }
}

/// One step of the limited-width search: takes the last state of the
/// lowest bucket and makes its children, in order. The first child that is
/// a goal ends the step; every child before it asks for a place in the
/// frontier, which holds at most `keep` states.
pub fn limited_width_step(frontier: &mut Frontier, p: u8, keep: usize) -> (out: StepOutcome)
    requires
        old(frontier).wf(p),
        old(frontier).depth_at_most(MAX_DEPTH as int),
    ensures
        final(frontier).wf(p),
        forall|d: int| old(frontier).depth_at_most(d) ==> final(frontier).depth_at_most(d + 1),
        (out is Idle) == no_bucket(old(frontier)@),
        final(frontier)@ == limited_step_spec(old(frontier)@, p, keep as nat).1,
        (out is Found) == limited_step_spec(old(frontier)@, p, keep as nat).0.is_some(),
        out matches StepOutcome::Found(f) ==> Some(f@) == limited_step_spec(
            old(frontier)@,
            p,
            keep as nat,
        ).0 && is_goal_seq(f@, p),
{
    let ghost m = frontier@;
    let mut batch = frontier.select(1);
    if batch.len() == 0 {
        proof {
            if !no_bucket(m) {
                let k = choose|k: u32| is_lowest_key(m, k);
                assert(m[k].len() > 0) by {
                    assert(crate::frontier::bucket_map(*old(frontier)).contains_key(k));
                }
                assert(sequences(batch@).len() == 1);
            }
            assert forall|d: int| old(frontier).depth_at_most(d) implies frontier.depth_at_most(
                d + 1,
            ) by {
                frontier.lemma_depth_weaken(d);
            }
        }
        return StepOutcome::Idle;
    }
    let state = match batch.pop() {
        Some(s) => s,
        None => {
            proof {
                assert(false);
            }
            return StepOutcome::Idle;
        },
    };
    let ghost fs = state.factors@;
    let ghost cs = children_of(fs);
    let ghost m0 = frontier@;
    proof {
        assert(!no_bucket(m));
        let k = lowest_key(m);
        assert(is_lowest_key(m, k));
        assert(m0 == after_select(m, k, 1));
        assert(m[k].last() == fs) by {
            assert(m[k].len() > 0);
            let sel = selected(m, k, 1);
            assert(sequences(batch@.push(state)) =~= sequences(batch@).push(fs));
            assert(sel.len() == 1);
            assert(sel[0] == m[k].last());
        }
        assert forall|d: int| old(frontier).depth_at_most(d) implies frontier.depth_at_most(
            d + 1,
        ) && fs.len() <= d by {
            frontier.lemma_depth_weaken(d);
        }
        assert(cs.take(0) =~= Seq::<Seq<u32>>::empty());
    }
    let table = generate_descendants();
    let last_factor = state.factors[state.factors.len() - 1];
    proof {
        assert(state.wf(p));
        assert(fs.len() <= MAX_DEPTH);
        lemma_descendants_range(fs.last());
        state.mat.lemma_powers_weaken(4 * (fs.len() as int), u16::MAX - 4);
    }
    if let Some(next) = table.get(last_factor) {
        let n = next.len();
        let mut gi: usize = 0;
        while gi < n
            invariant
                gi <= n,
                n == next@.len(),
                n == cs.len(),
                next@ == descendants(fs.last()),
                fs == state.factors@,
                cs == children_of(fs),
                state.wf(p),
                state.mat.powers_upto(u16::MAX - 4),
                forall|j: int| 0 <= j < next@.len() ==> 1 <= #[trigger] next@[j] <= 22,
                frontier.wf(p),
                forall|d: int|
                    old(frontier).depth_at_most(d) ==> frontier.depth_at_most(d + 1) && fs.len()
                        <= d,
                forall|j: int| 0 <= j < gi ==> !is_goal_seq(#[trigger] cs[j], p),
                frontier@ == squeezed_all(m0, cs.take(gi as int), p, keep as nat),
                m == old(frontier)@,
                !no_bucket(m),
                m0 == after_select(m, lowest_key(m), 1),
                m[lowest_key(m)].last() == fs,
            decreases n - gi,
        {
            let child = state.append(next[gi], p);
            proof {
                assert(child.factors@ == cs[gi as int]);
                assert(child.mat.spec_projlen() == seq_projlen(child.factors@, p));
                assert(cs.take(gi + 1).drop_last() =~= cs.take(gi as int));
                assert(cs.take(gi + 1).last() == cs[gi as int]);
            }
            if child.is_goal() {
                proof {
                    lemma_first_goal(cs, p, gi as int);
                }
                return StepOutcome::Found(child.factors);
            }
            squeeze_in(frontier, child, keep);
            gi += 1;
        }
        proof {
            lemma_first_goal(cs, p, cs.len() as int);
            assert(cs.take(cs.len() as int) =~= cs);
        }
    } else {
        proof {
            assert(crate::garside::descendant_map(table).contains_key(last_factor));
            assert(false);
        }
    }
    StepOutcome::Expanded
}

/// What a limited-width search of at most `steps` steps finds, from the
/// buckets `m`: the goal of the first step that finds one; nothing where
/// the buckets run empty before.
pub open spec fn limited_search_spec(m: Map<u32, Seq<Seq<u32>>>, p: u8, keep: nat, steps: nat) -> Option<
    Seq<u32>,
>
    decreases steps,
{
    if steps == 0 || no_bucket(m) {
        None
    } else {
        let r = limited_step_spec(m, p, keep);
        match r.0 {
            Some(f) => Some(f),
            None => limited_search_spec(r.1, p, keep, (steps - 1) as nat),
        }
    }
}

/// Searches for a goal by expanding, step by step, the last state of the
/// lowest bucket, with a frontier of at most `keep` states. Ends after
/// `max_steps` steps, or when the frontier is empty. Returns the generators
/// of the goal that it finds.
pub fn limited_width_search(states: Frontier, p: u8, keep: usize, max_steps: usize) -> (found:
    Option<Vec<u32>>)
    requires
        states.wf(p),
        max_steps <= MAX_DEPTH,
        states.depth_at_most(MAX_DEPTH + 1 - max_steps),
    ensures
        found.is_some() == limited_search_spec(states@, p, keep as nat, max_steps as nat).is_some(),
        found matches Some(f) ==> Some(f@) == limited_search_spec(
            states@,
            p,
            keep as nat,
            max_steps as nat,
        ) && is_goal_seq(f@, p),
{
    let mut frontier = states;
    let mut step: usize = 0;
    while step < max_steps
        invariant
            step <= max_steps <= MAX_DEPTH,
            frontier.wf(p),
            frontier.depth_at_most(MAX_DEPTH + 1 - max_steps + step),
            limited_search_spec(states@, p, keep as nat, max_steps as nat) == limited_search_spec(
                frontier@,
                p,
                keep as nat,
                (max_steps - step) as nat,
            ),
        decreases max_steps - step,
    {
        proof {
            frontier.lemma_depth_upto(MAX_DEPTH + 1 - max_steps + step, MAX_DEPTH as int);
        }
        match limited_width_step(&mut frontier, p, keep) {
            StepOutcome::Found(f) => {
                return Some(f);
            },
            StepOutcome::Idle => {
                return None;
            },
            StepOutcome::Expanded => {},
        }
        step += 1;
    }
    None
}

/// The limited-width search with a frontier of at most `MAX_KEEP` states.
pub fn search_best_first_limited_width(states: Frontier, p: u8, max_steps: usize) -> (found: Option<
    Vec<u32>,
>)
    requires
        states.wf(p),
        max_steps <= MAX_DEPTH,
        states.depth_at_most(MAX_DEPTH + 1 - max_steps),
    ensures
        found.is_some() == limited_search_spec(
            states@,
            p,
            MAX_KEEP as nat,
            max_steps as nat,
        ).is_some(),
        found matches Some(f) ==> Some(f@) == limited_search_spec(
            states@,
            p,
            MAX_KEEP as nat,
            max_steps as nat,
        ) && is_goal_seq(f@, p),
{
    limited_width_search(states, p, MAX_KEEP, max_steps)
}

} // verus!
