//! A search that ranks its candidates by looking ahead: layer by layer, the
//! candidates are scored, the best of them are kept and expanded, and the
//! children are the candidates of the next layer.

use crate::buckets::{flat, with_sequence};
use crate::frontier::{all_wf, bucket_depth, sequences, Frontier};
use crate::garside::generate_descendants;
use crate::random::{draw_below, seeded};
use crate::search::{
    children_of, children_seq, chunk_of, chunk_start, expand_state, is_goal_seq, lemma_chunk_start,
    root_sequences, split_chunks,
};
use crate::state::{State, MAX_DEPTH};
use crate::strategies::found_goal;
use crate::strategies::scoring::{evaluate_candidates, lookahead_spec, LOOKAHEAD_DEPTH};
use rayon::iter::{IntoParallelIterator, ParallelIterator};
use vstd::prelude::*;

verus! {

/// How many candidates a layer keeps and expands at most.
pub const CANDIDATES_TO_CHOOSE: usize = 15000;

/// In how many chunks the candidates of a layer are scored.
pub const SCORERS: usize = 16;

/// Candidates that can be scored: every state well formed over `p` and not
/// too long to look ahead from.
pub open spec fn scorable(states: Seq<State>, p: u8) -> bool {
    forall|i: int|
        0 <= i < states.len() ==> (#[trigger] states[i]).wf(p) && states[i].factors@.len()
            + LOOKAHEAD_DEPTH <= MAX_DEPTH + 1
}

/// The score of a sequence: what the exhaustive lookahead sees from it.
pub open spec fn score_of(fs: Seq<u32>, p: u8) -> u32 {
    lookahead_spec(fs, LOOKAHEAD_DEPTH as nat, p) as u32
}

/// `scores` holds the scores of `states`, one for one.
pub open spec fn scored(states: Seq<State>, p: u8, scores: Seq<u32>) -> bool {
    &&& scores.len() == states.len()
    &&& forall|i: int|
        0 <= i < scores.len() ==> #[trigger] scores[i] == lookahead_spec(
            states[i].factors@,
            LOOKAHEAD_DEPTH as nat,
            p,
        )
}

/// `rayon`'s `into_par_iter`, `map` and `collect` on a vector: the closure is
/// applied to every item, on a pool of threads, and the results come back in
/// the order of the items. Here the closure scores a chunk of candidates.
#[verifier::external_body]
fn score_in_parallel(chunks: Vec<&[State]>, p: u8) -> (out: Vec<Vec<u32>>)
    requires
        forall|i: int| 0 <= i < chunks@.len() ==> scorable((#[trigger] chunks@[i])@, p),
    ensures
        out@.len() == chunks@.len(),
        forall|i: int| 0 <= i < out@.len() ==> scored(chunks@[i]@, p, (#[trigger] out@[i])@),
{
    chunks.into_par_iter().map(|chunk| evaluate_candidates(chunk, p)).collect()
}

/// The scores of the candidates, one for one, computed in `SCORERS` chunks
/// in parallel.
pub fn score_all(candidates: &Vec<State>, p: u8) -> (scores: Vec<u32>)
    requires
        scorable(candidates@, p),
    ensures
        scored(candidates@, p, scores@),
{
    let chunks = split_chunks(candidates, SCORERS);
    let ghost n = candidates@.len();
    let ghost w = SCORERS as nat;
    proof {
        assert forall|i: int| 0 <= i < chunks@.len() implies scorable(
            (#[trigger] chunks@[i])@,
            p,
        ) by {
            lemma_chunk_start(n, w, i as nat);
            lemma_chunk_start(n, w, (i + 1) as nat);
            let lo = chunk_start(n, w, i as nat) as int;
            assert forall|j: int| 0 <= j < chunks@[i]@.len() implies (#[trigger] chunks@[i]@[j]).wf(
                p,
            ) && chunks@[i]@[j].factors@.len() + LOOKAHEAD_DEPTH <= MAX_DEPTH + 1 by {
                assert(chunks@[i]@[j] == candidates@[lo + j]);
            }
        }
    }
    let mut parts = score_in_parallel(chunks, p);
    let ghost ps = parts@;
    let mut scores: Vec<u32> = Vec::new();
    let mut i: usize = 0;
    proof {
        assert forall|j: int| 0 <= j < ps.len() implies scored(
            chunk_of(candidates@, w, j as nat),
            p,
            (#[trigger] ps[j])@,
        ) by {
            assert(chunks@[j]@ == chunk_of(candidates@, w, j as nat));
        }
    }
    while i < SCORERS
        invariant
            i <= SCORERS,
            w == SCORERS,
            n == candidates@.len(),
            ps.len() == w,
            parts@ == ps.skip(i as int),
            forall|j: int|
                0 <= j < ps.len() ==> scored(
                    chunk_of(candidates@, w, j as nat),
                    p,
                    (#[trigger] ps[j])@,
                ),
            scores@.len() == chunk_start(n, w, i as nat),
            forall|j: int|
                0 <= j < scores@.len() ==> #[trigger] scores@[j] == lookahead_spec(
                    candidates@[j].factors@,
                    LOOKAHEAD_DEPTH as nat,
                    p,
                ),
        decreases SCORERS - i,
    {
        let mut part = parts.remove(0);
        proof {
            assert(part == ps[i as int]);
            assert(parts@ =~= ps.skip(i + 1));
            lemma_chunk_start(n, w, i as nat);
            lemma_chunk_start(n, w, (i + 1) as nat);
            let lo = chunk_start(n, w, i as nat) as int;
            let chunk = chunk_of(candidates@, w, i as nat);
            assert(scored(chunk, p, part@));
            let after = scores@ + part@;
            assert forall|j: int| 0 <= j < after.len() implies #[trigger] after[j]
                == lookahead_spec(candidates@[j].factors@, LOOKAHEAD_DEPTH as nat, p) by {
                if j >= lo {
                    assert(after[j] == part@[j - lo]);
                    assert(chunk[j - lo] == candidates@[j]);
                } else {
                    assert(after[j] == scores@[j]);
                }
            }
        }
        scores.append(&mut part);
        i += 1;
    }
    proof {
        lemma_chunk_start(n, w, w);
    }
    scores
}

/// The sequences `cands` in buckets by their scores, each bucket in the
/// order of `cands`.
pub open spec fn by_score(cands: Seq<Seq<u32>>, scores: Seq<u32>) -> Map<u32, Seq<Seq<u32>>>
    decreases cands.len(),
{
    if cands.len() == 0 {
        Map::empty()
    } else {
        with_sequence(by_score(cands.drop_last(), scores.drop_last()), scores.last(), cands.last())
    }
}

/// The sequences `cands` by ascending score; those of equal score keep the
/// order that they have in `cands`.
pub open spec fn ranked(cands: Seq<Seq<u32>>, scores: Seq<u32>) -> Seq<Seq<u32>> {
    flat(by_score(cands, scores))
}

/// The candidates by ascending score; those of equal score keep their
/// order.
pub fn rank(candidates: Vec<State>, scores: &Vec<u32>) -> (out: Vec<State>)
    requires
        scores@.len() == candidates@.len(),
    ensures
        sequences(out@) == ranked(sequences(candidates@), scores@),
        forall|p: u8| all_wf(candidates@, p) ==> all_wf(out@, p),
        forall|d: int| bucket_depth(candidates@, d) ==> bucket_depth(out@, d),
{
    let mut buckets = Frontier::new();
    let ghost cands = sequences(candidates@);
    let n = candidates.len();
    let mut i: usize = 0;
    proof {
        assert(cands.take(0) =~= Seq::<Seq<u32>>::empty());
    }
    for state in it: candidates
        invariant
            it.seq() == candidates@,
            i == it.index(),
            n == candidates@.len(),
            cands == sequences(candidates@),
            scores@.len() == candidates@.len(),
            buckets@ == by_score(cands.take(i as int), scores@.take(i as int)),
            forall|p: u8| all_wf(candidates@, p) ==> buckets.holds(p),
            forall|d: int| bucket_depth(candidates@, d) ==> buckets.depth_at_most(d),
    {
        proof {
            assert(i < n);
            assert(state == candidates@[i as int]);
            assert forall|p: u8| all_wf(candidates@, p) implies state.wf(p) by {}
            assert(cands.take(i + 1).drop_last() =~= cands.take(i as int));
            assert(scores@.take(i + 1).drop_last() =~= scores@.take(i as int));
            assert(cands.take(i + 1).last() == state.factors@);
            assert(scores@.take(i + 1).last() == scores@[i as int]);
        }
        buckets.push_at(scores[i], state);
        i += 1;
    }
    proof {
        assert(cands.take(cands.len() as int) =~= cands);
        assert(scores@.take(scores@.len() as int) =~= scores@);
    }
    let out = buckets.into_sorted();
    proof {
        assert forall|p: u8| all_wf(candidates@, p) implies all_wf(out@, p) by {
            assert(buckets.holds(p));
        }
        assert forall|d: int| bucket_depth(candidates@, d) implies bucket_depth(out@, d) by {
            assert(buckets.depth_at_most(d));
        }
    }
    out
}

/// What one layer of the lookahead search gives: the generators of the
/// goal, where the best candidate is one, and else the candidates of the
/// next layer.
pub struct LookaheadLayer {
    pub goal: Option<Vec<u32>>,
    pub next: Vec<State>,
}

/// The scores of the sequences `cands`, one for one.
pub open spec fn scores_of(cands: Seq<Seq<u32>>, p: u8) -> Seq<u32> {
    Seq::new(cands.len(), |i: int| score_of(cands[i], p))
}

/// The best of the ranked sequences `r`, at most `keep`.
pub open spec fn best_of(r: Seq<Seq<u32>>, keep: nat) -> Seq<Seq<u32>> {
    if r.len() <= keep {
        r
    } else {
        r.take(keep as int)
    }
}

/// One layer of the lookahead search on the sequences `cands`: the goal, if
/// the best of them by score is one; else the children of the `keep` best,
/// in the order of their ranks.
pub open spec fn lookahead_layer_spec(cands: Seq<Seq<u32>>, p: u8, keep: nat) -> (
    Option<Seq<u32>>,
    Seq<Seq<u32>>,
) {
    let r = ranked(cands, scores_of(cands, p));
    if r.len() > 0 && is_goal_seq(r[0], p) {
        (Some(r[0]), Seq::empty())
    } else {
        (None, children_seq(best_of(r, keep)))
    }
}

/// One layer of the lookahead search: scores the candidates by exhaustive
/// lookahead and ranks them by score. Where the best of them is a goal it
/// reports its generators; else it expands the `keep` best, in the order of
/// their ranks.
pub fn lookahead_layer(candidates: Vec<State>, p: u8, keep: usize) -> (out: LookaheadLayer)
    requires
        scorable(candidates@, p),
    ensures
        out.goal.is_some() == lookahead_layer_spec(
            sequences(candidates@),
            p,
            keep as nat,
        ).0.is_some(),
        out.goal matches Some(f) ==> Some(f@) == lookahead_layer_spec(
            sequences(candidates@),
            p,
            keep as nat,
        ).0 && is_goal_seq(f@, p),
        sequences(out.next@) == lookahead_layer_spec(sequences(candidates@), p, keep as nat).1,
        forall|i: int| 0 <= i < out.next@.len() ==> (#[trigger] out.next@[i]).wf(p),
        forall|d: int| bucket_depth(candidates@, d) ==> bucket_depth(out.next@, d + 1),
{
    let scores = score_all(&candidates, p);
    let ghost cands = sequences(candidates@);
    proof {
        assert(scores@ =~= scores_of(cands, p));
        assert(bucket_depth(candidates@, MAX_DEPTH as int));
        assert(all_wf(candidates@, p));
    }
    let mut best = rank(candidates, &scores);
    proof {
        assert(all_wf(best@, p));
    }
    let ghost r = sequences(best@);
    if best.len() > 0 && best[0].is_goal() {
        proof {
            assert(r[0] == best@[0].factors@);
            assert(best@[0].mat.spec_projlen() == crate::frontier::seq_projlen(r[0], p));
            assert(sequences(Seq::<State>::empty()) =~= Seq::<Seq<u32>>::empty());
        }
        let goal = best[0].factors.clone();
        return LookaheadLayer { goal: Some(goal), next: Vec::new() };
    }
    proof {
        if best@.len() > 0 {
            assert(r[0] == best@[0].factors@);
            assert(best@[0].mat.spec_projlen() == crate::frontier::seq_projlen(r[0], p));
        }
    }
    best.truncate(keep);
    let ghost kept = sequences(best@);
    proof {
        assert(kept =~= best_of(r, keep as nat));
        assert(kept.take(0) =~= Seq::<Seq<u32>>::empty());
    }
    let table = generate_descendants();
    let mut next: Vec<State> = Vec::new();
    let n = best.len();
    let mut i: usize = 0;
    proof {
        assert(sequences(next@) =~= Seq::<Seq<u32>>::empty());
    }
    while i < n
        invariant
            n == best@.len(),
            i <= n,
            table.wf(),
            kept == sequences(best@),
            forall|j: int| 0 <= j < best@.len() ==> (#[trigger] best@[j]).wf(p),
            bucket_depth(best@, MAX_DEPTH as int),
            forall|d: int| bucket_depth(candidates@, d) ==> bucket_depth(best@, d),
            sequences(next@) == children_seq(kept.take(i as int)),
            forall|j: int| 0 <= j < next@.len() ==> (#[trigger] next@[j]).wf(p),
            forall|d: int| bucket_depth(candidates@, d) ==> bucket_depth(next@, d + 1),
        decreases n - i,
    {
        let ghost before = next@;
        let mut kids = expand_state(&best[i], &table, p);
        proof {
            let fs = best@[i as int].factors@;
            assert(kept.take(i + 1).drop_last() =~= kept.take(i as int));
            assert(kept.take(i + 1).last() == fs);
            assert(sequences(before + kids@) =~= sequences(before) + sequences(kids@));
            assert forall|d: int| bucket_depth(candidates@, d) implies bucket_depth(
                before + kids@,
                d + 1,
            ) by {
                assert(bucket_depth(best@, d));
                assert(fs.len() <= d);
                assert forall|j: int| 0 <= j < (before + kids@).len() implies (#[trigger] (before
                    + kids@)[j]).factors@.len() <= d + 1 by {
                    if j < before.len() {
                        assert((before + kids@)[j] == before[j]);
                    } else {
                        let t = j - before.len();
                        assert((before + kids@)[j] == kids@[t]);
                        assert(sequences(kids@)[t] == kids@[t].factors@);
                        assert(children_of(fs)[t].len() == fs.len() + 1);
                    }
                }
            }
        }
        next.append(&mut kids);
        i += 1;
    }
    proof {
        assert(kept.take(n as int) =~= kept);
    }
    LookaheadLayer { goal: None, next }
}

/// The vector `v` turned to the left by `by` places: what stood at `by`
/// comes first.
pub fn rotated(v: Vec<State>, by: usize) -> (out: Vec<State>)
    requires
        by <= v@.len(),
    ensures
        out@ == v@.subrange(by as int, v@.len() as int) + v@.subrange(0, by as int),
{
    let mut head = v;
    let mut out = head.split_off(by);
    out.append(&mut head);
    out
}

/// The sequence `s` turned to the left by `by` places.
pub open spec fn turned<T>(s: Seq<T>, by: int) -> Seq<T> {
    s.subrange(by, s.len() as int) + s.subrange(0, by)
}

/// A layer on the candidates `cands`, with the number `turn` drawn, makes
/// the candidates `cands2` of the next layer: the children of the best of
/// `cands`, turned by `turn` places, where `turn` is below their number.
pub open spec fn turn_with(
    cands: Seq<Seq<u32>>,
    keep: nat,
    p: u8,
    turn: nat,
    cands2: Seq<Seq<u32>>,
) -> bool {
    let next = lookahead_layer_spec(cands, p, keep).1;
    if next.len() == 0 {
        cands2 == next
    } else {
        turn < next.len() && cands2 == turned(next, turn as int)
    }
}

/// A layer on the candidates `cands` can make the candidates `cands2` of the
/// next layer: there is a number that can be drawn with which it does.
pub open spec fn turn_leads(cands: Seq<Seq<u32>>, keep: nat, p: u8, cands2: Seq<Seq<u32>>) -> bool {
    exists|turn: nat| #[trigger] turn_with(cands, keep, p, turn, cands2)
}

/// The layer at the place `i` of a path of candidates finds no goal and can
/// make the candidates at the next place.
pub open spec fn turn_on_path(cs: Seq<Seq<Seq<u32>>>, i: int, keep: nat, p: u8) -> bool {
    lookahead_layer_spec(cs[i], p, keep).0 is None && turn_leads(cs[i], keep, p, cs[i + 1])
}

/// The candidates `cs` are a path of `k` layers from the candidates `cands`
/// to the candidates `cands2`.
pub open spec fn turn_path(
    cands: Seq<Seq<u32>>,
    keep: nat,
    p: u8,
    k: nat,
    cands2: Seq<Seq<u32>>,
    cs: Seq<Seq<Seq<u32>>>,
) -> bool {
    &&& cs.len() == k + 1
    &&& cs[0] == cands
    &&& cs[k as int] == cands2
    &&& forall|i: int| 0 <= i < k ==> #[trigger] turn_on_path(cs, i, keep, p)
}

/// `k` layers, none of which finds a goal, can lead from the candidates
/// `cands` to the candidates `cands2`.
pub open spec fn turns_lead(
    cands: Seq<Seq<u32>>,
    keep: nat,
    p: u8,
    k: nat,
    cands2: Seq<Seq<u32>>,
) -> bool {
    exists|cs: Seq<Seq<Seq<u32>>>| #[trigger] turn_path(cands, keep, p, k, cands2, cs)
}

/// No layer leads from the candidates to themselves.
pub proof fn lemma_no_turn(cands: Seq<Seq<u32>>, keep: nat, p: u8)
    ensures
        turns_lead(cands, keep, p, 0, cands),
{
    assert(turn_path(cands, keep, p, 0, cands, seq![cands]));
}

/// One more layer after `k` layers.
pub proof fn lemma_one_more_turn(
    cands: Seq<Seq<u32>>,
    keep: nat,
    p: u8,
    k: nat,
    mid: Seq<Seq<u32>>,
    cands2: Seq<Seq<u32>>,
)
    requires
        turns_lead(cands, keep, p, k, mid),
        lookahead_layer_spec(mid, p, keep).0 is None,
        turn_leads(mid, keep, p, cands2),
    ensures
        turns_lead(cands, keep, p, k + 1, cands2),
{
    let cs = choose|cs: Seq<Seq<Seq<u32>>>| #[trigger] turn_path(cands, keep, p, k, mid, cs);
    let cs2 = cs.push(cands2);
    assert forall|i: int| 0 <= i < k + 1 implies #[trigger] turn_on_path(cs2, i, keep, p) by {
        if i < k {
            assert(turn_on_path(cs, i, keep, p));
        }
    }
    assert(turn_path(cands, keep, p, k + 1, cands2, cs2));
}

/// `found` is what a lookahead search of at most `max_layers` layers can
/// find, from the 22 generators: some number of layers that find no goal
/// lead to candidates of which the best is the goal `found`, or
/// `max_layers` layers find nothing.
pub open spec fn lookahead_finds(p: u8, keep: nat, max_layers: nat, found: Option<Seq<u32>>) -> bool {
    exists|k: nat, cands: Seq<Seq<u32>>|
        {
            &&& #[trigger] turns_lead(root_sequences(), keep, p, k, cands)
            &&& k <= max_layers
            &&& found == if k < max_layers {
                lookahead_layer_spec(cands, p, keep).0
            } else {
                None
            }
            &&& found is None ==> k == max_layers
        }
}

/// Searches for a goal layer by layer, from the 22 generators: every layer
/// ranks its candidates by exhaustive lookahead, stops where the best of
/// them is a goal, and else expands the `keep` best. The children, turned
/// by a number of places drawn at random, are the candidates of the next
/// layer. Ends after `max_layers` layers. Returns the generators of the
/// goal that it finds. The generator of random numbers is made from `seed`.
///
/// What the first layer does hangs on no number drawn: where the best of
/// the 22 generators is a goal, that is what the search returns.
pub fn lookahead_search_with(p: u8, seed: u64, keep: usize, max_layers: usize) -> (found: Option<
    Vec<u32>,
>)
    requires
        p >= 2,
        max_layers + LOOKAHEAD_DEPTH <= MAX_DEPTH,
    ensures
        lookahead_finds(p, keep as nat, max_layers as nat, found_goal(found)),
        max_layers > 0 && lookahead_layer_spec(root_sequences(), p, keep as nat).0 is Some
            ==> found_goal(found) == lookahead_layer_spec(root_sequences(), p, keep as nat).0,
        max_layers == 0 ==> found is None,
        found matches Some(f) ==> is_goal_seq(f@, p),
{
    let mut candidates: Vec<State> = Vec::new();
    let mut factor: u32 = 1;
    proof {
        assert(sequences(candidates@) =~= root_sequences().take(0));
    }
    while factor < 23
        invariant
            1 <= factor <= 23,
            p >= 2,
            forall|i: int| 0 <= i < candidates@.len() ==> (#[trigger] candidates@[i]).wf(p),
            bucket_depth(candidates@, 1),
            sequences(candidates@) == root_sequences().take(factor - 1),
        decreases 23 - factor,
    {
        let state = State::new(factor, p);
        proof {
            assert(sequences(candidates@.push(state)) =~= sequences(candidates@).push(
                state.factors@,
            ));
            assert(root_sequences().take(factor as int) =~= root_sequences().take(
                factor - 1,
            ).push(seq![factor]));
        }
        candidates.push(state);
        factor += 1;
    }
    let mut rng = seeded(seed);
    let mut layer: usize = 0;
    let ghost start = root_sequences();
    proof {
        assert(root_sequences().take(22) =~= root_sequences());
        lemma_no_turn(start, keep as nat, p);
    }
    while layer < max_layers
        invariant
            layer <= max_layers,
            max_layers + LOOKAHEAD_DEPTH <= MAX_DEPTH,
            forall|i: int| 0 <= i < candidates@.len() ==> (#[trigger] candidates@[i]).wf(p),
            bucket_depth(candidates@, 1 + layer),
            start == root_sequences(),
            turns_lead(start, keep as nat, p, layer as nat, sequences(candidates@)),
            layer == 0 ==> sequences(candidates@) == start,
            layer > 0 ==> lookahead_layer_spec(start, p, keep as nat).0 is None,
        decreases max_layers - layer,
    {
        let ghost mid = sequences(candidates@);
        let out = lookahead_layer(candidates, p, keep);
        if out.goal.is_some() {
            proof {
                assert(turns_lead(start, keep as nat, p, layer as nat, mid));
            }
            return out.goal;
        }
        let next = out.next;
        let count = next.len();
        let ghost mut turned_by: nat = 0;
        if count > 0 {
            let turn = draw_below(&mut rng, count);
            let ghost before = next@;
            candidates = rotated(next, turn);
            proof {
                assert forall|i: int| 0 <= i < candidates@.len() implies (#[trigger] candidates@[i]).wf(
                    p,
                ) && candidates@[i].factors@.len() <= 2 + layer by {
                    if i < count - turn {
                        assert(candidates@[i] == before[turn + i]);
                    } else {
                        assert(candidates@[i] == before[i - (count - turn)]);
                    }
                }
                assert(sequences(candidates@) =~= turned(sequences(before), turn as int));
                turned_by = turn as nat;
            }
        } else {
            candidates = next;
        }
        proof {
            assert(turn_with(mid, keep as nat, p, turned_by, sequences(candidates@)));
            lemma_one_more_turn(
                start,
                keep as nat,
                p,
                layer as nat,
                mid,
                sequences(candidates@),
            );
        }
        layer += 1;
    }
    None
}

/// The lookahead search that expands the `CANDIDATES_TO_CHOOSE` best
/// candidates of every layer.
pub fn lookahead_search(p: u8, seed: u64, max_layers: usize) -> (found: Option<Vec<u32>>)
    requires
        p >= 2,
        max_layers + LOOKAHEAD_DEPTH <= MAX_DEPTH,
    ensures
        lookahead_finds(p, CANDIDATES_TO_CHOOSE as nat, max_layers as nat, found_goal(found)),
        max_layers > 0 && lookahead_layer_spec(
            root_sequences(),
            p,
            CANDIDATES_TO_CHOOSE as nat,
        ).0 is Some ==> found_goal(found) == lookahead_layer_spec(
            root_sequences(),
            p,
            CANDIDATES_TO_CHOOSE as nat,
        ).0,
        max_layers == 0 ==> found is None,
        found matches Some(f) ==> is_goal_seq(f@, p),
{
    lookahead_search_with(p, seed, CANDIDATES_TO_CHOOSE, max_layers)
}

} // verus!
