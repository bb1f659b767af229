//! Scores for states: the least projective length that lies ahead of a state,
//! found exhaustively or along random continuations.

use crate::frontier::{seq_projlen, sequences};
use crate::garside::{descendants, generate_descendants, lemma_descendants_range};
use crate::random::{draw_below, seeded};
use crate::search::{children_of, children_seq, expand_state};
use crate::state::{State, MAX_DEPTH};
use vstd::prelude::*;

verus! {

/// How many generators the exhaustive lookahead looks ahead.
pub const LOOKAHEAD_DEPTH: usize = 2;

/// How many continuations the random lookahead tries.
pub const SAMPLE_COUNT: usize = 1000;

/// The sequences that extend `fs` by `depth` generators, each of which may
/// follow the one before it.
pub open spec fn layer(fs: Seq<u32>, depth: nat) -> Seq<Seq<u32>>
    decreases depth,
{
    if depth == 0 {
        seq![fs]
    } else {
        children_seq(layer(fs, (depth - 1) as nat))
    }
}

/// The least projective length that one of the sequences `cs` reaches, and
/// `u32::MAX` where there is none.
pub open spec fn least_projlen(cs: Seq<Seq<u32>>, p: u8) -> int
    decreases cs.len(),
{
    if cs.len() == 0 {
        u32::MAX as int
    } else {
        let rest = least_projlen(cs.drop_last(), p);
        if seq_projlen(cs.last(), p) < rest {
            seq_projlen(cs.last(), p)
        } else {
            rest
        }
    }
}

/// The least projective length among `states`, and `u32::MAX` where there is
/// none.
pub fn least_in(states: &Vec<State>, p: u8) -> (r: u32)
    requires
        forall|i: int| 0 <= i < states@.len() ==> (#[trigger] states@[i]).wf(p),
    ensures
        r == least_projlen(sequences(states@), p),
{
    let mut best: u32 = u32::MAX;
    let n = states.len();
    let mut i: usize = 0;
    proof {
        assert(sequences(states@).take(0) =~= Seq::<Seq<u32>>::empty());
    }
    while i < n
        invariant
            n == states@.len(),
            i <= n,
            forall|j: int| 0 <= j < states@.len() ==> (#[trigger] states@[j]).wf(p),
            best == least_projlen(sequences(states@).take(i as int), p),
        decreases n - i,
    {
        proof {
            let all = sequences(states@);
            assert(all.take(i + 1).drop_last() =~= all.take(i as int));
            assert(all.take(i + 1).last() == states@[i as int].factors@);
            assert(states@[i as int].wf(p));
        }
        let k = states[i].projlen();
        if k < best {
            best = k;
        }
        i += 1;
    }
    proof {
        assert(sequences(states@).take(n as int) =~= sequences(states@));
    }
    best
}

/// What a lookahead of `depth` generators sees from `fs`: the least
/// projective length at that depth, and `u32::MAX` for no depth at all.
pub open spec fn lookahead_spec(fs: Seq<u32>, depth: nat, p: u8) -> int {
    if depth == 0 {
        u32::MAX as int
    } else {
        least_projlen(layer(fs, depth), p)
    }
}

/// Scores a state by expanding it exhaustively for `depth` generators: the
/// score is the least projective length at that depth.
pub fn lookahead(candidate: &State, depth: usize, p: u8) -> (r: u32)
    requires
        candidate.wf(p),
        candidate.factors@.len() + depth <= MAX_DEPTH + 1,
    ensures
        r == lookahead_spec(candidate.factors@, depth as nat, p),
{
    if depth == 0 {
        return u32::MAX;
    }
    let table = generate_descendants();
    let ghost fs = candidate.factors@;
    let mut current: Vec<State> = expand_state(candidate, &table, p);
    let mut done: usize = 1;
    proof {
        assert(layer(fs, 0) == seq![fs]);
        assert(seq![fs].drop_last() =~= Seq::<Seq<u32>>::empty());
        assert(children_seq(Seq::<Seq<u32>>::empty()) =~= Seq::<Seq<u32>>::empty());
        assert(children_seq(seq![fs]) =~= children_of(fs));
        assert forall|i: int| 0 <= i < current@.len() implies (#[trigger] current@[i]).factors@.len()
            == fs.len() + 1 by {
            assert(sequences(current@)[i] == current@[i].factors@);
        }
    }
    while done < depth
        invariant
            1 <= done <= depth,
            fs.len() + depth <= MAX_DEPTH + 1,
            table.wf(),
            sequences(current@) == layer(fs, done as nat),
            forall|i: int| 0 <= i < current@.len() ==> (#[trigger] current@[i]).wf(p),
            forall|i: int|
                0 <= i < current@.len() ==> (#[trigger] current@[i]).factors@.len() == fs.len()
                    + done,
        decreases depth - done,
    {
        let mut next: Vec<State> = Vec::new();
        let n = current.len();
        let mut i: usize = 0;
        proof {
            assert(sequences(current@).take(0) =~= Seq::<Seq<u32>>::empty());
        }
        while i < n
            invariant
                n == current@.len(),
                i <= n,
                done < depth,
                fs.len() + depth <= MAX_DEPTH + 1,
                table.wf(),
                forall|j: int| 0 <= j < current@.len() ==> (#[trigger] current@[j]).wf(p),
                forall|j: int|
                    0 <= j < current@.len() ==> (#[trigger] current@[j]).factors@.len()
                        == fs.len() + done,
                sequences(next@) == children_seq(sequences(current@).take(i as int)),
                forall|j: int| 0 <= j < next@.len() ==> (#[trigger] next@[j]).wf(p),
                forall|j: int|
                    0 <= j < next@.len() ==> (#[trigger] next@[j]).factors@.len() == fs.len()
                        + done + 1,
            decreases n - i,
        {
            let ghost before = next@;
            let mut kids = expand_state(&current[i], &table, p);
            proof {
                let all = sequences(current@);
                assert(all.take(i + 1).drop_last() =~= all.take(i as int));
                assert(all.take(i + 1).last() == current@[i as int].factors@);
                assert(sequences(before + kids@) =~= sequences(before) + sequences(kids@));
                assert forall|j: int| 0 <= j < kids@.len() implies (#[trigger] kids@[j]).factors@.len()
                    == fs.len() + done + 1 by {
                    assert(sequences(kids@)[j] == kids@[j].factors@);
                }
            }
            next.append(&mut kids);
            i += 1;
        }
        proof {
            assert(sequences(current@).take(n as int) =~= sequences(current@));
        }
        current = next;
        done += 1;
    }
    least_in(&current, p)
}

/// Scores a state by exhaustive lookahead of `LOOKAHEAD_DEPTH` generators.
pub fn evaluate_candidate(candidate: &State, p: u8) -> (r: u32)
    requires
        candidate.wf(p),
        candidate.factors@.len() + LOOKAHEAD_DEPTH <= MAX_DEPTH + 1,
    ensures
        r == lookahead_spec(candidate.factors@, LOOKAHEAD_DEPTH as nat, p),
{
    lookahead(candidate, LOOKAHEAD_DEPTH, p)
}

/// Scores every state of `states` by exhaustive lookahead.
pub fn evaluate_candidates(states: &[State], p: u8) -> (out: Vec<u32>)
    requires
        forall|i: int|
            0 <= i < states@.len() ==> (#[trigger] states@[i]).wf(p) && states@[i].factors@.len()
                + LOOKAHEAD_DEPTH <= MAX_DEPTH + 1,
    ensures
        out@.len() == states@.len(),
        forall|i: int|
            0 <= i < out@.len() ==> #[trigger] out@[i] == lookahead_spec(
                states@[i].factors@,
                LOOKAHEAD_DEPTH as nat,
                p,
            ),
{
    let mut out: Vec<u32> = Vec::new();
    let n = states.len();
    let mut i: usize = 0;
    while i < n
        invariant
            n == states@.len(),
            i <= n,
            forall|j: int|
                0 <= j < states@.len() ==> (#[trigger] states@[j]).wf(p)
                    && states@[j].factors@.len() + LOOKAHEAD_DEPTH <= MAX_DEPTH + 1,
            out@.len() == i,
            forall|j: int|
                0 <= j < i ==> #[trigger] out@[j] == lookahead_spec(
                    states@[j].factors@,
                    LOOKAHEAD_DEPTH as nat,
                    p,
                ),
        decreases n - i,
    {
        let score = evaluate_candidate(&states[i], p);
        out.push(score);
        i += 1;
    }
    out
}

/// The sequences of `cs` at the places `picks`, in the order of the picks.
pub open spec fn picked(cs: Seq<Seq<u32>>, picks: Seq<usize>) -> Seq<Seq<u32>> {
    Seq::new(picks.len(), |i: int| cs[picks[i] as int])
}

/// Scores a state by the children at the places `picks`: the score is the
/// least projective length among them.
pub fn least_of_picks(candidate: &State, picks: &Vec<usize>, p: u8) -> (r: u32)
    requires
        candidate.wf(p),
        candidate.factors@.len() <= MAX_DEPTH,
        forall|i: int|
            0 <= i < picks@.len() ==> #[trigger] picks@[i] < descendants(
                candidate.factors@.last(),
            ).len(),
    ensures
        r == least_projlen(picked(children_of(candidate.factors@), picks@), p),
{
    let table = generate_descendants();
    let kids = expand_state(candidate, &table, p);
    let ghost cs = children_of(candidate.factors@);
    let mut best: u32 = u32::MAX;
    let n = picks.len();
    let mut i: usize = 0;
    proof {
        assert(picked(cs, picks@).take(0) =~= Seq::<Seq<u32>>::empty());
    }
    while i < n
        invariant
            n == picks@.len(),
            i <= n,
            cs == children_of(candidate.factors@),
            sequences(kids@) == cs,
            forall|j: int| 0 <= j < kids@.len() ==> (#[trigger] kids@[j]).wf(p),
            forall|j: int| 0 <= j < picks@.len() ==> #[trigger] picks@[j] < cs.len(),
            best == least_projlen(picked(cs, picks@).take(i as int), p),
        decreases n - i,
    {
        let at = picks[i];
        proof {
            let all = picked(cs, picks@);
            assert(all.take(i + 1).drop_last() =~= all.take(i as int));
            assert(all.take(i + 1).last() == cs[at as int]);
            assert(sequences(kids@)[at as int] == kids@[at as int].factors@);
            assert(kids@[at as int].wf(p));
        }
        let k = kids[at].projlen();
        if k < best {
            best = k;
        }
        i += 1;
    }
    proof {
        assert(picked(cs, picks@).take(n as int) =~= picked(cs, picks@));
    }
    best
}

/// Scores a state by `SAMPLE_COUNT` random continuations of one generator,
/// each chosen among the generators that may follow: the score is the least
/// projective length that one of them reaches. The generator of random
/// numbers is made from `seed`.
pub fn evaluate_candidate_mc(candidate: &State, p: u8, seed: u64) -> (r: u32)
    requires
        candidate.wf(p),
        candidate.factors@.len() <= MAX_DEPTH,
    ensures
        exists|picks: Seq<usize>|
            picks.len() == SAMPLE_COUNT && (forall|i: int|
                0 <= i < picks.len() ==> #[trigger] picks[i] < children_of(
                    candidate.factors@,
                ).len()) && r == least_projlen(
                #[trigger] picked(children_of(candidate.factors@), picks),
                p,
            ),
{
    let mut rng = seeded(seed);
    let ghost width = descendants(candidate.factors@.last()).len();
    proof {
        lemma_descendants_range(candidate.factors@.last());
    }
    let table = generate_descendants();
    let last_factor = candidate.factors[candidate.factors.len() - 1];
    let n = match table.get(last_factor) {
        Some(next) => next.len(),
        None => 1,
    };
    let mut picks: Vec<usize> = Vec::new();
    let mut i: usize = 0;
    while i < SAMPLE_COUNT
        invariant
            i <= SAMPLE_COUNT,
            n == width,
            n > 0,
            picks@.len() == i,
            forall|j: int| 0 <= j < picks@.len() ==> #[trigger] picks@[j] < n,
        decreases SAMPLE_COUNT - i,
    {
        let x = draw_below(&mut rng, n);
        picks.push(x);
        i += 1;
    }
    let r = least_of_picks(candidate, &picks, p);
    proof {
        assert(picked(children_of(candidate.factors@), picks@) == picked(
            children_of(candidate.factors@),
            picks@,
        ));
    }
    r
}

} // verus!
