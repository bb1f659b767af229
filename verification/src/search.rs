//! The bounded best-first search: rounds of trimming the frontier, taking a
//! batch from its lowest bucket, expanding the batch on a pool of workers and
//! letting the children into the frontier.

use crate::buckets::{
    after_select, is_lowest_key, merged, no_bucket, selected, trimmed, with_sequence,
};
use crate::frontier::{bucket_depth, seq_projlen, sequences, Frontier};
use crate::garside::{
    descendant_map, descendants, generate_descendants, lemma_descendants_range, DescendantTable,
};
use crate::laws::{buckets_legal, legal, lemma_roots_legal, lemma_search_legal};
use crate::state::{State, MAX_DEPTH};
use rayon::iter::{IntoParallelIterator, ParallelIterator};
use vstd::prelude::*;
use vstd::slice::slice_subrange;

verus! {

/// The sequences that extend `fs` by one generator that may follow its last,
/// in the order of the table of descendants.
pub open spec fn children_of(fs: Seq<u32>) -> Seq<Seq<u32>> {
    Seq::new(descendants(fs.last()).len(), |i: int| fs.push(descendants(fs.last())[i]))
}

/// The children of all sequences of `batch`, in order.
pub open spec fn children_seq(batch: Seq<Seq<u32>>) -> Seq<Seq<u32>>
    decreases batch.len(),
{
    if batch.len() == 0 {
        Seq::empty()
    } else {
        children_seq(batch.drop_last()) + children_of(batch.last())
    }
}

/// The generators `fs` reach a matrix of projective length 1.
pub open spec fn is_goal_seq(fs: Seq<u32>, p: u8) -> bool {
    seq_projlen(fs, p) == 1
}

/// The index of the first goal among `cs`, or their number where none is
/// a goal.
pub open spec fn first_goal(cs: Seq<Seq<u32>>, p: u8) -> int
    decreases cs.len(),
{
    if cs.len() == 0 {
        0
    } else if is_goal_seq(cs[0], p) {
        0
    } else {
        1 + first_goal(cs.skip(1), p)
    }
}

/// The sequences `cs` in buckets by projective length, each bucket in the
/// order of `cs`.
pub open spec fn bucketed(cs: Seq<Seq<u32>>, p: u8) -> Map<u32, Seq<Seq<u32>>>
    decreases cs.len(),
{
    if cs.len() == 0 {
        Map::empty()
    } else {
        with_sequence(bucketed(cs.drop_last(), p), seq_projlen(cs.last(), p) as u32, cs.last())
    }
}

/// Where no sequence before `i` is a goal, the first goal is at `i` if that
/// one is a goal, and after `i` if not.
pub proof fn lemma_first_goal(cs: Seq<Seq<u32>>, p: u8, i: int)
    requires
        0 <= i <= cs.len(),
        forall|j: int| 0 <= j < i ==> !is_goal_seq(#[trigger] cs[j], p),
    ensures
        i < cs.len() && is_goal_seq(cs[i], p) ==> first_goal(cs, p) == i,
        i == cs.len() ==> first_goal(cs, p) == cs.len(),
        first_goal(cs, p) >= i,
    decreases cs.len(),
{
    lemma_first_goal_range(cs, p);
    if cs.len() > 0 && i > 0 {
        assert(!is_goal_seq(cs[0], p));
        let rest = cs.skip(1);
        assert forall|j: int| 0 <= j < i - 1 implies !is_goal_seq(#[trigger] rest[j], p) by {
            assert(rest[j] == cs[j + 1]);
        }
        lemma_first_goal(rest, p, i - 1);
        if i < cs.len() {
            assert(rest[i - 1] == cs[i]);
        }
    }
}

/// The first goal lies within the sequences, and is their number only where
/// none is a goal.
pub proof fn lemma_first_goal_range(cs: Seq<Seq<u32>>, p: u8)
    ensures
        0 <= first_goal(cs, p) <= cs.len(),
        first_goal(cs, p) < cs.len() ==> is_goal_seq(cs[first_goal(cs, p)], p),
        forall|j: int| 0 <= j < first_goal(cs, p) ==> !is_goal_seq(#[trigger] cs[j], p),
    decreases cs.len(),
{
    if cs.len() > 0 && !is_goal_seq(cs[0], p) {
        let rest = cs.skip(1);
        lemma_first_goal_range(rest, p);
        let f = first_goal(rest, p);
        if f < rest.len() {
            assert(rest[f] == cs[f + 1]);
        }
        assert forall|j: int| 0 <= j < f + 1 implies !is_goal_seq(#[trigger] cs[j], p) by {
            if j > 0 {
                assert(rest[j - 1] == cs[j]);
            }
        }
    }
}

/// The children of a state, in the order of the table of descendants.
pub fn expand_state(state: &State, table: &DescendantTable, p: u8) -> (out: Vec<State>)
    requires
        state.wf(p),
        state.factors@.len() <= MAX_DEPTH,
        table.wf(),
    ensures
        sequences(out@) == children_of(state.factors@),
        forall|i: int| 0 <= i < out@.len() ==> (#[trigger] out@[i]).wf(p),
{
    let ghost fs = state.factors@;
    let mut out: Vec<State> = Vec::new();
    let last_factor = state.factors[state.factors.len() - 1];
    proof {
        lemma_descendants_range(fs.last());
        state.mat.lemma_powers_weaken(4 * (fs.len() as int), u16::MAX - 4);
    }
    if let Some(next) = table.get(last_factor) {
        let m = next.len();
        let mut gi: usize = 0;
        while gi < m
            invariant
                m == next@.len(),
                gi <= m,
                next@ == descendants(fs.last()),
                fs == state.factors@,
                state.wf(p),
                state.mat.powers_upto(u16::MAX - 4),
                forall|i: int| 0 <= i < next@.len() ==> 1 <= #[trigger] next@[i] <= 22,
                sequences(out@) == children_of(fs).take(gi as int),
                forall|i: int| 0 <= i < out@.len() ==> (#[trigger] out@[i]).wf(p),
            decreases m - gi,
        {
            let child = state.append(next[gi], p);
            proof {
                assert(sequences(out@.push(child)) =~= sequences(out@).push(child.factors@));
                assert(children_of(fs).take(gi + 1) =~= children_of(fs).take(gi as int).push(
                    child.factors@,
                ));
            }
            out.push(child);
            gi += 1;
        }
        proof {
            assert(children_of(fs).take(m as int) =~= children_of(fs));
        }
    } else {
        proof {
            assert(descendant_map(*table).contains_key(last_factor));
            assert(false);
        }
    }
    out
}

/// What the expansion of a batch gives: the generator sequence of the goal,
/// where a child is one, and the children in buckets.
pub struct Expansion {
    pub goal: Option<Vec<u32>>,
    pub children: Frontier,
}

/// A batch that can be expanded: every state well formed over `p` and not
/// too long to be extended.
pub open spec fn expandable(states: Seq<State>, p: u8) -> bool {
    forall|i: int|
        0 <= i < states.len() ==> (#[trigger] states[i]).wf(p) && states[i].factors@.len()
            <= MAX_DEPTH
}

/// `out` is the expansion of the batch `states`: the children are made in
/// order, state by state and descendant by descendant. Up to the first goal
/// among them they stand in the buckets; the goal itself, if there is one,
/// is reported and ends the expansion.
pub open spec fn expanded(states: Seq<State>, p: u8, out: Expansion) -> bool {
    let cs = children_seq(sequences(states));
    let g = first_goal(cs, p);
    &&& out.children@ == bucketed(cs.take(g), p)
    &&& out.goal.is_some() == (g < cs.len())
    &&& out.goal matches Some(win) ==> win@ == cs[g]
    &&& out.children.wf(p)
    &&& forall|d: int| bucket_depth(states, d) ==> out.children.depth_at_most(d + 1)
}

/// Expands a batch: makes the children of every state, in order, and puts
/// them in buckets by projective length. Stops at the first child that is a
/// goal and reports its generators.
pub fn run_to_fixed_limited(states: &[State], p: u8) -> (out: Expansion)
    requires
        expandable(states@, p),
    ensures
        expanded(states@, p, out),
{
    let table = generate_descendants();
    let mut result = Frontier::new();
    let ghost batch = sequences(states@);
    let n = states.len();
    let mut si: usize = 0;
    proof {
        assert(batch.take(0) =~= Seq::<Seq<u32>>::empty());
        assert(children_seq(batch.take(0)).take(0) =~= children_seq(batch.take(0)));
    }
    while si < n
        invariant
            n == states@.len(),
            si <= n,
            batch == sequences(states@),
            expandable(states@, p),
            table.wf(),
            result@ == bucketed(children_seq(batch.take(si as int)), p),
            forall|j: int|
                0 <= j < children_seq(batch.take(si as int)).len() ==> !is_goal_seq(
                    #[trigger] children_seq(batch.take(si as int))[j],
                    p,
                ),
            result.wf(p),
            forall|d: int| bucket_depth(states@, d) ==> result.depth_at_most(d + 1),
        decreases n - si,
    {
        let state = &states[si];
        let ghost fs = state.factors@;
        let ghost done = children_seq(batch.take(si as int));
        proof {
            assert(state.wf(p));
            assert(batch[si as int] == fs);
            assert(batch.take(si + 1).drop_last() =~= batch.take(si as int));
            assert(batch.take(si + 1).last() == fs);
            assert(children_seq(batch.take(si + 1)) == done + children_of(fs));
            lemma_descendants_range(fs.last());
            assert(done + children_of(fs).take(0) =~= done);
        }
        let last_factor = state.factors[state.factors.len() - 1];
        let found = table.get(last_factor);
        if let Some(next) = found {
            let m = next.len();
            let mut gi: usize = 0;
            while gi < m
                invariant
                    m == next@.len(),
                    gi <= m,
                    n == states@.len(),
                    si < n,
                    batch == sequences(states@),
                    done == children_seq(batch.take(si as int)),
                    children_seq(batch.take(si + 1)) == done + children_of(fs),
                    next@ == descendants(fs.last()),
                    fs == state.factors@,
                    state.wf(p),
                    fs.len() <= MAX_DEPTH,
                    1 <= fs.last() <= 22,
                    result@ == bucketed(done + children_of(fs).take(gi as int), p),
                    forall|j: int|
                        0 <= j < (done + children_of(fs).take(gi as int)).len() ==> !is_goal_seq(
                            #[trigger] (done + children_of(fs).take(gi as int))[j],
                            p,
                        ),
                    result.wf(p),
                    forall|d: int| bucket_depth(states@, d) ==> result.depth_at_most(d + 1),
                    0 <= si < states@.len() && states@[si as int].factors@ == fs,
                decreases m - gi,
            {
                let ghost sofar = done + children_of(fs).take(gi as int);
                proof {
                    lemma_descendants_range(fs.last());
                    state.mat.lemma_powers_weaken(4 * (fs.len() as int), u16::MAX - 4);
                }
                let new_state = state.append(next[gi], p);
                proof {
                    let child = new_state.factors@;
                    assert(child == children_of(fs)[gi as int]);
                    assert(done + children_of(fs).take(gi + 1) =~= sofar.push(child));
                    assert(sofar.push(child).drop_last() =~= sofar);
                    assert(new_state.mat.spec_projlen() == seq_projlen(child, p));
                }
                if new_state.is_goal() {
                    proof {
                        let cs = children_seq(batch);
                        let full = done + children_of(fs);
                        lemma_children_prefix(batch, si + 1);
                        let at = sofar.len() as int;
                        assert(children_of(fs).len() == m);
                        assert(at < full.len() <= cs.len());
                        assert forall|j: int| 0 <= j <= at implies cs[j] == full[j] by {
                            assert(cs.take(full.len() as int)[j] == cs[j]);
                        }
                        assert(full[at] == children_of(fs)[gi as int]);
                        assert(cs[at] == new_state.factors@);
                        assert(cs.take(at) =~= sofar) by {
                            assert forall|j: int| 0 <= j < at implies cs.take(at)[j] == sofar[j] by {
                                assert(cs[j] == full[j]);
                            }
                        }
                        assert forall|j: int| 0 <= j < at implies !is_goal_seq(
                            #[trigger] cs[j],
                            p,
                        ) by {
                            assert(cs[j] == full[j]);
                            assert(full[j] == sofar[j]);
                        }
                        lemma_first_goal(cs, p, at);
                        assert forall|d: int| bucket_depth(states@, d) implies result.depth_at_most(
                            d + 1,
                        ) by {
                            assert(states@[si as int].factors@.len() <= d);
                        }
                    }
                    return Expansion { goal: Some(new_state.factors), children: result };
                }
                result.push(new_state);
                gi += 1;
            }
            proof {
                assert(children_of(fs).take(m as int) =~= children_of(fs));
            }
        } else {
            proof {
                assert(descendant_map(table).contains_key(last_factor));
                assert(false);
            }
        }
        si += 1;
    }
    proof {
        assert(batch.take(n as int) =~= batch);
        let cs = children_seq(batch);
        lemma_first_goal(cs, p, cs.len() as int);
        assert(cs.take(cs.len() as int) =~= cs);
    }
    Expansion { goal: None, children: result }
}

/// The children of a prefix of a batch are a prefix of the children of the
/// batch.
pub proof fn lemma_children_prefix(batch: Seq<Seq<u32>>, k: int)
    requires
        0 <= k <= batch.len(),
    ensures
        children_seq(batch.take(k)).len() <= children_seq(batch).len(),
        children_seq(batch).take(children_seq(batch.take(k)).len() as int) == children_seq(
            batch.take(k),
        ),
    decreases batch.len() - k,
{
    if k == batch.len() {
        assert(batch.take(k) =~= batch);
        assert(children_seq(batch).take(children_seq(batch).len() as int) =~= children_seq(batch));
    } else {
        lemma_children_prefix(batch, k + 1);
        let longer = batch.take(k + 1);
        assert(longer.drop_last() =~= batch.take(k));
        let a = children_seq(batch.take(k));
        assert(children_seq(longer) == a + children_of(longer.last()));
        assert(children_seq(batch).take(a.len() as int) =~= children_seq(longer).take(
            a.len() as int,
        ));
        assert(children_seq(longer).take(a.len() as int) =~= a);
    }
}

/// How many items the `i`-th of `w` chunks of `n` items holds: the chunks
/// are as equal as can be, the longer ones first.
pub open spec fn chunk_len(n: nat, w: nat, i: nat) -> nat {
    n / w + if i < n % w {
        1nat
    } else {
        0nat
    }
}

/// Where the `i`-th of `w` chunks of `n` items starts.
pub open spec fn chunk_start(n: nat, w: nat, i: nat) -> nat
    decreases i,
{
    if i == 0 {
        0
    } else {
        chunk_start(n, w, (i - 1) as nat) + chunk_len(n, w, (i - 1) as nat)
    }
}

/// The `i`-th of the `w` chunks of `s`.
pub open spec fn chunk_of<T>(s: Seq<T>, w: nat, i: nat) -> Seq<T> {
    s.subrange(chunk_start(s.len(), w, i) as int, chunk_start(s.len(), w, i + 1) as int)
}

/// The chunks follow one another and end where the items end.
pub proof fn lemma_chunk_start(n: nat, w: nat, i: nat)
    requires
        w > 0,
        i <= w,
    ensures
        chunk_start(n, w, i) == i * (n / w) + if i < n % w {
            i
        } else {
            n % w
        },
        chunk_start(n, w, i) <= n,
        i == w ==> chunk_start(n, w, i) == n,
    decreases i,
{
    let b: int = (n / w) as int;
    let e: int = (n % w) as int;
    vstd::arithmetic::div_mod::lemma_fundamental_div_mod(n as int, w as int);
    vstd::arithmetic::div_mod::lemma_mod_bound(n as int, w as int);
    vstd::arithmetic::div_mod::lemma_div_pos_is_pos(n as int, w as int);
    assert(n == w * b + e);
    assert(0 <= e < w);
    assert(b >= 0);
    if i > 0 {
        lemma_chunk_start(n, w, (i - 1) as nat);
        assert(i * b == (i - 1) * b + b) by (nonlinear_arith);
        assert(chunk_len(n, w, (i - 1) as nat) == b + if i - 1 < e {
            1int
        } else {
            0int
        });
    } else {
        assert(i * b == 0) by (nonlinear_arith)
            requires
                i == 0,
        ;
    }
    assert(i * b <= w * b) by (nonlinear_arith)
        requires
            i <= w,
            b >= 0,
    ;
}

/// Cuts a batch into `workers` chunks that follow one another, as equal as
/// can be.
pub(crate) fn split_chunks<'a>(batch: &'a Vec<State>, workers: usize) -> (chunks: Vec<&'a [State]>)
    requires
        workers > 0,
    ensures
        chunks@.len() == workers,
        forall|i: int|
            0 <= i < workers ==> (#[trigger] chunks@[i])@ == chunk_of(
                batch@,
                workers as nat,
                i as nat,
            ),
{
    let n = batch.len();
    let base = n / workers;
    let extra = n % workers;
    let mut chunks: Vec<&'a [State]> = Vec::new();
    let mut lo: usize = 0;
    let mut i: usize = 0;
    while i < workers
        invariant
            n == batch@.len(),
            workers > 0,
            base == n / workers,
            extra == n % workers,
            i <= workers,
            lo == chunk_start(n as nat, workers as nat, i as nat),
            chunks@.len() == i,
            forall|j: int|
                0 <= j < i ==> (#[trigger] chunks@[j])@ == chunk_of(
                    batch@,
                    workers as nat,
                    j as nat,
                ),
        decreases workers - i,
    {
        proof {
            lemma_chunk_start(n as nat, workers as nat, (i + 1) as nat);
        }
        let len = if i < extra {
            base + 1
        } else {
            base
        };
        let hi = lo + len;
        let chunk = slice_subrange(batch.as_slice(), lo, hi);
        chunks.push(chunk);
        lo = hi;
        i += 1;
    }
    chunks
}

/// `rayon`'s `into_par_iter`, `map` and `collect` on a vector: the closure is
/// applied to every item, on a pool of threads, and the results come back in
/// the order of the items. Here the closure expands a chunk.
#[verifier::external_body]
fn expand_in_parallel(chunks: Vec<&[State]>, p: u8) -> (out: Vec<Expansion>)
    requires
        forall|i: int| 0 <= i < chunks@.len() ==> expandable((#[trigger] chunks@[i])@, p),
    ensures
        out@.len() == chunks@.len(),
        forall|i: int| 0 <= i < out@.len() ==> expanded(chunks@[i]@, p, #[trigger] out@[i]),
{
    chunks.into_par_iter().map(|chunk| run_to_fixed_limited(chunk, p)).collect()
}

/// Some child of the sequences `chunk` is a goal.
pub open spec fn has_goal(chunk: Seq<Seq<u32>>, p: u8) -> bool {
    first_goal(children_seq(chunk), p) < children_seq(chunk).len()
}

/// The first goal among the children of `chunk`.
pub open spec fn goal_of(chunk: Seq<Seq<u32>>, p: u8) -> Seq<u32> {
    children_seq(chunk)[first_goal(children_seq(chunk), p)]
}

/// The first of the `w` chunks of `batch`, from chunk `i` on, that has a
/// goal among its children; `w` where none has.
pub open spec fn winner_from(batch: Seq<Seq<u32>>, w: nat, p: u8, i: nat) -> nat
    decreases w - i,
{
    if i >= w {
        w
    } else if has_goal(chunk_of(batch, w, i), p) {
        i
    } else {
        winner_from(batch, w, p, i + 1)
    }
}

/// The buckets `m` after the children of the first `upto` of the `w` chunks
/// of `batch` have asked for admission, chunk by chunk.
pub open spec fn merged_chunks(
    m: Map<u32, Seq<Seq<u32>>>,
    batch: Seq<Seq<u32>>,
    w: nat,
    p: u8,
    cap: nat,
    upto: nat,
) -> Map<u32, Seq<Seq<u32>>>
    decreases upto,
{
    if upto == 0 {
        m
    } else {
        merged(
            merged_chunks(m, batch, w, p, cap, (upto - 1) as nat),
            bucketed(children_seq(chunk_of(batch, w, (upto - 1) as nat)), p),
            cap,
        )
    }
}

/// The lowest key of `m`.
pub open spec fn lowest_key(m: Map<u32, Seq<Seq<u32>>>) -> u32 {
    choose|k: u32| is_lowest_key(m, k)
}

/// One round on the buckets `m`: the goal that it finds, if any, and the
/// buckets that it leaves. The buckets are trimmed to `total_cap`; the batch
/// is taken from the lowest bucket and cut into `w` chunks; where a chunk
/// has a goal among its children, the goal of the first such chunk is found
/// and no child is let in; else the children of all chunks ask for
/// admission.
pub open spec fn round_spec(
    m: Map<u32, Seq<Seq<u32>>>,
    w: nat,
    p: u8,
    total_cap: nat,
    batch_cap: nat,
) -> (Option<Seq<u32>>, Map<u32, Seq<Seq<u32>>>) {
    let m1 = trimmed(m, total_cap);
    if no_bucket(m1) {
        (None, m1)
    } else {
        let k = lowest_key(m1);
        let batch = selected(m1, k, batch_cap);
        let m2 = after_select(m1, k, batch_cap);
        let win = winner_from(batch, w, p, 0);
        if win < w {
            (Some(goal_of(chunk_of(batch, w, win), p)), m2)
        } else {
            (None, merged_chunks(m2, batch, w, p, total_cap, w))
        }
    }
}

/// Where no chunk from `from` up to `i` has a goal, the search for the
/// winner goes on at `i`.
pub proof fn lemma_winner_from(batch: Seq<Seq<u32>>, w: nat, p: u8, from: nat, i: nat)
    requires
        from <= i <= w,
        forall|j: nat| from <= j < i ==> !has_goal(#[trigger] chunk_of(batch, w, j), p),
    ensures
        winner_from(batch, w, p, from) == winner_from(batch, w, p, i),
    decreases i - from,
{
    if from < i {
        assert(!has_goal(chunk_of(batch, w, from), p));
        lemma_winner_from(batch, w, p, from + 1, i);
    }
}

/// The sequences of a chunk of states are the chunk of their sequences.
pub proof fn lemma_chunk_sequences(states: Seq<State>, w: nat, i: nat)
    requires
        w > 0,
        i < w,
    ensures
        sequences(chunk_of(states, w, i)) == chunk_of(sequences(states), w, i),
{
    lemma_chunk_start(states.len(), w, i);
    lemma_chunk_start(states.len(), w, i + 1);
    assert(sequences(chunk_of(states, w, i)) =~= chunk_of(sequences(states), w, i));
}

/// A batch without states has no winner and lets nothing in.
pub proof fn lemma_idle_chunks(m: Map<u32, Seq<Seq<u32>>>, w: nat, p: u8, cap: nat, upto: nat)
    requires
        w > 0,
        upto <= w,
    ensures
        merged_chunks(m, Seq::empty(), w, p, cap, upto) == m,
        winner_from(Seq::empty(), w, p, (w - upto) as nat) == w,
    decreases upto,
{
    let none = Seq::<Seq<u32>>::empty();
    if upto > 0 {
        lemma_idle_chunks(m, w, p, cap, (upto - 1) as nat);
        let i = (upto - 1) as nat;
        lemma_chunk_start(0, w, i);
        lemma_chunk_start(0, w, i + 1);
        assert(chunk_of(none, w, i) =~= none);
        crate::buckets::lemma_merged_gap(m, Map::empty(), cap, 0, 0x1_0000_0000);
        let j = (w - upto) as nat;
        lemma_chunk_start(0, w, j);
        lemma_chunk_start(0, w, j + 1);
        assert(chunk_of(none, w, j) =~= none);
    }
}

/// What the expansion of a batch in chunks gives: the generators of the
/// goal, where a chunk has one among its children, and else the children of
/// every chunk in buckets.
pub struct BatchExpansion {
    pub goal: Option<Vec<u32>>,
    pub parts: Vec<Frontier>,
}

/// `out` is the expansion of the batch `batch` in `w` chunks: the goal of
/// the first chunk that has one among its children is reported; where no
/// chunk has one, the children of each chunk stand in buckets.
pub open spec fn batch_expanded(batch: Seq<State>, w: nat, p: u8, out: BatchExpansion) -> bool {
    let seqs = sequences(batch);
    let win = winner_from(seqs, w, p, 0);
    &&& out.goal.is_some() == (win < w)
    &&& out.goal matches Some(f) ==> f@ == goal_of(chunk_of(seqs, w, win), p) && is_goal_seq(
        f@,
        p,
    )
    &&& out.goal is None ==> {
        &&& out.parts@.len() == w
        &&& forall|i: int|
            0 <= i < w ==> (#[trigger] out.parts@[i])@ == bucketed(
                children_seq(chunk_of(seqs, w, i as nat)),
                p,
            ) && out.parts@[i].wf(p)
        &&& forall|d: int, i: int|
            #![trigger bucket_depth(batch, d), out.parts@[i]]
            bucket_depth(batch, d) && 0 <= i < w ==> out.parts@[i].depth_at_most(d + 1)
    }
}

/// Expands a batch in `num_workers` chunks, in parallel.
pub fn expand_batch(batch: &Vec<State>, num_workers: usize, p: u8) -> (out: BatchExpansion)
    requires
        expandable(batch@, p),
        num_workers > 0,
    ensures
        batch_expanded(batch@, num_workers as nat, p, out),
{
    let ghost w = num_workers as nat;
    let ghost seqs = sequences(batch@);
    let chunks = split_chunks(batch, num_workers);
    proof {
        assert forall|i: int| 0 <= i < chunks@.len() implies expandable(
            (#[trigger] chunks@[i])@,
            p,
        ) by {
            lemma_chunk_start(batch@.len(), w, i as nat);
            lemma_chunk_start(batch@.len(), w, (i + 1) as nat);
            let lo = chunk_start(batch@.len(), w, i as nat) as int;
            assert forall|j: int| 0 <= j < chunks@[i]@.len() implies (#[trigger] chunks@[i]@[j]).wf(
                p,
            ) && chunks@[i]@[j].factors@.len() <= MAX_DEPTH by {
                assert(chunks@[i]@[j] == batch@[lo + j]);
                assert(batch@[lo + j].wf(p));
            }
        }
    }
    let mut results = expand_in_parallel(chunks, p);
    let ghost rs = results@;
    proof {
        assert forall|i: int| 0 <= i < rs.len() implies expanded(
            chunk_of(batch@, w, i as nat),
            p,
            #[trigger] rs[i],
        ) by {
            assert(chunks@[i]@ == chunk_of(batch@, w, i as nat));
        }
    }
    let mut win: usize = 0;
    while win < results.len() && results[win].goal.is_none()
        invariant
            results@ == rs,
            w > 0,
            rs.len() == w,
            win <= rs.len(),
            forall|i: int|
                0 <= i < rs.len() ==> expanded(
                    chunk_of(batch@, w, i as nat),
                    p,
                    #[trigger] rs[i],
                ),
            seqs == sequences(batch@),
            forall|j: nat| j < win ==> !has_goal(#[trigger] chunk_of(seqs, w, j), p),
            forall|j: int| 0 <= j < win ==> (#[trigger] rs[j]).goal.is_none(),
        decreases rs.len() - win,
    {
        proof {
            lemma_chunk_sequences(batch@, w, win as nat);
            assert(expanded(chunk_of(batch@, w, win as nat), p, rs[win as int]));
        }
        win += 1;
    }
    if win < results.len() {
        let e = results.swap_remove(win);
        proof {
            lemma_chunk_sequences(batch@, w, win as nat);
            assert(expanded(chunk_of(batch@, w, win as nat), p, rs[win as int]));
            lemma_winner_from(seqs, w, p, 0, win as nat);
            lemma_first_goal_range(children_seq(chunk_of(seqs, w, win as nat)), p);
        }
        return BatchExpansion { goal: e.goal, parts: Vec::new() };
    }
    proof {
        lemma_winner_from(seqs, w, p, 0, w);
    }
    let mut parts: Vec<Frontier> = Vec::new();
    let mut i: usize = 0;
    while i < num_workers
        invariant
            i <= num_workers,
            w == num_workers,
            rs.len() == w,
            results@ == rs.skip(i as int),
            forall|j: int|
                0 <= j < rs.len() ==> expanded(
                    chunk_of(batch@, w, j as nat),
                    p,
                    #[trigger] rs[j],
                ) && rs[j].goal.is_none(),
            seqs == sequences(batch@),
            parts@.len() == i,
            forall|j: int|
                0 <= j < i ==> (#[trigger] parts@[j])@ == bucketed(
                    children_seq(chunk_of(seqs, w, j as nat)),
                    p,
                ) && parts@[j].wf(p),
            forall|d: int, j: int|
                #![trigger bucket_depth(batch@, d), parts@[j]]
                bucket_depth(batch@, d) && 0 <= j < i ==> parts@[j].depth_at_most(d + 1),
        decreases num_workers - i,
    {
        let e = results.remove(0);
        let ghost before = parts@;
        proof {
            assert(e == rs[i as int]);
            assert(results@ =~= rs.skip(i + 1));
            lemma_chunk_sequences(batch@, w, i as nat);
            assert(expanded(chunk_of(batch@, w, i as nat), p, rs[i as int]));
            let cs = children_seq(chunk_of(seqs, w, i as nat));
            lemma_first_goal_range(cs, p);
            assert(cs.take(cs.len() as int) =~= cs);
            assert(e.children@ == bucketed(cs, p));
            let chunk = chunk_of(batch@, w, i as nat);
            assert forall|d: int| bucket_depth(batch@, d) implies e.children.depth_at_most(
                d + 1,
            ) by {
                lemma_chunk_start(batch@.len(), w, i as nat);
                lemma_chunk_start(batch@.len(), w, (i + 1) as nat);
                let lo = chunk_start(batch@.len(), w, i as nat) as int;
                assert forall|j: int| 0 <= j < chunk.len() implies (#[trigger] chunk[j]).factors@.len()
                    <= d by {
                    assert(chunk[j] == batch@[lo + j]);
                }
                assert(bucket_depth(chunk, d));
                assert(expanded(chunk, p, e));
            }
        }
        parts.push(e.children);
        proof {
            assert forall|j: int| 0 <= j < i + 1 implies (#[trigger] parts@[j])@ == bucketed(
                children_seq(chunk_of(seqs, w, j as nat)),
                p,
            ) && parts@[j].wf(p) by {
                if j < i {
                    assert(parts@[j] == before[j]);
                }
            }
            assert forall|d: int, j: int|
                #![trigger bucket_depth(batch@, d), parts@[j]]
                bucket_depth(batch@, d) && 0 <= j < i + 1 implies parts@[j].depth_at_most(
                d + 1,
            ) by {
                if j < i {
                    assert(parts@[j] == before[j]);
                }
            }
        }
        i += 1;
    }
    BatchExpansion { goal: None, parts }
}

/// One round of the search: trims the frontier to `total_cap` states, takes
/// up to `batch_cap` states from its lowest bucket, expands them in
/// `num_workers` chunks in parallel, and either reports the first goal or
/// lets the children into the frontier.
pub fn round(
    frontier: &mut Frontier,
    num_workers: usize,
    p: u8,
    total_cap: usize,
    batch_cap: usize,
) -> (found: Option<Vec<u32>>)
    requires
        old(frontier).wf(p),
        old(frontier).depth_at_most(MAX_DEPTH as int),
        num_workers > 0,
    ensures
        final(frontier)@ == round_spec(
            old(frontier)@,
            num_workers as nat,
            p,
            total_cap as nat,
            batch_cap as nat,
        ).1,
        found.is_some() == round_spec(
            old(frontier)@,
            num_workers as nat,
            p,
            total_cap as nat,
            batch_cap as nat,
        ).0.is_some(),
        found matches Some(f) ==> Some(f@) == round_spec(
            old(frontier)@,
            num_workers as nat,
            p,
            total_cap as nat,
            batch_cap as nat,
        ).0 && is_goal_seq(f@, p),
        final(frontier).wf(p),
        forall|d: int| old(frontier).depth_at_most(d) ==> final(frontier).depth_at_most(d + 1),
{
    let ghost m = frontier@;
    let ghost w = num_workers as nat;
    frontier.trim(total_cap);
    let ghost m1 = frontier@;
    let batch = frontier.select(batch_cap);
    let ghost m2 = frontier@;
    let ghost seqs = sequences(batch@);
    if batch.len() == 0 {
        proof {
            if !no_bucket(m1) {
                let k = lowest_key(m1);
                assert(is_lowest_key(m1, k));
                assert(seqs =~= Seq::<Seq<u32>>::empty());
                lemma_idle_chunks(m2, w, p, total_cap as nat, w);
            }
            assert forall|d: int| old(frontier).depth_at_most(d) implies frontier.depth_at_most(
                d + 1,
            ) by {
                frontier.lemma_depth_weaken(d);
            }
        }
        return None;
    }
    proof {
        assert(!no_bucket(m1));
        let k = lowest_key(m1);
        assert(is_lowest_key(m1, k));
        assert(seqs == selected(m1, k, batch_cap as nat));
        assert(m2 == after_select(m1, k, batch_cap as nat));
        assert forall|d: int| old(frontier).depth_at_most(d) implies frontier.depth_at_most(
            d + 1,
        ) by {
            frontier.lemma_depth_weaken(d);
        }
    }
    proof {
        assert(expandable(batch@, p)) by {
            assert forall|i: int| 0 <= i < batch@.len() implies (#[trigger] batch@[i]).wf(p)
                && batch@[i].factors@.len() <= MAX_DEPTH by {
                assert(bucket_depth(batch@, MAX_DEPTH as int));
            }
        }
    }
    let e = expand_batch(&batch, num_workers, p);
    if e.goal.is_some() {
        return e.goal;
    }
    let mut parts = e.parts;
    let ghost ps = parts@;
    let mut i: usize = 0;
    while i < num_workers
        invariant
            i <= num_workers,
            w == num_workers,
            ps.len() == w,
            parts@ == ps.skip(i as int),
            forall|j: int|
                0 <= j < w ==> (#[trigger] ps[j])@ == bucketed(
                    children_seq(chunk_of(seqs, w, j as nat)),
                    p,
                ) && ps[j].wf(p),
            forall|d: int, j: int|
                #![trigger bucket_depth(batch@, d), ps[j]]
                bucket_depth(batch@, d) && 0 <= j < w ==> ps[j].depth_at_most(d + 1),
            seqs == sequences(batch@),
            frontier@ == merged_chunks(m2, seqs, w, p, total_cap as nat, i as nat),
            frontier.wf(p),
            forall|d: int| old(frontier).depth_at_most(d) ==> bucket_depth(batch@, d),
            forall|d: int| old(frontier).depth_at_most(d) ==> frontier.depth_at_most(d + 1),
        decreases num_workers - i,
    {
        let part = parts.remove(0);
        proof {
            assert(part == ps[i as int]);
            assert(parts@ =~= ps.skip(i + 1));
            assert forall|d: int| old(frontier).depth_at_most(d) implies part.depth_at_most(
                d + 1,
            ) by {
                assert(bucket_depth(batch@, d));
            }
        }
        frontier.merge(part, total_cap);
        i += 1;
    }
    None
}

/// How many states the frontier of the search may hold.
pub const TOTAL_CAP: usize = 150000;

/// How many states one round of the search expands at most.
pub const BATCH_CAP: usize = 20000;

/// The sequences of one generator each, for the 22 generators.
pub open spec fn root_sequences() -> Seq<Seq<u32>> {
    Seq::new(22, |i: int| seq![(i + 1) as u32])
}

/// The frontier that a search starts from: the 22 generators, each applied
/// to the identity, in buckets by projective length.
pub fn roots(p: u8) -> (out: Frontier)
    requires
        p >= 2,
    ensures
        out@ == bucketed(root_sequences(), p),
        out.wf(p),
        out.depth_at_most(1),
        buckets_legal(out@),
{
    proof {
        lemma_roots_legal(p);
    }
    let mut out = Frontier::new();
    let mut factor: u32 = 1;
    proof {
        assert(root_sequences().take(0) =~= Seq::<Seq<u32>>::empty());
    }
    while factor < 23
        invariant
            1 <= factor <= 23,
            p >= 2,
            out@ == bucketed(root_sequences().take(factor - 1), p),
            out.wf(p),
            out.depth_at_most(1),
        decreases 23 - factor,
    {
        let state = State::new(factor, p);
        proof {
            let done = root_sequences().take(factor - 1);
            assert(root_sequences().take(factor as int) =~= done.push(seq![factor]));
            assert(done.push(seq![factor]).drop_last() =~= done);
            assert(state.mat.spec_projlen() == seq_projlen(seq![factor], p));
        }
        out.push(state);
        factor += 1;
    }
    proof {
        assert(root_sequences().take(22) =~= root_sequences());
    }
    out
}

/// What a search of at most `rounds` rounds finds, from the buckets `m`: the
/// goal of the first round that finds one.
pub open spec fn search_spec(
    m: Map<u32, Seq<Seq<u32>>>,
    w: nat,
    p: u8,
    total_cap: nat,
    batch_cap: nat,
    rounds: nat,
) -> Option<Seq<u32>>
    decreases rounds,
{
    if rounds == 0 {
        None
    } else {
        let r = round_spec(m, w, p, total_cap, batch_cap);
        match r.0 {
            Some(f) => Some(f),
            None => search_spec(r.1, w, p, total_cap, batch_cap, (rounds - 1) as nat),
        }
    }
}

/// Searches for a goal in at most `max_rounds` rounds, with a frontier of at
/// most `total_cap` states and batches of at most `batch_cap` states.
/// Returns the generators of the goal that it finds.
pub fn search_with_caps(
    states: Frontier,
    num_threads: usize,
    p: u8,
    total_cap: usize,
    batch_cap: usize,
    max_rounds: usize,
) -> (found: Option<Vec<u32>>)
    requires
        states.wf(p),
        num_threads > 0,
        max_rounds <= MAX_DEPTH,
        states.depth_at_most(MAX_DEPTH + 1 - max_rounds),
    ensures
        found.is_some() == search_spec(
            states@,
            num_threads as nat,
            p,
            total_cap as nat,
            batch_cap as nat,
            max_rounds as nat,
        ).is_some(),
        found matches Some(f) ==> Some(f@) == search_spec(
            states@,
            num_threads as nat,
            p,
            total_cap as nat,
            batch_cap as nat,
            max_rounds as nat,
        ) && is_goal_seq(f@, p),
        buckets_legal(states@) ==> (found matches Some(f) ==> legal(f@)),
{
    proof {
        if buckets_legal(states@) {
            lemma_search_legal(
                states@,
                num_threads as nat,
                p,
                total_cap as nat,
                batch_cap as nat,
                max_rounds as nat,
            );
        }
    }
    let mut frontier = states;
    let mut layer: usize = 0;
    while layer < max_rounds
        invariant
            layer <= max_rounds <= MAX_DEPTH,
            num_threads > 0,
            frontier.wf(p),
            frontier.depth_at_most(MAX_DEPTH + 1 - max_rounds + layer),
            buckets_legal(states@) ==> (search_spec(
                states@,
                num_threads as nat,
                p,
                total_cap as nat,
                batch_cap as nat,
                max_rounds as nat,
            ) matches Some(f) ==> legal(f)),
            search_spec(
                states@,
                num_threads as nat,
                p,
                total_cap as nat,
                batch_cap as nat,
                max_rounds as nat,
            ) == search_spec(
                frontier@,
                num_threads as nat,
                p,
                total_cap as nat,
                batch_cap as nat,
                (max_rounds - layer) as nat,
            ),
        decreases max_rounds - layer,
    {
        proof {
            frontier.lemma_depth_upto(MAX_DEPTH + 1 - max_rounds + layer, MAX_DEPTH as int);
        }
        let found = round(&mut frontier, num_threads, p, total_cap, batch_cap);
        if found.is_some() {
            return found;
        }
        layer += 1;
    }
    None
}

/// Searches for a goal by bounded best-first search, in at most `max_rounds`
/// rounds. Returns the generators of the goal that it finds.
pub fn search_best_first_parallel(
    states: Frontier,
    num_threads: usize,
    p: u8,
    max_rounds: usize,
) -> (found: Option<Vec<u32>>)
    requires
        states.wf(p),
        num_threads > 0,
        max_rounds <= MAX_DEPTH,
        states.depth_at_most(MAX_DEPTH + 1 - max_rounds),
    ensures
        found.is_some() == search_spec(
            states@,
            num_threads as nat,
            p,
            TOTAL_CAP as nat,
            BATCH_CAP as nat,
            max_rounds as nat,
        ).is_some(),
        found matches Some(f) ==> Some(f@) == search_spec(
            states@,
            num_threads as nat,
            p,
            TOTAL_CAP as nat,
            BATCH_CAP as nat,
            max_rounds as nat,
        ) && is_goal_seq(f@, p),
        buckets_legal(states@) ==> (found matches Some(f) ==> legal(f@)),
{
    search_with_caps(states, num_threads, p, TOTAL_CAP, BATCH_CAP, max_rounds)
}

} // verus!
