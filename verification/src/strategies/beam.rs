//! Beam searches: layer by layer, all states of a layer are expanded and a
//! bounded number of their children make the next layer.

use crate::buckets::{
    ascending, bucket_len, count_below, extended, flat, is_cut_key, lemma_population_update,
    lemma_population_with, lemma_population_without, lower_part, population, top_key, trimmed,
    with_sequence, without_last,
};
use crate::frontier::{bucket_depth, bucket_ok, seq_projlen, sequences, Frontier};
use crate::garside::{descendants, generate_descendants, lemma_descendants_range};
use crate::random::{draw_below, seeded};
use crate::search::{
    bucketed, children_of, children_seq, chunk_of, expand_batch, expandable, first_goal, goal_of,
    is_goal_seq, lemma_children_prefix, lemma_first_goal, winner_from,
};
use crate::state::MAX_DEPTH;
use crate::strategies::found_goal;
use rand_pcg::Pcg32;
use vstd::prelude::*;

verus! {

/// What one layer of a beam search gives: the generators of the goal, where
/// a child is one, and the states of the next layer.
pub struct BeamLayer {
    pub goal: Option<Vec<u32>>,
    pub next: Frontier,
}

/// The buckets `m` of a layer after the sequence `fs` of projective length
/// `q` asked for a place among at most `width`, with the number `draw`
/// drawn for it. While there is room it gets a place. After that a sequence
/// above the highest bucket gets none; one below it gets one and the last
/// sequence of the highest bucket leaves; one in the highest bucket takes
/// the place `draw` of that bucket.
pub open spec fn beamed_in(
    m: Map<u32, Seq<Seq<u32>>>,
    q: u32,
    fs: Seq<u32>,
    width: nat,
    draw: nat,
) -> Map<u32, Seq<Seq<u32>>> {
    if population(m) < width {
        with_sequence(m, q, fs)
    } else if q > top_key(m) {
        m
    } else if q < top_key(m) {
        without_last(with_sequence(m, q, fs), top_key(m))
    } else {
        m.insert(q, m[q].update(draw as int, fs))
    }
}

/// The buckets `m` after the sequences `cs` asked for a place, one after
/// another, the `i`-th with the number `draws[i]` drawn for it.
pub open spec fn beamed_all(
    m: Map<u32, Seq<Seq<u32>>>,
    cs: Seq<Seq<u32>>,
    draws: Seq<usize>,
    p: u8,
    width: nat,
) -> Map<u32, Seq<Seq<u32>>>
    decreases cs.len(),
{
    if cs.len() == 0 {
        m
    } else {
        beamed_in(
            beamed_all(m, cs.drop_last(), draws.drop_last(), p, width),
            seq_projlen(cs.last(), p) as u32,
            cs.last(),
            width,
            draws.last() as nat,
        )
    }
}

/// The numbers `draws` are such as can be drawn for the sequences `cs`: one
/// for each of them, and the one for a sequence that takes a place of the
/// highest bucket is below the length of that bucket.
pub open spec fn beam_draws_fit(
    m: Map<u32, Seq<Seq<u32>>>,
    cs: Seq<Seq<u32>>,
    draws: Seq<usize>,
    p: u8,
    width: nat,
) -> bool
    decreases cs.len(),
{
    if cs.len() == 0 {
        draws.len() == 0
    } else {
        let before = beamed_all(m, cs.drop_last(), draws.drop_last(), p, width);
        let q = seq_projlen(cs.last(), p) as u32;
        &&& draws.len() == cs.len()
        &&& beam_draws_fit(m, cs.drop_last(), draws.drop_last(), p, width)
        &&& population(before) >= width && q == top_key(before) ==> draws.last() < bucket_len(
            before,
            q,
        )
    }
}

/// The goal that a layer on the buckets `m` finds: the first goal among the
/// children of its sequences, by ascending projective length of the
/// sequences.
pub open spec fn layer_goal(m: Map<u32, Seq<Seq<u32>>>, p: u8) -> Option<Seq<u32>> {
    let cs = children_seq(flat(m));
    if first_goal(cs, p) < cs.len() {
        Some(cs[first_goal(cs, p)])
    } else {
        None
    }
}

/// The children that a layer on the buckets `m` lets ask for a place: those
/// of its sequences, up to the first goal among them.
pub open spec fn layer_offers(m: Map<u32, Seq<Seq<u32>>>, p: u8) -> Seq<Seq<u32>> {
    children_seq(flat(m)).take(first_goal(children_seq(flat(m)), p))
}

/// A layer on the buckets `m`, with the numbers `draws` drawn, makes the
/// buckets `m2` for the next layer.
pub open spec fn layer_with(
    m: Map<u32, Seq<Seq<u32>>>,
    draws: Seq<usize>,
    p: u8,
    width: nat,
    m2: Map<u32, Seq<Seq<u32>>>,
) -> bool {
    &&& beam_draws_fit(Map::empty(), layer_offers(m, p), draws, p, width)
    &&& m2 == beamed_all(Map::empty(), layer_offers(m, p), draws, p, width)
}

/// A layer on the buckets `m` can make the buckets `m2` for the next layer:
/// there are numbers that can be drawn with which it does.
pub open spec fn layer_leads(
    m: Map<u32, Seq<Seq<u32>>>,
    p: u8,
    width: nat,
    m2: Map<u32, Seq<Seq<u32>>>,
) -> bool {
    exists|draws: Seq<usize>| #[trigger] layer_with(m, draws, p, width, m2)
}

/// The layer at the place `i` of a path of buckets finds no goal and can
/// make the buckets at the next place.
pub open spec fn layer_on_path(ms: Seq<Map<u32, Seq<Seq<u32>>>>, i: int, p: u8, width: nat) -> bool {
    layer_goal(ms[i], p) is None && layer_leads(ms[i], p, width, ms[i + 1])
}

/// The buckets `ms` are a path of `k` layers from the buckets `m` to the
/// buckets `m2`.
pub open spec fn layer_path(
    m: Map<u32, Seq<Seq<u32>>>,
    p: u8,
    width: nat,
    k: nat,
    m2: Map<u32, Seq<Seq<u32>>>,
    ms: Seq<Map<u32, Seq<Seq<u32>>>>,
) -> bool {
    &&& ms.len() == k + 1
    &&& ms[0] == m
    &&& ms[k as int] == m2
    &&& forall|i: int| 0 <= i < k ==> #[trigger] layer_on_path(ms, i, p, width)
}

/// `k` layers, none of which finds a goal, can lead from the buckets `m` to
/// the buckets `m2`.
pub open spec fn layers_lead(
    m: Map<u32, Seq<Seq<u32>>>,
    p: u8,
    width: nat,
    k: nat,
    m2: Map<u32, Seq<Seq<u32>>>,
) -> bool {
    exists|ms: Seq<Map<u32, Seq<Seq<u32>>>>| #[trigger] layer_path(m, p, width, k, m2, ms)
}

/// No layer leads from the buckets to themselves.
pub proof fn lemma_no_layer(m: Map<u32, Seq<Seq<u32>>>, p: u8, width: nat)
    ensures
        layers_lead(m, p, width, 0, m),
{
    assert(layer_path(m, p, width, 0, m, seq![m]));
}

/// One more layer after `k` layers.
pub proof fn lemma_one_more_layer(
    m: Map<u32, Seq<Seq<u32>>>,
    p: u8,
    width: nat,
    k: nat,
    mid: Map<u32, Seq<Seq<u32>>>,
    m2: Map<u32, Seq<Seq<u32>>>,
)
    requires
        layers_lead(m, p, width, k, mid),
        layer_goal(mid, p) is None,
        layer_leads(mid, p, width, m2),
    ensures
        layers_lead(m, p, width, k + 1, m2),
{
    let ms = choose|ms: Seq<Map<u32, Seq<Seq<u32>>>>| #[trigger]
        layer_path(m, p, width, k, mid, ms);
    let ms2 = ms.push(m2);
    assert forall|i: int| 0 <= i < k + 1 implies #[trigger] layer_on_path(ms2, i, p, width) by {
        if i < k {
            assert(layer_on_path(ms, i, p, width));
        }
    }
    assert(layer_path(m, p, width, k + 1, m2, ms2));
}

/// `found` is what a beam search of at most `max_layers` layers can find,
/// from the buckets `m`: some number of layers that find no goal lead to
/// buckets where the next layer finds `found`, or `max_layers` layers find
/// nothing.
pub open spec fn beam_finds(
    m: Map<u32, Seq<Seq<u32>>>,
    p: u8,
    width: nat,
    max_layers: nat,
    found: Option<Seq<u32>>,
) -> bool {
    exists|k: nat, m2: Map<u32, Seq<Seq<u32>>>|
        {
            &&& #[trigger] layers_lead(m, p, width, k, m2)
            &&& k <= max_layers
            &&& found == if k < max_layers {
                layer_goal(m2, p)
            } else {
                None
            }
            &&& found is None ==> k == max_layers
        }
}

/// One layer of a beam search: makes the children of all states, by
/// ascending projective length of the states, and keeps at most
/// `beam_width` of them for the next layer. The first child that is a goal
/// ends the layer. While there is room every child is kept. After that a
/// child above the highest bucket is dropped; one below it is kept and the
/// last state of the highest bucket leaves; one in the highest bucket takes
/// the place of a state of that bucket, drawn at random.
pub fn beam_layer(states: Frontier, rng: &mut Pcg32, beam_width: usize, p: u8) -> (out: BeamLayer)
    requires
        states.wf(p),
        states.depth_at_most(MAX_DEPTH as int),
    ensures
        out.goal.is_some() == (first_goal(children_seq(flat(states@)), p) < children_seq(
            flat(states@),
        ).len()),
        out.goal matches Some(f) ==> f@ == children_seq(flat(states@))[first_goal(
            children_seq(flat(states@)),
            p,
        )] && is_goal_seq(f@, p),
        found_goal(out.goal) == layer_goal(states@, p),
        layer_leads(states@, p, beam_width as nat, out.next@),
        out.next.wf(p),
        forall|d: int| states.depth_at_most(d) ==> out.next.depth_at_most(d + 1),
        population(out.next@) <= beam_width,
{
    let all = states.into_sorted();
    let ghost batch = sequences(all@);
    let ghost none = Map::<u32, Seq<Seq<u32>>>::empty();
    let ghost mut draws: Seq<usize> = Seq::empty();
    let table = generate_descendants();
    let mut next_layer = Frontier::new();
    let n = all.len();
    let mut si: usize = 0;
    proof {
        assert(batch.take(0) =~= Seq::<Seq<u32>>::empty());
        crate::buckets::lemma_count_gap(next_layer@, 0, 0x1_0000_0000);
        assert(children_seq(batch.take(0)) =~= Seq::<Seq<u32>>::empty());
    }
    while si < n
        invariant
            n == all@.len(),
            si <= n,
            batch == sequences(all@),
            batch == flat(states@),
            forall|i: int| 0 <= i < all@.len() ==> (#[trigger] all@[i]).wf(p),
            bucket_depth(all@, MAX_DEPTH as int),
            forall|d: int| states.depth_at_most(d) ==> bucket_depth(all@, d),
            table.wf(),
            forall|j: int|
                0 <= j < children_seq(batch.take(si as int)).len() ==> !is_goal_seq(
                    #[trigger] children_seq(batch.take(si as int))[j],
                    p,
                ),
            next_layer.wf(p),
            forall|d: int| states.depth_at_most(d) ==> next_layer.depth_at_most(d + 1),
            population(next_layer@) <= beam_width,
            none == Map::<u32, Seq<Seq<u32>>>::empty(),
            beam_draws_fit(none, children_seq(batch.take(si as int)), draws, p, beam_width as nat),
            next_layer@ == beamed_all(
                none,
                children_seq(batch.take(si as int)),
                draws,
                p,
                beam_width as nat,
            ),
        decreases n - si,
    {
        let state = &all[si];
        let ghost fs = state.factors@;
        let ghost done = children_seq(batch.take(si as int));
        proof {
            assert(state.wf(p));
            assert(batch[si as int] == fs);
            assert(batch.take(si + 1).drop_last() =~= batch.take(si as int));
            assert(batch.take(si + 1).last() == fs);
            assert(children_seq(batch.take(si + 1)) == done + children_of(fs));
            lemma_descendants_range(fs.last());
            assert(done + children_of(fs).take(0) =~= done);
            state.mat.lemma_powers_weaken(4 * (fs.len() as int), u16::MAX - 4);
        }
        let last_factor = state.factors[state.factors.len() - 1];
        let found = table.get(last_factor);
        if let Some(next) = found {
            let m = next.len();
            let mut gi: usize = 0;
            while gi < m
                invariant
                    m == next@.len(),
                    gi <= m,
                    n == all@.len(),
                    si < n,
                    batch == sequences(all@),
                    done == children_seq(batch.take(si as int)),
                    children_seq(batch.take(si + 1)) == done + children_of(fs),
                    next@ == descendants(fs.last()),
                    fs == state.factors@,
                    state.wf(p),
                    state.mat.powers_upto(u16::MAX - 4),
                    1 <= fs.last() <= 22,
                    forall|j: int|
                        0 <= j < (done + children_of(fs).take(gi as int)).len() ==> !is_goal_seq(
                            #[trigger] (done + children_of(fs).take(gi as int))[j],
                            p,
                        ),
                    next_layer.wf(p),
                    batch == flat(states@),
                    all@[si as int].factors@ == fs,
                    forall|d: int| states.depth_at_most(d) ==> bucket_depth(all@, d),
                    forall|d: int| states.depth_at_most(d) ==> next_layer.depth_at_most(d + 1),
                    population(next_layer@) <= beam_width,
                    none == Map::<u32, Seq<Seq<u32>>>::empty(),
                    beam_draws_fit(
                        none,
                        done + children_of(fs).take(gi as int),
                        draws,
                        p,
                        beam_width as nat,
                    ),
                    next_layer@ == beamed_all(
                        none,
                        done + children_of(fs).take(gi as int),
                        draws,
                        p,
                        beam_width as nat,
                    ),
                decreases m - gi,
            {
                let ghost sofar = done + children_of(fs).take(gi as int);
                proof {
                    lemma_descendants_range(fs.last());
                }
                let child = state.append(next[gi], p);
                proof {
                    let c = child.factors@;
                    assert(c == children_of(fs)[gi as int]);
                    assert(done + children_of(fs).take(gi + 1) =~= sofar.push(c));
                    assert(child.mat.spec_projlen() == seq_projlen(c, p));
                    assert forall|d: int| states.depth_at_most(d) implies c.len() <= d + 1 by {
                        assert(bucket_depth(all@, d));
                        assert(all@[si as int].factors@.len() <= d);
                    }
                }
                let q = child.projlen();
                if q == 1 {
                    proof {
                        let cs = children_seq(batch);
                        let full = done + children_of(fs);
                        lemma_children_prefix(batch, si + 1);
                        let at = sofar.len() as int;
                        assert(children_of(fs).len() == m);
                        assert(at < full.len() <= cs.len());
                        assert forall|j: int| 0 <= j <= at implies cs[j] == full[j] by {
                            assert(cs.take(full.len() as int)[j] == cs[j]);
                        }
                        assert(full[at] == children_of(fs)[gi as int]);
                        assert forall|j: int| 0 <= j < at implies !is_goal_seq(
                            #[trigger] cs[j],
                            p,
                        ) by {
                            assert(cs[j] == full[j]);
                            assert(full[j] == sofar[j]);
                        }
                        lemma_first_goal(cs, p, at);
                        assert(cs.take(at) =~= sofar) by {
                            assert forall|j: int| 0 <= j < at implies cs.take(at)[j]
                                == sofar[j] by {
                                assert(cs[j] == full[j]);
                                assert(full[j] == sofar[j]);
                            }
                        }
                        assert(layer_with(states@, draws, p, beam_width as nat, next_layer@));
                    }
                    return BeamLayer { goal: Some(child.factors), next: next_layer };
                }
                let top = next_layer.top();
                let total = next_layer.occupancy(beam_width);
                let ghost before = next_layer@;
                let ghost mut drawn: usize = 0;
                if q > top && total >= beam_width {
                } else if total < beam_width {
                    proof {
                        lemma_population_with(before, q, child.factors@);
                    }
                    next_layer.push(child);
                } else if q < top {
                    proof {
                        lemma_population_with(before, q, child.factors@);
                        lemma_population_without(with_sequence(before, q, child.factors@), top);
                    }
                    next_layer.push(child);
                    next_layer.evict_last(top);
                } else {
                    let size = next_layer.bucket_size(q);
                    proof {
                        assert(before.contains_key(q));
                        assert(crate::frontier::bucket_map(next_layer).contains_key(q));
                        assert(size > 0);
                    }
                    let x = draw_below(rng, size);
                    proof {
                        lemma_population_update(before, q, x as int, child.factors@);
                        drawn = x;
                    }
                    next_layer.replace(x, child);
                }
                proof {
                    let c = children_of(fs)[gi as int];
                    assert(next_layer@ == beamed_in(before, q, c, beam_width as nat, drawn as nat));
                    let longer = draws.push(drawn);
                    assert(longer.drop_last() =~= draws);
                    assert(sofar.push(c).drop_last() =~= sofar);
                    draws = longer;
                }
                gi += 1;
            }
            proof {
                assert(children_of(fs).take(m as int) =~= children_of(fs));
            }
        } else {
            proof {
                assert(crate::garside::descendant_map(table).contains_key(last_factor));
                assert(false);
            }
        }
        si += 1;
    }
    proof {
        assert(batch.take(n as int) =~= batch);
        let cs = children_seq(batch);
        lemma_first_goal(cs, p, cs.len() as int);
        assert(cs.take(cs.len() as int) =~= cs);
        assert(layer_with(states@, draws, p, beam_width as nat, next_layer@));
    }
    BeamLayer { goal: None, next: next_layer }
}

/// Searches for a goal layer by layer, with at most `beam_width` states in
/// a layer. Ends after `max_layers` layers. Returns the generators of the
/// goal that it finds. The generator of random numbers is made from `seed`.
///
/// Whether a layer finds a goal does not hang on the numbers drawn: where
/// the first layer finds one, that is what the search returns.
pub fn beam_search(states: Frontier, seed: u64, beam_width: usize, p: u8, max_layers: usize) -> (found:
    Option<Vec<u32>>)
    requires
        states.wf(p),
        max_layers <= MAX_DEPTH,
        states.depth_at_most(MAX_DEPTH + 1 - max_layers),
    ensures
        beam_finds(states@, p, beam_width as nat, max_layers as nat, found_goal(found)),
        max_layers > 0 && layer_goal(states@, p) is Some ==> found_goal(found) == layer_goal(
            states@,
            p,
        ),
        max_layers == 0 ==> found is None,
        found matches Some(f) ==> is_goal_seq(f@, p),
{
    let mut frontier = states;
    let mut rng = seeded(seed);
    let mut layer: usize = 0;
    proof {
        lemma_no_layer(states@, p, beam_width as nat);
    }
    while layer < max_layers
        invariant
            layer <= max_layers <= MAX_DEPTH,
            frontier.wf(p),
            frontier.depth_at_most(MAX_DEPTH + 1 - max_layers + layer),
            layers_lead(states@, p, beam_width as nat, layer as nat, frontier@),
            layer == 0 ==> frontier@ == states@,
            layer > 0 ==> layer_goal(states@, p) is None,
        decreases max_layers - layer,
    {
        proof {
            frontier.lemma_depth_upto(MAX_DEPTH + 1 - max_layers + layer, MAX_DEPTH as int);
        }
        let ghost mid = frontier@;
        let out = beam_layer(frontier, &mut rng, beam_width, p);
        if out.goal.is_some() {
            proof {
                assert(layers_lead(states@, p, beam_width as nat, layer as nat, mid));
            }
            return out.goal;
        }
        frontier = out.next;
        proof {
            lemma_one_more_layer(states@, p, beam_width as nat, layer as nat, mid, frontier@);
        }
        layer += 1;
    }
    None
}

/// How many states a layer of the parallel beam search expands at most.
pub const TO_HANDLE_PER_LAYER: usize = 8000;

/// The goal that the expansion of the bucket `b` in `w` chunks reports: that
/// of the first chunk that has a goal among its children.
pub open spec fn bucket_goal(b: Seq<Seq<u32>>, w: nat, p: u8) -> Option<Seq<u32>> {
    let win = winner_from(b, w, p, 0);
    if win < w {
        Some(goal_of(chunk_of(b, w, win), p))
    } else {
        None
    }
}

/// The goal of the first bucket of `m` with a key below `n` whose expansion
/// reports one.
pub open spec fn goal_below(m: Map<u32, Seq<Seq<u32>>>, w: nat, p: u8, n: nat) -> Option<Seq<u32>>
    decreases n,
{
    if n == 0 {
        None
    } else {
        match goal_below(m, w, p, (n - 1) as nat) {
            Some(f) => Some(f),
            None => if m.contains_key((n - 1) as u32) {
                bucket_goal(m[(n - 1) as u32], w, p)
            } else {
                None
            },
        }
    }
}

/// Buckets without keys in `[a, b)` report the same goal below `a` and
/// below `b`.
pub proof fn lemma_goal_gap(m: Map<u32, Seq<Seq<u32>>>, w: nat, p: u8, a: nat, b: nat)
    requires
        a <= b <= 0x1_0000_0000,
        forall|k: u32| a <= k < b ==> !m.contains_key(k),
    ensures
        goal_below(m, w, p, b) == goal_below(m, w, p, a),
    decreases b - a,
{
    if a < b {
        lemma_goal_gap(m, w, p, a, (b - 1) as nat);
        assert(!m.contains_key((b - 1) as u32));
    }
}

/// A goal once reported stays the goal.
pub proof fn lemma_goal_stays(m: Map<u32, Seq<Seq<u32>>>, w: nat, p: u8, a: nat, b: nat)
    requires
        a <= b,
        goal_below(m, w, p, a).is_some(),
    ensures
        goal_below(m, w, p, b) == goal_below(m, w, p, a),
    decreases b - a,
{
    if a < b {
        lemma_goal_stays(m, w, p, a, (b - 1) as nat);
    }
}

/// The key at which buckets that may hold `limit` items are cut, if they
/// hold that many.
pub open spec fn cut_of(m: Map<u32, Seq<Seq<u32>>>, limit: nat) -> Option<u32> {
    if exists|c: u32| is_cut_key(m, limit, c) {
        Some(choose|c: u32| is_cut_key(m, limit, c))
    } else {
        None
    }
}

/// Buckets are cut at one key only.
pub proof fn lemma_cut_key(m: Map<u32, Seq<Seq<u32>>>, limit: nat, c: u32)
    requires
        is_cut_key(m, limit, c),
    ensures
        cut_of(m, limit) == Some(c),
{
    let d = choose|d: u32| is_cut_key(m, limit, d);
    assert(is_cut_key(m, limit, d));
    if d < c {
        assert(count_below(m, (d + 1) as nat) < limit);
    } else if c < d {
        assert(count_below(m, (c + 1) as nat) < limit);
    }
}

/// A collection of children for the next layer: the buckets; how many
/// children the bucket that is being expanded has added, counted up to the
/// limit; and the key from which on its further children are dropped.
pub struct Collection {
    pub buckets: Map<u32, Seq<Seq<u32>>>,
    pub added: nat,
    pub cutoff: Option<u32>,
}

/// The collection `c` after the children `items` of projective length `q`
/// came: they are dropped at or above the cutoff; else they are added, and
/// once `limit` children or more were added, the buckets are cut at the key
/// up to which they hold `limit` states, which is the new cutoff.
pub open spec fn collect_step(c: Collection, q: u32, items: Seq<Seq<u32>>, limit: nat) -> Collection {
    if c.cutoff matches Some(at) && q >= at {
        c
    } else {
        let with = extended(c.buckets, q, items);
        let added = if c.added + items.len() >= limit {
            limit
        } else {
            c.added + items.len()
        };
        if added >= limit {
            match cut_of(with, limit) {
                Some(at) => Collection {
                    buckets: lower_part(with, at),
                    added,
                    cutoff: Some(at),
                },
                None => Collection { buckets: with, added, cutoff: c.cutoff },
            }
        } else {
            Collection { buckets: with, added, cutoff: c.cutoff }
        }
    }
}

/// The collection `c` after the buckets of `kids` with a key below `n`
/// came, by ascending key.
pub open spec fn collect_below(c: Collection, kids: Map<u32, Seq<Seq<u32>>>, limit: nat, n: nat) -> Collection
    decreases n,
{
    if n == 0 {
        c
    } else {
        let prev = collect_below(c, kids, limit, (n - 1) as nat);
        if kids.contains_key((n - 1) as u32) {
            collect_step(prev, (n - 1) as u32, kids[(n - 1) as u32], limit)
        } else {
            prev
        }
    }
}

/// The collection `c` after the children of the first `upto` of the `w`
/// chunks of `batch` came, chunk by chunk.
pub open spec fn collect_chunks(
    c: Collection,
    batch: Seq<Seq<u32>>,
    w: nat,
    p: u8,
    limit: nat,
    upto: nat,
) -> Collection
    decreases upto,
{
    if upto == 0 {
        c
    } else {
        collect_below(
            collect_chunks(c, batch, w, p, limit, (upto - 1) as nat),
            bucketed(children_seq(chunk_of(batch, w, (upto - 1) as nat)), p),
            limit,
            0x1_0000_0000,
        )
    }
}

/// The buckets collected from the buckets of `m` with a key below `n`,
/// bucket by bucket: every bucket starts to count its children anew and
/// without a cutoff.
pub open spec fn collected_below(m: Map<u32, Seq<Seq<u32>>>, w: nat, p: u8, limit: nat, n: nat) -> Map<
    u32,
    Seq<Seq<u32>>,
>
    decreases n,
{
    if n == 0 {
        Map::empty()
    } else {
        let prev = collected_below(m, w, p, limit, (n - 1) as nat);
        if m.contains_key((n - 1) as u32) {
            collect_chunks(
                Collection { buckets: prev, added: 0, cutoff: None },
                m[(n - 1) as u32],
                w,
                p,
                limit,
                w,
            ).buckets
        } else {
            prev
        }
    }
}

/// Buckets of `kids` without keys in `[a, b)` bring nothing between `a` and
/// `b`.
pub proof fn lemma_collect_gap(c: Collection, kids: Map<u32, Seq<Seq<u32>>>, limit: nat, a: nat, b: nat)
    requires
        a <= b <= 0x1_0000_0000,
        forall|k: u32| a <= k < b ==> !kids.contains_key(k),
    ensures
        collect_below(c, kids, limit, b) == collect_below(c, kids, limit, a),
    decreases b - a,
{
    if a < b {
        lemma_collect_gap(c, kids, limit, a, (b - 1) as nat);
        assert(!kids.contains_key((b - 1) as u32));
    }
}

/// Buckets of `m` without keys in `[a, b)` give nothing to collect between
/// `a` and `b`.
pub proof fn lemma_collected_gap(m: Map<u32, Seq<Seq<u32>>>, w: nat, p: u8, limit: nat, a: nat, b: nat)
    requires
        a <= b <= 0x1_0000_0000,
        forall|k: u32| a <= k < b ==> !m.contains_key(k),
    ensures
        collected_below(m, w, p, limit, b) == collected_below(m, w, p, limit, a),
    decreases b - a,
{
    if a < b {
        lemma_collected_gap(m, w, p, limit, a, (b - 1) as nat);
        assert(!m.contains_key((b - 1) as u32));
    }
}

/// One layer of the parallel beam search: takes up to `per_layer` states
/// from the lowest buckets and expands them, bucket by bucket, each bucket
/// in `num_threads` chunks in parallel. The goal of the first bucket whose
/// expansion reports one ends the layer. The children are collected for the
/// next layer, chunk by chunk and by ascending projective length; once a
/// bucket has added `per_layer` children or more to the collection, the
/// collection is cut at the key up to which it holds `per_layer` states, and
/// the further children of that bucket at or above that key are dropped.
pub fn beam_layer_parallel(states: Frontier, num_threads: usize, p: u8, per_layer: usize) -> (out:
    BeamLayer)
    requires
        states.wf(p),
        states.depth_at_most(MAX_DEPTH as int),
        num_threads > 0,
    ensures
        out.goal.is_some() == goal_below(
            trimmed(states@, per_layer as nat),
            num_threads as nat,
            p,
            0x1_0000_0000,
        ).is_some(),
        out.goal matches Some(f) ==> Some(f@) == goal_below(
            trimmed(states@, per_layer as nat),
            num_threads as nat,
            p,
            0x1_0000_0000,
        ) && is_goal_seq(f@, p),
        out.goal is None ==> out.next@ == collected_below(
            trimmed(states@, per_layer as nat),
            num_threads as nat,
            p,
            per_layer as nat,
            0x1_0000_0000,
        ),
        out.next.wf(p),
        forall|d: int| states.depth_at_most(d) ==> out.next.depth_at_most(d + 1),
{
    let mut rest = states;
    rest.trim(per_layer);
    let ghost m1 = rest@;
    let ghost w = num_threads as nat;
    let ghost limit = per_layer as nat;
    let keys = rest.sorted_keys();
    let n = keys.len();
    let mut collected = Frontier::new();
    let mut i: usize = 0;
    proof {
        if n > 0 {
            assert forall|k: u32| k < keys@[0] implies !m1.contains_key(k) by {
                if m1.contains_key(k) {
                    assert(keys@.contains(k));
                    let t = choose|t: int| 0 <= t < keys@.len() && keys@[t] == k;
                    if t > 0 {
                        assert(keys@[0] < keys@[t]);
                    }
                }
            }
            lemma_goal_gap(m1, w, p, 0, keys@[0] as nat);
            lemma_collected_gap(m1, w, p, limit, 0, keys@[0] as nat);
        } else {
            assert forall|k: u32| !m1.contains_key(k) by {
                if m1.contains_key(k) {
                    assert(keys@.contains(k));
                }
            }
            lemma_goal_gap(m1, w, p, 0, 0x1_0000_0000);
            lemma_collected_gap(m1, w, p, limit, 0, 0x1_0000_0000);
        }
    }
    while i < n
        invariant
            n == keys@.len(),
            i <= n,
            w == num_threads,
            w > 0,
            limit == per_layer,
            m1 == trimmed(states@, per_layer as nat),
            ascending(keys@),
            forall|k: u32| keys@.contains(k) <==> m1.contains_key(k),
            rest.wf(p),
            rest.depth_at_most(MAX_DEPTH as int),
            forall|d: int| states.depth_at_most(d) ==> rest.depth_at_most(d),
            forall|k: u32|
                i < n && k >= keys@[i as int] ==> (rest@.contains_key(k) <==> m1.contains_key(k)),
            forall|k: u32|
                i < n && k >= keys@[i as int] && m1.contains_key(k) ==> rest@[k] == m1[k],
            goal_below(
                m1,
                w,
                p,
                if i < n {
                    keys@[i as int] as nat
                } else {
                    0x1_0000_0000
                },
            ) is None,
            collected@ == collected_below(
                m1,
                w,
                p,
                limit,
                if i < n {
                    keys@[i as int] as nat
                } else {
                    0x1_0000_0000
                },
            ),
            collected.wf(p),
            forall|d: int| states.depth_at_most(d) ==> collected.depth_at_most(d + 1),
        decreases n - i,
    {
        let k = keys[i];
        proof {
            assert(keys@.contains(k));
            let next: nat = if i + 1 < n {
                keys@[i + 1] as nat
            } else {
                0x1_0000_0000
            };
            assert forall|j: u32| k < j < next implies !m1.contains_key(j) by {
                if m1.contains_key(j) {
                    assert(keys@.contains(j));
                    let t = choose|t: int| 0 <= t < keys@.len() && keys@[t] == j;
                    if t <= i {
                        if t < i {
                            assert(keys@[t] < keys@[i as int]);
                        }
                    } else if t > i + 1 {
                        assert(keys@[i + 1] < keys@[t]);
                    }
                }
            }
            lemma_goal_gap(m1, w, p, (k + 1) as nat, next);
            lemma_collected_gap(m1, w, p, limit, (k + 1) as nat, next);
        }
        let bucket = rest.take_at(k);
        let ghost seqs = sequences(bucket@);
        proof {
            assert(seqs == m1[k]);
            assert(bucket_depth(bucket@, MAX_DEPTH as int));
            assert(expandable(bucket@, p)) by {
                if bucket@.len() > 0 {
                    assert(bucket_ok(bucket@, k, p));
                }
            }
        }
        let e = expand_batch(&bucket, num_threads, p);
        if e.goal.is_some() {
            proof {
                lemma_goal_stays(m1, w, p, (k + 1) as nat, 0x1_0000_0000);
            }
            return BeamLayer { goal: e.goal, next: collected };
        }
        let mut parts = e.parts;
        let ghost ps = parts@;
        let ghost start = Collection { buckets: collected@, added: 0, cutoff: None };
        let mut have_added: usize = 0;
        let mut cutoff: Option<u32> = None;
        let mut j: usize = 0;
        while j < num_threads
            invariant
                j <= num_threads,
                w == num_threads,
                limit == per_layer,
                ps.len() == num_threads,
                parts@ == ps.skip(j as int),
                forall|t: int|
                    0 <= t < ps.len() ==> (#[trigger] ps[t]).wf(p) && ps[t]@ == bucketed(
                        children_seq(chunk_of(seqs, w, t as nat)),
                        p,
                    ),
                forall|d: int, t: int|
                    #![trigger bucket_depth(bucket@, d), ps[t]]
                    bucket_depth(bucket@, d) && 0 <= t < ps.len() ==> ps[t].depth_at_most(d + 1),
                forall|d: int| states.depth_at_most(d) ==> bucket_depth(bucket@, d),
                have_added <= per_layer,
                collect_chunks(start, seqs, w, p, limit, j as nat) == (Collection {
                    buckets: collected@,
                    added: have_added as nat,
                    cutoff,
                }),
                collected.wf(p),
                forall|d: int| states.depth_at_most(d) ==> collected.depth_at_most(d + 1),
            decreases num_threads - j,
        {
            let mut part = parts.remove(0);
            let ghost kids = part@;
            let ghost before = Collection {
                buckets: collected@,
                added: have_added as nat,
                cutoff,
            };
            proof {
                assert(part == ps[j as int]);
                assert(parts@ =~= ps.skip(j + 1));
                assert forall|d: int| states.depth_at_most(d) implies part.depth_at_most(
                    d + 1,
                ) by {
                    assert(bucket_depth(bucket@, d));
                }
            }
            let qs = part.sorted_keys();
            let m = qs.len();
            let mut t: usize = 0;
            proof {
                if m > 0 {
                    assert forall|q: u32| q < qs@[0] implies !kids.contains_key(q) by {
                        if kids.contains_key(q) {
                            assert(qs@.contains(q));
                            let x = choose|x: int| 0 <= x < qs@.len() && qs@[x] == q;
                            if x > 0 {
                                assert(qs@[0] < qs@[x]);
                            }
                        }
                    }
                    lemma_collect_gap(before, kids, limit, 0, qs@[0] as nat);
                } else {
                    assert forall|q: u32| !kids.contains_key(q) by {
                        if kids.contains_key(q) {
                            assert(qs@.contains(q));
                        }
                    }
                    lemma_collect_gap(before, kids, limit, 0, 0x1_0000_0000);
                }
            }
            while t < m
                invariant
                    m == qs@.len(),
                    t <= m,
                    limit == per_layer,
                    ascending(qs@),
                    forall|q: u32| qs@.contains(q) <==> kids.contains_key(q),
                    part.wf(p),
                    forall|d: int| states.depth_at_most(d) ==> part.depth_at_most(d + 1),
                    forall|q: u32|
                        t < m && q >= qs@[t as int] ==> (part@.contains_key(q)
                            <==> kids.contains_key(q)),
                    forall|q: u32|
                        t < m && q >= qs@[t as int] && kids.contains_key(q) ==> part@[q]
                            == kids[q],
                    have_added <= per_layer,
                    collect_below(
                        before,
                        kids,
                        limit,
                        if t < m {
                            qs@[t as int] as nat
                        } else {
                            0x1_0000_0000
                        },
                    ) == (Collection { buckets: collected@, added: have_added as nat, cutoff }),
                    collected.wf(p),
                    forall|d: int| states.depth_at_most(d) ==> collected.depth_at_most(d + 1),
                decreases m - t,
            {
                let q = qs[t];
                let ghost now = Collection {
                    buckets: collected@,
                    added: have_added as nat,
                    cutoff,
                };
                proof {
                    assert(qs@.contains(q));
                    let next: nat = if t + 1 < m {
                        qs@[t + 1] as nat
                    } else {
                        0x1_0000_0000
                    };
                    assert forall|x: u32| q < x < next implies !kids.contains_key(x) by {
                        if kids.contains_key(x) {
                            assert(qs@.contains(x));
                            let y = choose|y: int| 0 <= y < qs@.len() && qs@[y] == x;
                            if y <= t {
                                if y < t {
                                    assert(qs@[y] < qs@[t as int]);
                                }
                            } else if y > t + 1 {
                                assert(qs@[t + 1] < qs@[y]);
                            }
                        }
                    }
                    lemma_collect_gap(before, kids, limit, (q + 1) as nat, next);
                    assert(collect_below(before, kids, limit, (q + 1) as nat) == collect_step(
                        now,
                        q,
                        kids[q],
                        limit,
                    ));
                }
                let skip = match cutoff {
                    Some(c) => q >= c,
                    None => false,
                };
                if !skip {
                    let items = part.take_at(q);
                    let len = items.len();
                    have_added = if len >= per_layer - have_added {
                        per_layer
                    } else {
                        have_added + len
                    };
                    proof {
                        assert(sequences(items@) == kids[q]);
                        assert forall|d: int| states.depth_at_most(d) implies bucket_depth(
                            items@,
                            d + 1,
                        ) by {}
                    }
                    collected.extend_at(q, items);
                    if have_added >= per_layer {
                        let ghost with = collected@;
                        let cut = collected.cut_at(per_layer);
                        proof {
                            match cut {
                                Some(c) => {
                                    lemma_cut_key(with, limit, c);
                                },
                                None => {},
                            }
                        }
                        if let Some(c) = cut {
                            cutoff = Some(c);
                        }
                    }
                }
                t += 1;
            }
            j += 1;
        }
        i += 1;
    }
    BeamLayer { goal: None, next: collected }
}

/// What a parallel beam search of at most `layers` layers finds, from the
/// buckets `m`: the goal of the first layer that reports one. A layer takes
/// up to `limit` sequences from the lowest buckets; the buckets that it
/// collects are those of the next layer.
pub open spec fn beam_parallel_spec(
    m: Map<u32, Seq<Seq<u32>>>,
    w: nat,
    p: u8,
    limit: nat,
    layers: nat,
) -> Option<Seq<u32>>
    decreases layers,
{
    if layers == 0 {
        None
    } else {
        match goal_below(trimmed(m, limit), w, p, 0x1_0000_0000) {
            Some(f) => Some(f),
            None => beam_parallel_spec(
                collected_below(trimmed(m, limit), w, p, limit, 0x1_0000_0000),
                w,
                p,
                limit,
                (layers - 1) as nat,
            ),
        }
    }
}

/// Searches for a goal layer by layer, with at most `TO_HANDLE_PER_LAYER`
/// states expanded in a layer, in parallel. Ends after `max_layers` layers.
/// Returns the generators of the goal that it finds.
pub fn beam_search_parallel(states: Frontier, num_threads: usize, p: u8, max_layers: usize) -> (found:
    Option<Vec<u32>>)
    requires
        states.wf(p),
        num_threads > 0,
        max_layers <= MAX_DEPTH,
        states.depth_at_most(MAX_DEPTH + 1 - max_layers),
    ensures
        found.is_some() == beam_parallel_spec(
            states@,
            num_threads as nat,
            p,
            TO_HANDLE_PER_LAYER as nat,
            max_layers as nat,
        ).is_some(),
        found matches Some(f) ==> Some(f@) == beam_parallel_spec(
            states@,
            num_threads as nat,
            p,
            TO_HANDLE_PER_LAYER as nat,
            max_layers as nat,
        ) && is_goal_seq(f@, p),
{
    let mut frontier = states;
    let mut layer: usize = 0;
    while layer < max_layers
        invariant
            layer <= max_layers <= MAX_DEPTH,
            num_threads > 0,
            frontier.wf(p),
            frontier.depth_at_most(MAX_DEPTH + 1 - max_layers + layer),
            beam_parallel_spec(
                states@,
                num_threads as nat,
                p,
                TO_HANDLE_PER_LAYER as nat,
                max_layers as nat,
            ) == beam_parallel_spec(
                frontier@,
                num_threads as nat,
                p,
                TO_HANDLE_PER_LAYER as nat,
                (max_layers - layer) as nat,
            ),
        decreases max_layers - layer,
    {
        proof {
            frontier.lemma_depth_upto(MAX_DEPTH + 1 - max_layers + layer, MAX_DEPTH as int);
        }
        let out = beam_layer_parallel(frontier, num_threads, p, TO_HANDLE_PER_LAYER);
        if out.goal.is_some() {
            return out.goal;
        }
        frontier = out.next;
        layer += 1;
    }
    None
}

} // verus!
