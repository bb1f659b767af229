//! The frontier of a search: the states that wait to be expanded, in buckets
//! by projective length, and what a search does with them.

use crate::algebra::projlen_of;
use crate::buckets::{
    accept, accepted, after_select, ascending, bucket_at, bucket_len, count_below, extended, flat,
    flat_below, is_cut_key, is_lowest_key, is_top_key, kept, lemma_accept_population,
    lemma_count_agree, lemma_count_gap, lemma_count_insert, lemma_count_remove, lemma_flat_gap,
    lemma_merged_gap, lemma_top_agree, lemma_top_below, lemma_top_key, lemma_top_key_insert,
    lemma_trimmed_count, lower_part, merged, merged_below, no_bucket, population, room, selected,
    top_key, trimmed, with_sequence, without_last,
};
use crate::state::{reach, State};
use hashbrown::HashMap;
use vstd::prelude::*;

verus! {

/// The states of a search that wait to be expanded, in buckets by a key,
/// for the most part the projective length of their matrices, in a
/// `hashbrown::HashMap`. Of the map itself nothing is known but what
/// `bucket_map` names and the functions below say of it.
#[verifier::external_body]
pub struct Frontier {
    buckets: HashMap<u32, Vec<State>>,
}

/// What a frontier holds: key to the states of that key, in the order in
/// which they came.
pub uninterp spec fn bucket_map(f: Frontier) -> Map<u32, Seq<State>>;

/// `hashbrown::HashMap::new`: a map that holds nothing.
#[verifier::external_body]
fn empty_frontier() -> (out: Frontier)
    ensures
        bucket_map(out) =~= Map::empty(),
{
    Frontier { buckets: HashMap::new() }
}

/// `hashbrown::HashMap::insert`: the map holds `states` at `key` afterwards
/// and is otherwise unchanged; whether a value was there before comes back,
/// and which.
#[verifier::external_body]
fn put_bucket(f: &mut Frontier, key: u32, states: Vec<State>) -> (prev: Option<Vec<State>>)
    ensures
        bucket_map(*final(f)) == bucket_map(*old(f)).insert(key, states@),
        prev.is_some() == bucket_map(*old(f)).contains_key(key),
        prev matches Some(v) ==> v@ == bucket_map(*old(f))[key],
{
    f.buckets.insert(key, states)
}

/// `hashbrown::HashMap::remove`: the map holds nothing at `key` afterwards
/// and is otherwise unchanged; the value that was there comes back.
#[verifier::external_body]
fn take_bucket(f: &mut Frontier, key: u32) -> (out: Option<Vec<State>>)
    ensures
        bucket_map(*final(f)) == bucket_map(*old(f)).remove(key),
        out.is_some() == bucket_map(*old(f)).contains_key(key),
        out matches Some(v) ==> v@ == bucket_map(*old(f))[key],
{
    f.buckets.remove(&key)
}

/// `hashbrown::HashMap::keys`: every key of the map once, in no order that
/// can be relied on.
#[verifier::external_body]
fn bucket_keys(f: &Frontier) -> (out: Vec<u32>)
    ensures
        out@.no_duplicates(),
        forall|k: u32| out@.contains(k) <==> bucket_map(*f).contains_key(k),
{
    f.buckets.keys().copied().collect()
}

/// `hashbrown::HashMap::get`: the value at `key`, if the map holds one.
#[verifier::external_body]
fn peek_bucket(f: &Frontier, key: u32) -> (out: Option<&Vec<State>>)
    ensures
        out.is_some() == bucket_map(*f).contains_key(key),
        out matches Some(v) ==> v@ == bucket_map(*f)[key],
{
    f.buckets.get(&key)
}

/// The projective length of the matrix that the generators `fs` reach.
pub open spec fn seq_projlen(fs: Seq<u32>, p: u8) -> int {
    projlen_of(reach(fs, p))
}

/// The generator sequences of the states `b`, in order.
pub open spec fn sequences(b: Seq<State>) -> Seq<Seq<u32>> {
    b.map_values(|s: State| s.factors@)
}

/// A bucket as the search keeps it: not empty, and every state in it well
/// formed over `p`, with projective length `k`.
pub open spec fn bucket_ok(b: Seq<State>, k: u32, p: u8) -> bool {
    &&& b.len() > 0
    &&& forall|i: int| 0 <= i < b.len() ==> (#[trigger] b[i]).wf(p) && b[i].mat.spec_projlen() == k
}

/// Every state in `b` is well formed over the modulus `p`.
pub open spec fn all_wf(b: Seq<State>, p: u8) -> bool {
    forall|i: int| 0 <= i < b.len() ==> (#[trigger] b[i]).wf(p)
}

/// No state in `b` has more than `d` generators.
pub open spec fn bucket_depth(b: Seq<State>, d: int) -> bool {
    forall|i: int| 0 <= i < b.len() ==> (#[trigger] b[i]).factors@.len() <= d
}

/// The keys `keys`, which hold no key twice, in ascending order.
fn sort_keys(keys: Vec<u32>) -> (out: Vec<u32>)
    requires
        keys@.no_duplicates(),
    ensures
        ascending(out@),
        out@.len() == keys@.len(),
        forall|k: u32| out@.contains(k) <==> keys@.contains(k),
{
    let mut out: Vec<u32> = Vec::new();
    let n = keys.len();
    let mut i: usize = 0;
    while i < n
        invariant
            n == keys@.len(),
            i <= n,
            keys@.no_duplicates(),
            ascending(out@),
            out@.len() == i,
            forall|k: u32| out@.contains(k) <==> exists|j: int| 0 <= j < i && keys@[j] == k,
        decreases n - i,
    {
        let x = keys[i];
        let mut pos: usize = 0;
        while pos < out.len() && out[pos] < x
            invariant
                pos <= out@.len(),
                ascending(out@),
                forall|j: int| 0 <= j < pos ==> out@[j] < x,
            decreases out@.len() - pos,
        {
            pos += 1;
        }
        let ghost before = out@;
        proof {
            assert(!before.contains(x)) by {
                if before.contains(x) {
                    let j = choose|j: int| 0 <= j < i && keys@[j] == x;
                    assert(keys@[j] == keys@[i as int]);
                }
            }
            if pos < before.len() {
                assert(before.contains(before[pos as int]));
                assert(before[pos as int] > x);
            }
        }
        out.insert(pos, x);
        proof {
            let after = out@;
            assert forall|a: int, b: int| 0 <= a < b < after.len() implies after[a] < after[b] by {
                if b < pos {
                } else if b == pos {
                } else if a < pos {
                    assert(after[b] == before[b - 1]);
                    assert(before[pos as int] <= before[b - 1]);
                } else if a == pos {
                    assert(after[b] == before[b - 1]);
                    assert(before[pos as int] <= before[b - 1]);
                } else {
                    assert(after[a] == before[a - 1] && after[b] == before[b - 1]);
                }
            }
            assert forall|k: u32| after.contains(k) <==> exists|j: int|
                0 <= j < i + 1 && keys@[j] == k by {
                if after.contains(k) {
                    let t = choose|t: int| 0 <= t < after.len() && after[t] == k;
                    if t < pos {
                        assert(before[t] == k);
                        assert(before.contains(k));
                    } else if t > pos {
                        assert(before[t - 1] == k);
                        assert(before.contains(k));
                    } else {
                        assert(keys@[i as int] == k);
                    }
                }
                if exists|j: int| 0 <= j < i + 1 && keys@[j] == k {
                    let j = choose|j: int| 0 <= j < i + 1 && keys@[j] == k;
                    if j == i {
                        assert(after[pos as int] == k);
                    } else {
                        assert(before.contains(k));
                        let t = choose|t: int| 0 <= t < before.len() && before[t] == k;
                        if t < pos {
                            assert(after[t] == k);
                        } else {
                            assert(after[t + 1] == k);
                        }
                    }
                }
            }
        }
        i += 1;
    }
    proof {
        assert forall|k: u32| out@.contains(k) <==> keys@.contains(k) by {
            if keys@.contains(k) {
                let j = choose|j: int| 0 <= j < keys@.len() && keys@[j] == k;
                assert(0 <= j < i && keys@[j] == k);
            }
        }
    }
    out
}

/// Every bucket of `bm` is as the search keeps it, over the modulus `p`.
pub open spec fn bucket_wf(bm: Map<u32, Seq<State>>, p: u8) -> bool {
    forall|k: u32| #[trigger] bm.contains_key(k) ==> bucket_ok(bm[k], k, p)
}

/// Every state of `bm` is well formed over the modulus `p`.
pub open spec fn buckets_hold(bm: Map<u32, Seq<State>>, p: u8) -> bool {
    forall|k: u32| #[trigger]
        bm.contains_key(k) ==> forall|i: int| 0 <= i < bm[k].len() ==> (#[trigger] bm[k][i]).wf(p)
}

/// No state of `bm` has more than `d` generators.
pub open spec fn buckets_depth(bm: Map<u32, Seq<State>>, d: int) -> bool {
    forall|k: u32| #[trigger] bm.contains_key(k) ==> bucket_depth(bm[k], d)
}

/// Letting the states in is letting their sequences in.
pub proof fn lemma_accept_view(bm: Map<u32, Seq<State>>, q: u32, items: Seq<State>, cap: nat)
    ensures
        view_of(accept(bm, q, items, cap)) == accept(view_of(bm), q, sequences(items), cap),
{
    let v = view_of(bm);
    lemma_count_agree(bm, v, 0x1_0000_0000);
    lemma_top_agree(bm, v, 0x1_0000_0000);
    let n = accepted(bm, q, items.len(), cap);
    assert(n == accepted(v, q, sequences(items).len(), cap));
    if n > 0 {
        let b = if bm.contains_key(q) {
            bm[q]
        } else {
            Seq::empty()
        };
        let vb = if v.contains_key(q) {
            v[q]
        } else {
            Seq::empty()
        };
        assert(sequences(b) =~= vb);
        assert(sequences(b + items.take(n as int)) =~= vb + sequences(items).take(n as int));
        assert(view_of(bm.insert(q, b + items.take(n as int))) =~= v.insert(
            q,
            vb + sequences(items).take(n as int),
        ));
    }
}

/// Merging the states is merging their sequences.
pub proof fn lemma_merged_view(
    bm: Map<u32, Seq<State>>,
    c: Map<u32, Seq<State>>,
    cap: nat,
    n: nat,
)
    ensures
        view_of(merged_below(bm, c, cap, n)) == merged_below(view_of(bm), view_of(c), cap, n),
    decreases n,
{
    if n > 0 {
        lemma_merged_view(bm, c, cap, (n - 1) as nat);
        let k = (n - 1) as u32;
        if c.contains_key(k) {
            lemma_accept_view(merged_below(bm, c, cap, (n - 1) as nat), k, c[k], cap);
        }
    }
}

/// The buckets of generator sequences that stand for the buckets `bm`.
pub open spec fn view_of(bm: Map<u32, Seq<State>>) -> Map<u32, Seq<Seq<u32>>> {
    Map::new(|k: u32| bm.contains_key(k), |k: u32| sequences(bm[k]))
}

/// Trimming the states is trimming their sequences.
pub proof fn lemma_trimmed_view(bm: Map<u32, Seq<State>>, cap: nat)
    ensures
        view_of(trimmed(bm, cap)) == trimmed(view_of(bm), cap),
{
    let v = view_of(bm);
    assert forall|k: u32| kept(bm, k, cap) == kept(v, k, cap) by {
        lemma_count_agree(bm, v, k as nat);
    }
    assert forall|k: u32| #[trigger]
        bm.contains_key(k) && kept(bm, k, cap) > 0 implies sequences(
        bm[k].take(kept(bm, k, cap) as int),
    ) == v[k].take(kept(v, k, cap) as int) by {
        assert(sequences(bm[k].take(kept(bm, k, cap) as int)) =~= sequences(bm[k]).take(
            kept(bm, k, cap) as int,
        ));
    }
    assert(view_of(trimmed(bm, cap)) =~= trimmed(v, cap));
}

/// The sequences of the states by ascending key are the sequences by
/// ascending key.
pub proof fn lemma_flat_view(bm: Map<u32, Seq<State>>, n: nat)
    ensures
        sequences(flat_below(bm, n)) == flat_below(view_of(bm), n),
    decreases n,
{
    if n > 0 {
        lemma_flat_view(bm, (n - 1) as nat);
        let k = (n - 1) as u32;
        let b = if bm.contains_key(k) {
            bm[k]
        } else {
            Seq::empty()
        };
        assert(sequences(flat_below(bm, (n - 1) as nat) + b) =~= sequences(
            flat_below(bm, (n - 1) as nat),
        ) + sequences(b));
        if !bm.contains_key(k) {
            assert(sequences(b) =~= Seq::<Seq<u32>>::empty());
        }
    } else {
        assert(sequences(Seq::<State>::empty()) =~= Seq::<Seq<u32>>::empty());
    }
}

/// A frontier is viewed as its buckets of generator sequences.
impl View for Frontier {
    type V = Map<u32, Seq<Seq<u32>>>;

    open spec fn view(&self) -> Map<u32, Seq<Seq<u32>>> {
        view_of(bucket_map(*self))
    }
}

impl Frontier {
    /// Every bucket is as the search keeps it, over the modulus `p`.
    pub open spec fn wf(&self, p: u8) -> bool {
        bucket_wf(bucket_map(*self), p)
    }

    /// Every state is well formed over the modulus `p`, whatever its bucket.
    pub open spec fn holds(&self, p: u8) -> bool {
        buckets_hold(bucket_map(*self), p)
    }

    /// No state has more than `d` generators.
    pub open spec fn depth_at_most(&self, d: int) -> bool {
        buckets_depth(bucket_map(*self), d)
    }

    /// States in buckets by projective length are well formed.
    pub proof fn lemma_wf_holds(&self, p: u8)
        requires
            self.wf(p),
        ensures
            self.holds(p),
    {
        let bm = bucket_map(*self);
        assert forall|k: u32| #[trigger] bm.contains_key(k) implies forall|i: int|
            0 <= i < bm[k].len() ==> (#[trigger] bm[k][i]).wf(p) by {
            assert(bucket_ok(bm[k], k, p));
        }
    }

    /// A bound on the number of generators can be raised.
    pub proof fn lemma_depth_weaken(&self, d: int)
        requires
            self.depth_at_most(d),
        ensures
            self.depth_at_most(d + 1),
    {
        let bm = bucket_map(*self);
        assert forall|k: u32| #[trigger] bm.contains_key(k) implies bucket_depth(bm[k], d + 1) by {
            assert(bucket_depth(bm[k], d));
        }
    }

    /// A bound on the number of generators can be raised, by any amount.
    pub proof fn lemma_depth_upto(&self, d: int, e: int)
        requires
            self.depth_at_most(d),
            d <= e,
        ensures
            self.depth_at_most(e),
    {
        let bm = bucket_map(*self);
        assert forall|k: u32| #[trigger] bm.contains_key(k) implies bucket_depth(bm[k], e) by {
            assert(bucket_depth(bm[k], d));
        }
    }

    /// A frontier that holds no state.
    pub fn new() -> (out: Frontier)
        ensures
            out@ == Map::<u32, Seq<Seq<u32>>>::empty(),
            forall|p: u8| out.wf(p),
            forall|p: u8| out.holds(p),
            forall|d: int| out.depth_at_most(d),
    {
        let out = empty_frontier();
        assert(out@ =~= Map::<u32, Seq<Seq<u32>>>::empty());
        out
    }

    /// The projective lengths for which the frontier holds states, in
    /// ascending order.
    pub fn sorted_keys(&self) -> (out: Vec<u32>)
        ensures
            ascending(out@),
            forall|k: u32| out@.contains(k) <==> self@.contains_key(k),
    {
        sort_keys(bucket_keys(self))
    }

    /// Cuts the frontier down to `cap` states: the states of the highest
    /// buckets leave first. Returns how many states stay.
    pub fn trim(&mut self, cap: usize) -> (total: usize)
        ensures
            final(self)@ == trimmed(old(self)@, cap as nat),
            total == population(final(self)@),
            total == if population(old(self)@) <= cap {
                population(old(self)@)
            } else {
                cap as nat
            },
            forall|p: u8| old(self).wf(p) ==> final(self).wf(p),
            forall|d: int| old(self).depth_at_most(d) ==> final(self).depth_at_most(d),
    {
        let keys = self.sorted_keys();
        let ghost bm = bucket_map(*self);
        let n = keys.len();
        let mut have_added: usize = 0;
        let mut i: usize = 0;
        proof {
            if n > 0 {
                assert(keys@.contains(keys@[0]));
                assert forall|k: u32| k < keys@[0] implies !bm.contains_key(k) by {
                    if bm.contains_key(k) {
                        assert(view_of(bm).contains_key(k));
                        assert(keys@.contains(k));
                    }
                }
                lemma_count_gap(bm, 0, keys@[0] as nat);
            } else {
                assert forall|k: u32| !bm.contains_key(k) by {
                    if bm.contains_key(k) {
                        assert(keys@.contains(k));
                    }
                }
                lemma_count_gap(bm, 0, 0x1_0000_0000);
            }
            assert forall|k: u32| (n == 0 || k < keys@[0]) implies !bm.contains_key(k) by {
                if bm.contains_key(k) {
                    assert(keys@.contains(k));
                    let t = choose|t: int| 0 <= t < keys@.len() && keys@[t] == k;
                    if t > 0 {
                        assert(keys@[0] < keys@[t]);
                    }
                }
            }
        }
        while i < n
            invariant
                n == keys@.len(),
                i <= n,
                ascending(keys@),
                forall|k: u32| keys@.contains(k) <==> bm.contains_key(k),
                have_added <= cap,
                i < n ==> have_added == (if count_below(bm, keys@[i as int] as nat) <= cap {
                    count_below(bm, keys@[i as int] as nat)
                } else {
                    cap as nat
                }),
                i == n ==> have_added == (if population(bm) <= cap {
                    population(bm)
                } else {
                    cap as nat
                }),
                forall|k: u32|
                    (i == n || k < keys@[i as int]) ==> (bucket_map(*self).contains_key(k)
                        <==> trimmed(bm, cap as nat).contains_key(k)),
                forall|k: u32|
                    (i == n || k < keys@[i as int]) && bucket_map(*self).contains_key(k)
                        ==> bucket_map(*self)[k] == trimmed(bm, cap as nat)[k],
                forall|k: u32|
                    i < n && k >= keys@[i as int] ==> (bucket_map(*self).contains_key(k)
                        <==> bm.contains_key(k)),
                forall|k: u32|
                    i < n && k >= keys@[i as int] && bm.contains_key(k) ==> bucket_map(*self)[k]
                        == bm[k],
            decreases n - i,
        {
            let k = keys[i];
            let ghost cur = bucket_map(*self);
            proof {
                assert(keys@.contains(k));
                assert(bm.contains_key(k));
                // the count below the next key
                let next: nat = if i + 1 < n {
                    keys@[i + 1] as nat
                } else {
                    0x1_0000_0000
                };
                assert forall|j: u32| k < j < next implies !bm.contains_key(j) by {
                    if bm.contains_key(j) {
                        assert(keys@.contains(j));
                        let t = choose|t: int| 0 <= t < keys@.len() && keys@[t] == j;
                        if t <= i {
                            if t < i {
                                assert(keys@[t] < keys@[i as int]);
                            }
                        } else if t > i + 1 {
                            assert(keys@[i + 1] < keys@[t]);
                        }
                    }
                }
                assert(count_below(bm, (k + 1) as nat) == count_below(bm, k as nat) + bm[k].len());
                lemma_count_gap(bm, (k + 1) as nat, next);
            }
            let taken = take_bucket(self, k);
            let mut bucket = match taken {
                Some(b) => b,
                None => Vec::new(),
            };
            let room = cap - have_added;
            if bucket.len() > room {
                bucket.truncate(room);
            }
            let m = bucket.len();
            proof {
                assert(m == kept(bm, k, cap as nat));
                assert(bucket@ =~= bm[k].take(m as int));
            }
            if m > 0 {
                put_bucket(self, k, bucket);
            }
            have_added = have_added + m;
            i += 1;
        }
        proof {
            let after = bucket_map(*self);
            assert(after =~= trimmed(bm, cap as nat));
            lemma_trimmed_view(bm, cap as nat);
            lemma_trimmed_count(old(self)@, cap as nat, 0x1_0000_0000);
            lemma_count_agree(bm, old(self)@, 0x1_0000_0000);
            assert forall|p: u8| old(self).wf(p) implies self.wf(p) by {
                assert forall|k: u32| #[trigger] after.contains_key(k) implies bucket_ok(
                    after[k],
                    k,
                    p,
                ) by {
                    assert(bm.contains_key(k));
                    assert(bucket_ok(bm[k], k, p));
                }
            }
            assert forall|d: int| old(self).depth_at_most(d) implies self.depth_at_most(d) by {
                assert forall|k: u32| #[trigger] after.contains_key(k) implies bucket_depth(
                    after[k],
                    d,
                ) by {
                    assert(bm.contains_key(k));
                    assert(bucket_depth(bm[k], d));
                }
            }
        }
        have_added
    }

    /// Takes the states that the next round expands: the last ones of the
    /// lowest bucket, at most `batch_cap`. From a frontier that holds no
    /// state it takes none.
    pub fn select(&mut self, batch_cap: usize) -> (batch: Vec<State>)
        ensures
            no_bucket(old(self)@) ==> batch@.len() == 0 && final(self)@ == old(self)@,
            !no_bucket(old(self)@) ==> exists|k: u32| is_lowest_key(old(self)@, k),
            forall|k: u32|
                is_lowest_key(old(self)@, k) ==> sequences(batch@) == selected(
                    old(self)@,
                    k,
                    batch_cap as nat,
                ) && final(self)@ == after_select(old(self)@, k, batch_cap as nat),
            population(final(self)@) + batch@.len() == population(old(self)@),
            forall|p: u8|
                old(self).wf(p) ==> final(self).wf(p) && forall|i: int|
                    0 <= i < batch@.len() ==> (#[trigger] batch@[i]).wf(p),
            forall|d: int|
                old(self).depth_at_most(d) ==> final(self).depth_at_most(d) && bucket_depth(
                    batch@,
                    d,
                ),
    {
        let keys = self.sorted_keys();
        let ghost bm = bucket_map(*self);
        if keys.len() == 0 {
            proof {
                assert forall|j: u32| !old(self)@.contains_key(j) by {
                    if old(self)@.contains_key(j) {
                        assert(keys@.contains(j));
                    }
                }
            }
            return Vec::new();
        }
        let k = keys[0];
        proof {
            assert(keys@.contains(k));
            assert forall|j: u32| bm.contains_key(j) implies k <= j by {
                assert(view_of(bm).contains_key(j));
                assert(keys@.contains(j));
                let t = choose|t: int| 0 <= t < keys@.len() && keys@[t] == j;
                if t > 0 {
                    assert(keys@[0] < keys@[t]);
                }
            }
        }
        let taken = take_bucket(self, k);
        let mut bucket = match taken {
            Some(b) => b,
            None => Vec::new(),
        };
        let len = bucket.len();
        let n = if len > batch_cap {
            batch_cap
        } else {
            len
        };
        let batch = bucket.split_off(len - n);
        let ghost rest = bucket@;
        if bucket.len() > 0 {
            put_bucket(self, k, bucket);
        }
        proof {
            let after = bucket_map(*self);
            let v = old(self)@;
            assert(v[k] == sequences(bm[k]));
            assert(sequences(batch@) =~= selected(v, k, batch_cap as nat));
            assert(rest =~= bm[k].take(len - n));
            assert(sequences(rest) =~= v[k].take(len - n));
            assert(self@ =~= after_select(v, k, batch_cap as nat));
            assert forall|q: u32| is_lowest_key(v, q) implies q == k by {
                assert(v.contains_key(k));
            }
            assert(is_lowest_key(v, k));
            // population
            lemma_count_agree(bm, v, 0x1_0000_0000);
            lemma_count_agree(after, self@, 0x1_0000_0000);
            lemma_count_remove(bm, k, 0x1_0000_0000);
            if rest.len() > 0 {
                lemma_count_insert(bm.remove(k), k, rest, 0x1_0000_0000);
            }
            assert forall|p: u8| old(self).wf(p) implies self.wf(p) && forall|i: int|
                0 <= i < batch@.len() ==> (#[trigger] batch@[i]).wf(p) by {
                assert(bucket_ok(bm[k], k, p));
                assert forall|j: u32| #[trigger] after.contains_key(j) implies bucket_ok(
                    after[j],
                    j,
                    p,
                ) by {
                    assert(bm.contains_key(j));
                    assert(bucket_ok(bm[j], j, p));
                }
                assert forall|i: int| 0 <= i < batch@.len() implies (#[trigger] batch@[i]).wf(
                    p,
                ) by {
                    assert(batch@[i] == bm[k][len - n + i]);
                }
            }
            assert forall|d: int| old(self).depth_at_most(d) implies self.depth_at_most(d)
                && bucket_depth(batch@, d) by {
                assert(bucket_depth(bm[k], d));
                assert forall|j: u32| #[trigger] after.contains_key(j) implies bucket_depth(
                    after[j],
                    d,
                ) by {
                    assert(bm.contains_key(j));
                    assert(bucket_depth(bm[j], d));
                }
                assert forall|i: int| 0 <= i < batch@.len() implies (#[trigger] batch@[i]).factors@.len()
                    <= d by {
                    assert(batch@[i] == bm[k][len - n + i]);
                }
            }
        }
        batch
    }

    /// The highest projective length for which the frontier holds states,
    /// or 0 where it holds none.
    pub fn top(&self) -> (h: u32)
        ensures
            h == top_key(self@),
            is_top_key(self@, h),
    {
        let keys = self.sorted_keys();
        let n = keys.len();
        let h = if n == 0 {
            0
        } else {
            keys[n - 1]
        };
        proof {
            let v = self@;
            if n == 0 {
                assert forall|j: u32| !v.contains_key(j) by {
                    if v.contains_key(j) {
                        assert(keys@.contains(j));
                    }
                }
            } else {
                assert(keys@.contains(h));
                assert forall|j: u32| v.contains_key(j) implies j <= h by {
                    assert(keys@.contains(j));
                    let t = choose|t: int| 0 <= t < keys@.len() && keys@[t] == j;
                    if t < n - 1 {
                        assert(keys@[t] < keys@[n - 1]);
                    }
                }
            }
            lemma_top_key(v, h);
        }
        h
    }

    /// How many states the frontier holds, counted up to `cap`.
    pub fn occupancy(&self, cap: usize) -> (total: usize)
        ensures
            total == if population(self@) <= cap {
                population(self@)
            } else {
                cap as nat
            },
    {
        let keys = self.sorted_keys();
        let ghost bm = bucket_map(*self);
        let n = keys.len();
        let mut seen: usize = 0;
        let mut i: usize = 0;
        proof {
            if n > 0 {
                assert forall|k: u32| k < keys@[0] implies !bm.contains_key(k) by {
                    if bm.contains_key(k) {
                        assert(keys@.contains(k));
                        let t = choose|t: int| 0 <= t < keys@.len() && keys@[t] == k;
                        if t > 0 {
                            assert(keys@[0] < keys@[t]);
                        }
                    }
                }
                lemma_count_gap(bm, 0, keys@[0] as nat);
            } else {
                assert forall|k: u32| !bm.contains_key(k) by {
                    if bm.contains_key(k) {
                        assert(keys@.contains(k));
                    }
                }
                lemma_count_gap(bm, 0, 0x1_0000_0000);
            }
        }
        while i < n
            invariant
                n == keys@.len(),
                i <= n,
                bm == bucket_map(*self),
                ascending(keys@),
                forall|k: u32| keys@.contains(k) <==> bm.contains_key(k),
                seen <= cap,
                i < n ==> seen == (if count_below(bm, keys@[i as int] as nat) <= cap {
                    count_below(bm, keys@[i as int] as nat)
                } else {
                    cap as nat
                }),
                i == n ==> seen == (if population(bm) <= cap {
                    population(bm)
                } else {
                    cap as nat
                }),
            decreases n - i,
        {
            let k = keys[i];
            proof {
                assert(keys@.contains(k));
                let next: nat = if i + 1 < n {
                    keys@[i + 1] as nat
                } else {
                    0x1_0000_0000
                };
                assert forall|j: u32| k < j < next implies !bm.contains_key(j) by {
                    if bm.contains_key(j) {
                        assert(keys@.contains(j));
                        let t = choose|t: int| 0 <= t < keys@.len() && keys@[t] == j;
                        if t <= i {
                            if t < i {
                                assert(keys@[t] < keys@[i as int]);
                            }
                        } else if t > i + 1 {
                            assert(keys@[i + 1] < keys@[t]);
                        }
                    }
                }
                assert(count_below(bm, (k + 1) as nat) == count_below(bm, k as nat) + bm[k].len());
                lemma_count_gap(bm, (k + 1) as nat, next);
            }
            let len = match peek_bucket(self, k) {
                Some(b) => b.len(),
                None => 0,
            };
            seen = if len > cap - seen {
                cap
            } else {
                seen + len
            };
            i += 1;
        }
        proof {
            lemma_count_agree(bm, self@, 0x1_0000_0000);
        }
        seen
    }

    /// Lets the states of `children` ask for admission, bucket by bucket in
    /// ascending order of projective length: the highest bucket of the
    /// frontier takes in as many as `cap` leaves room for, every other bucket
    /// all.
    pub fn merge(&mut self, children: Frontier, cap: usize)
        ensures
            final(self)@ == merged(old(self)@, children@, cap as nat),
            forall|p: u8| old(self).wf(p) && children.wf(p) ==> final(self).wf(p),
            forall|d: int|
                old(self).depth_at_most(d) && children.depth_at_most(d) ==> final(self).depth_at_most(
                    d,
                ),
    {
        let mut children = children;
        let keys = children.sorted_keys();
        let ghost c = bucket_map(children);
        let ghost m0 = bucket_map(*self);
        let n = keys.len();
        let mut top = self.top();
        let mut free = cap - self.occupancy(cap);
        let mut i: usize = 0;
        proof {
            lemma_top_agree(m0, self@, 0x1_0000_0000);
            lemma_count_agree(m0, self@, 0x1_0000_0000);
            if n > 0 {
                assert forall|k: u32| k < keys@[0] implies !c.contains_key(k) by {
                    if c.contains_key(k) {
                        assert(view_of(c).contains_key(k));
                        assert(keys@.contains(k));
                        let t = choose|t: int| 0 <= t < keys@.len() && keys@[t] == k;
                        if t > 0 {
                            assert(keys@[0] < keys@[t]);
                        }
                    }
                }
                lemma_merged_gap(m0, c, cap as nat, 0, keys@[0] as nat);
            } else {
                assert forall|k: u32| !c.contains_key(k) by {
                    if c.contains_key(k) {
                        assert(view_of(c).contains_key(k));
                        assert(keys@.contains(k));
                    }
                }
                lemma_merged_gap(m0, c, cap as nat, 0, 0x1_0000_0000);
            }
        }
        while i < n
            invariant
                n == keys@.len(),
                i <= n,
                ascending(keys@),
                forall|k: u32| keys@.contains(k) <==> c.contains_key(k),
                bucket_map(*self) == merged_below(
                    m0,
                    c,
                    cap as nat,
                    if i < n {
                        keys@[i as int] as nat
                    } else {
                        0x1_0000_0000
                    },
                ),
                top == top_key(bucket_map(*self)),
                free == room(bucket_map(*self), cap as nat),
                forall|k: u32|
                    i < n && k >= keys@[i as int] ==> (bucket_map(children).contains_key(k)
                        <==> c.contains_key(k)),
                forall|k: u32|
                    i < n && k >= keys@[i as int] && c.contains_key(k) ==> bucket_map(children)[k]
                        == c[k],
                forall|p: u8|
                    old(self).wf(p) && bucket_wf(c, p) ==> self.wf(p),
                forall|d: int|
                    old(self).depth_at_most(d) && buckets_depth(c, d) ==> self.depth_at_most(d),
            decreases n - i,
        {
            let q = keys[i];
            let ghost cur = bucket_map(*self);
            proof {
                assert(keys@.contains(q));
                let next: nat = if i + 1 < n {
                    keys@[i + 1] as nat
                } else {
                    0x1_0000_0000
                };
                assert forall|j: u32| q < j < next implies !c.contains_key(j) by {
                    if c.contains_key(j) {
                        assert(keys@.contains(j));
                        let t = choose|t: int| 0 <= t < keys@.len() && keys@[t] == j;
                        if t <= i {
                            if t < i {
                                assert(keys@[t] < keys@[i as int]);
                            }
                        } else if t > i + 1 {
                            assert(keys@[i + 1] < keys@[t]);
                        }
                    }
                }
                lemma_merged_gap(m0, c, cap as nat, (q + 1) as nat, next);
                assert(merged_below(m0, c, cap as nat, (q + 1) as nat) == accept(
                    cur,
                    q,
                    c[q],
                    cap as nat,
                ));
                lemma_accept_population(cur, q, c[q], cap as nat);
            }
            let taken = take_bucket(&mut children, q);
            let mut items = match taken {
                Some(b) => b,
                None => Vec::new(),
            };
            let len = items.len();
            let k = if q == top && len > free {
                free
            } else {
                len
            };
            if k > 0 {
                items.truncate(k);
                let mine = take_bucket(self, q);
                let mut bucket = match mine {
                    Some(b) => b,
                    None => Vec::new(),
                };
                let ghost was = bucket@;
                bucket.append(&mut items);
                put_bucket(self, q, bucket);
                free = if k > free {
                    0
                } else {
                    free - k
                };
                proof {
                    let after = bucket_map(*self);
                    assert(after =~= cur.insert(q, was + c[q].take(k as int)));
                    lemma_top_below(cur, 0x1_0000_0000);
                    lemma_top_key_insert(cur, q, was + c[q].take(k as int));
                    assert forall|p: u8| old(self).wf(p) && bucket_wf(c, p) implies self.wf(
                        p,
                    ) by {
                        assert(bucket_ok(c[q], q, p));
                        assert forall|j: u32| #[trigger] after.contains_key(j) implies bucket_ok(
                            after[j],
                            j,
                            p,
                        ) by {
                            if j != q {
                                assert(cur.contains_key(j));
                            } else if cur.contains_key(q) {
                                assert(bucket_ok(cur[q], q, p));
                            }
                        }
                    }
                    assert forall|d: int|
                        old(self).depth_at_most(d) && buckets_depth(c, d) implies self.depth_at_most(
                        d,
                    ) by {
                        assert(bucket_depth(c[q], d));
                        assert forall|j: u32| #[trigger] after.contains_key(j) implies bucket_depth(
                            after[j],
                            d,
                        ) by {
                            if j != q {
                                assert(cur.contains_key(j));
                            } else if cur.contains_key(q) {
                                assert(bucket_depth(cur[q], d));
                            }
                        }
                    }
                }
                if q > top {
                    top = q;
                }
            }
            i += 1;
        }
        proof {
            lemma_merged_view(m0, c, cap as nat, 0x1_0000_0000);
        }
    }

    /// How many states the bucket of projective length `k` holds.
    pub fn bucket_size(&self, k: u32) -> (n: usize)
        ensures
            n == bucket_len(self@, k),
    {
        match peek_bucket(self, k) {
            Some(b) => b.len(),
            None => 0,
        }
    }

    /// The generator sequences of the states in the bucket of projective
    /// length `k`, in order; none where the frontier has no such bucket.
    pub fn sequences_of(&self, k: u32) -> (out: Vec<Vec<u32>>)
        ensures
            out@.len() == bucket_len(self@, k),
            forall|i: int| 0 <= i < out@.len() ==> (#[trigger] out@[i])@ == self@[k][i],
    {
        let mut out: Vec<Vec<u32>> = Vec::new();
        if let Some(b) = peek_bucket(self, k) {
            let n = b.len();
            let mut i: usize = 0;
            while i < n
                invariant
                    n == b@.len(),
                    i <= n,
                    b@ == bucket_map(*self)[k],
                    bucket_map(*self).contains_key(k),
                    out@.len() == i,
                    forall|j: int| 0 <= j < i ==> (#[trigger] out@[j])@ == b@[j].factors@,
                decreases n - i,
            {
                let fs = b[i].factors.clone();
                out.push(fs);
                i += 1;
            }
        }
        out
    }

    /// All states of the frontier, by ascending projective length and
    /// within a bucket in its order.
    pub fn into_sorted(self) -> (out: Vec<State>)
        ensures
            sequences(out@) == flat(self@),
            forall|p: u8|
                self.holds(p) ==> forall|i: int| 0 <= i < out@.len() ==> (#[trigger] out@[i]).wf(p),
            forall|p: u8|
                self.wf(p) ==> forall|i: int| 0 <= i < out@.len() ==> (#[trigger] out@[i]).wf(p),
            forall|d: int| self.depth_at_most(d) ==> bucket_depth(out@, d),
    {
        proof {
            assert forall|p: u8| self.wf(p) implies self.holds(p) by {
                self.lemma_wf_holds(p);
            }
        }
        let mut rest = self;
        let keys = rest.sorted_keys();
        let ghost bm = bucket_map(self);
        let n = keys.len();
        let mut out: Vec<State> = Vec::new();
        let mut i: usize = 0;
        proof {
            if n > 0 {
                assert forall|k: u32| k < keys@[0] implies !bm.contains_key(k) by {
                    if bm.contains_key(k) {
                        assert(view_of(bm).contains_key(k));
                        assert(keys@.contains(k));
                        let t = choose|t: int| 0 <= t < keys@.len() && keys@[t] == k;
                        if t > 0 {
                            assert(keys@[0] < keys@[t]);
                        }
                    }
                }
                lemma_flat_gap(bm, 0, keys@[0] as nat);
            } else {
                assert forall|k: u32| !bm.contains_key(k) by {
                    if bm.contains_key(k) {
                        assert(view_of(bm).contains_key(k));
                        assert(keys@.contains(k));
                    }
                }
                lemma_flat_gap(bm, 0, 0x1_0000_0000);
            }
        }
        while i < n
            invariant
                n == keys@.len(),
                i <= n,
                ascending(keys@),
                bm == bucket_map(self),
                forall|k: u32| keys@.contains(k) <==> bm.contains_key(k),
                out@ == flat_below(
                    bm,
                    if i < n {
                        keys@[i as int] as nat
                    } else {
                        0x1_0000_0000
                    },
                ),
                forall|k: u32|
                    i < n && k >= keys@[i as int] ==> (bucket_map(rest).contains_key(k)
                        <==> bm.contains_key(k)),
                forall|k: u32|
                    i < n && k >= keys@[i as int] && bm.contains_key(k) ==> bucket_map(rest)[k]
                        == bm[k],
                forall|p: u8|
                    buckets_hold(bm, p) ==> forall|j: int|
                        0 <= j < out@.len() ==> (#[trigger] out@[j]).wf(p),
                forall|d: int| buckets_depth(bm, d) ==> bucket_depth(out@, d),
            decreases n - i,
        {
            let k = keys[i];
            let ghost sofar = out@;
            proof {
                assert(keys@.contains(k));
                let next: nat = if i + 1 < n {
                    keys@[i + 1] as nat
                } else {
                    0x1_0000_0000
                };
                assert forall|j: u32| k < j < next implies !bm.contains_key(j) by {
                    if bm.contains_key(j) {
                        assert(keys@.contains(j));
                        let t = choose|t: int| 0 <= t < keys@.len() && keys@[t] == j;
                        if t <= i {
                            if t < i {
                                assert(keys@[t] < keys@[i as int]);
                            }
                        } else if t > i + 1 {
                            assert(keys@[i + 1] < keys@[t]);
                        }
                    }
                }
                lemma_flat_gap(bm, (k + 1) as nat, next);
                assert(flat_below(bm, (k + 1) as nat) == sofar + bm[k]);
            }
            let taken = take_bucket(&mut rest, k);
            let mut bucket = match taken {
                Some(b) => b,
                None => Vec::new(),
            };
            proof {
                assert forall|p: u8| buckets_hold(bm, p) implies forall|j: int|
                    0 <= j < (sofar + bm[k]).len() ==> (#[trigger] (sofar + bm[k])[j]).wf(p) by {
                    assert(bm.contains_key(k));
                    assert forall|j: int| 0 <= j < (sofar + bm[k]).len() implies (#[trigger] (sofar
                        + bm[k])[j]).wf(p) by {
                        if j < sofar.len() {
                            assert((sofar + bm[k])[j] == sofar[j]);
                        } else {
                            assert((sofar + bm[k])[j] == bm[k][j - sofar.len()]);
                        }
                    }
                }
                assert forall|d: int| buckets_depth(bm, d) implies bucket_depth(
                    sofar + bm[k],
                    d,
                ) by {
                    assert(bucket_depth(bm[k], d));
                    assert forall|j: int| 0 <= j < (sofar + bm[k]).len() implies (#[trigger] (sofar
                        + bm[k])[j]).factors@.len() <= d by {
                        if j < sofar.len() {
                            assert((sofar + bm[k])[j] == sofar[j]);
                        } else {
                            assert((sofar + bm[k])[j] == bm[k][j - sofar.len()]);
                        }
                    }
                }
            }
            out.append(&mut bucket);
            i += 1;
        }
        proof {
            lemma_flat_view(bm, 0x1_0000_0000);
        }
        out
    }

    /// Takes the whole bucket of the key `k` out of the frontier.
    pub fn take_at(&mut self, k: u32) -> (out: Vec<State>)
        ensures
            final(self)@ == old(self)@.remove(k),
            sequences(out@) == bucket_at(old(self)@, k),
            forall|p: u8|
                old(self).wf(p) ==> final(self).wf(p) && (out@.len() > 0 ==> bucket_ok(out@, k, p)),
            forall|d: int|
                old(self).depth_at_most(d) ==> final(self).depth_at_most(d) && bucket_depth(out@, d),
    {
        let ghost before = bucket_map(*self);
        let taken = take_bucket(self, k);
        let out = match taken {
            Some(b) => b,
            None => Vec::new(),
        };
        proof {
            let after = bucket_map(*self);
            assert(self@ =~= old(self)@.remove(k));
            if before.contains_key(k) {
                assert(old(self)@[k] == sequences(out@));
            } else {
                assert(sequences(out@) =~= Seq::<Seq<u32>>::empty());
            }
            assert forall|p: u8| old(self).wf(p) implies self.wf(p) && (out@.len() > 0
                ==> bucket_ok(out@, k, p)) by {
                assert forall|j: u32| #[trigger] after.contains_key(j) implies bucket_ok(
                    after[j],
                    j,
                    p,
                ) by {
                    assert(before.contains_key(j));
                }
                if before.contains_key(k) {
                    assert(bucket_ok(before[k], k, p));
                }
            }
            assert forall|d: int| old(self).depth_at_most(d) implies self.depth_at_most(d)
                && bucket_depth(out@, d) by {
                assert forall|j: u32| #[trigger] after.contains_key(j) implies bucket_depth(
                    after[j],
                    d,
                ) by {
                    assert(before.contains_key(j));
                }
                if before.contains_key(k) {
                    assert(bucket_depth(before[k], d));
                }
            }
        }
        out
    }

    /// Puts the states `items` at the end of the bucket of the key `k`.
    pub fn extend_at(&mut self, k: u32, items: Vec<State>)
        ensures
            final(self)@ == extended(old(self)@, k, sequences(items@)),
            forall|p: u8|
                old(self).wf(p) && (items@.len() > 0 ==> bucket_ok(items@, k, p)) ==> final(self).wf(
                    p,
                ),
            forall|d: int|
                old(self).depth_at_most(d) && bucket_depth(items@, d) ==> final(self).depth_at_most(
                    d,
                ),
    {
        if items.len() == 0 {
            return ;
        }
        let ghost before = bucket_map(*self);
        let mut items = items;
        let ghost new = items@;
        let mut bucket = match take_bucket(self, k) {
            Some(b) => b,
            None => Vec::new(),
        };
        let ghost was = bucket@;
        bucket.append(&mut items);
        put_bucket(self, k, bucket);
        proof {
            let after = bucket_map(*self);
            assert(after =~= before.insert(k, was + new));
            assert(sequences(was + new) =~= sequences(was) + sequences(new));
            if before.contains_key(k) {
                assert(old(self)@[k] == sequences(was));
            } else {
                assert(sequences(was) =~= Seq::<Seq<u32>>::empty());
            }
            assert(self@ =~= extended(old(self)@, k, sequences(new)));
            assert forall|p: u8| old(self).wf(p) && (new.len() > 0 ==> bucket_ok(new, k, p))
                implies self.wf(p) by {
                assert forall|j: u32| #[trigger] after.contains_key(j) implies bucket_ok(
                    after[j],
                    j,
                    p,
                ) by {
                    if j != k {
                        assert(before.contains_key(j));
                    } else {
                        if before.contains_key(k) {
                            assert(bucket_ok(before[k], k, p));
                        }
                        assert forall|i: int| 0 <= i < (was + new).len() implies (#[trigger] (was
                            + new)[i]).wf(p) && (was + new)[i].mat.spec_projlen() == k by {
                            if i < was.len() {
                                assert((was + new)[i] == was[i]);
                            } else {
                                assert((was + new)[i] == new[i - was.len()]);
                            }
                        }
                    }
                }
            }
            assert forall|d: int| old(self).depth_at_most(d) && bucket_depth(new, d)
                implies self.depth_at_most(d) by {
                assert forall|j: u32| #[trigger] after.contains_key(j) implies bucket_depth(
                    after[j],
                    d,
                ) by {
                    if j != k {
                        assert(before.contains_key(j));
                    } else {
                        if before.contains_key(k) {
                            assert(bucket_depth(before[k], d));
                        }
                        assert forall|i: int| 0 <= i < (was + new).len() implies (#[trigger] (was
                            + new)[i]).factors@.len() <= d by {
                            if i < was.len() {
                                assert((was + new)[i] == was[i]);
                            } else {
                                assert((was + new)[i] == new[i - was.len()]);
                            }
                        }
                    }
                }
            }
        }
    }

    /// Cuts the frontier at the lowest key up to which it holds `limit`
    /// states or more: the buckets above that key are gone. Returns the
    /// key; where the frontier holds fewer states in all, nothing changes
    /// and no key is returned.
    pub fn cut_at(&mut self, limit: usize) -> (cut: Option<u32>)
        ensures
            cut matches Some(c) ==> is_cut_key(old(self)@, limit as nat, c) && final(self)@
                == lower_part(old(self)@, c),
            cut is None ==> final(self)@ == old(self)@ && forall|c: u32|
                !is_cut_key(old(self)@, limit as nat, c),
            forall|p: u8| old(self).wf(p) ==> final(self).wf(p),
            forall|d: int| old(self).depth_at_most(d) ==> final(self).depth_at_most(d),
    {
        let keys = self.sorted_keys();
        let ghost bm = bucket_map(*self);
        let ghost v = self@;
        let n = keys.len();
        let mut count: usize = 0;
        let mut cut: Option<u32> = None;
        let mut i: usize = 0;
        proof {
            if n > 0 {
                assert forall|k: u32| k < keys@[0] implies !v.contains_key(k) by {
                    if v.contains_key(k) {
                        assert(keys@.contains(k));
                        let t = choose|t: int| 0 <= t < keys@.len() && keys@[t] == k;
                        if t > 0 {
                            assert(keys@[0] < keys@[t]);
                        }
                    }
                }
                lemma_count_gap(v, 0, keys@[0] as nat);
            }
        }
        while i < n
            invariant
                n == keys@.len(),
                i <= n,
                v == old(self)@,
                bm == bucket_map(*old(self)),
                ascending(keys@),
                forall|k: u32| keys@.contains(k) <==> bm.contains_key(k),
                count <= limit,
                cut is None ==> bucket_map(*self) == bm,
                cut is None ==> forall|j: int|
                    0 <= j < i ==> count_below(v, (#[trigger] keys@[j] + 1) as nat) < limit,
                cut is None && i < n ==> count == count_below(v, keys@[i as int] as nat),
                cut matches Some(c) ==> is_cut_key(v, limit as nat, c) && (i == n || c
                    < keys@[i as int]),
                cut matches Some(c) ==> forall|k: u32|
                    bucket_map(*self).contains_key(k) <==> bm.contains_key(k) && (k <= c || (i < n
                        && k >= keys@[i as int])),
                forall|k: u32| #[trigger]
                    bucket_map(*self).contains_key(k) ==> bucket_map(*self)[k] == bm[k],
            decreases n - i,
        {
            let k = keys[i];
            proof {
                assert(keys@.contains(k));
                assert(keys@[i as int] == k);
                lemma_count_agree(bm, v, 0x1_0000_0000);
                lemma_count_agree(bm, v, k as nat);
                lemma_count_agree(bm, v, (k + 1) as nat);
                let next: nat = if i + 1 < n {
                    keys@[i + 1] as nat
                } else {
                    0x1_0000_0000
                };
                assert forall|j: u32| k < j < next implies !v.contains_key(j) by {
                    if v.contains_key(j) {
                        assert(keys@.contains(j));
                        let t = choose|t: int| 0 <= t < keys@.len() && keys@[t] == j;
                        if t <= i {
                            if t < i {
                                assert(keys@[t] < keys@[i as int]);
                            }
                        } else if t > i + 1 {
                            assert(keys@[i + 1] < keys@[t]);
                        }
                    }
                }
                lemma_count_gap(v, (k + 1) as nat, next);
                assert(count_below(v, (k + 1) as nat) == count_below(v, k as nat) + v[k].len());
                assert forall|j: u32| bm.contains_key(j) == v.contains_key(j) by {}
                assert forall|j: u32| k < j < next implies !bm.contains_key(j) by {
                    assert(!v.contains_key(j));
                }
            }
            let ghost cur = bucket_map(*self);
            let ghost next: nat = if i + 1 < n {
                keys@[i + 1] as nat
            } else {
                0x1_0000_0000
            };
            if cut.is_some() {
                take_bucket(self, k);
                proof {
                    let c = cut->0;
                    let now = bucket_map(*self);
                    assert forall|q: u32| #[trigger] now.contains_key(q) implies now[q] == bm[q] by {
                        assert(cur.contains_key(q));
                    }
                    assert forall|q: u32|
                        now.contains_key(q) <==> bm.contains_key(q) && (q <= c || (i + 1 < n && q
                            >= keys@[i + 1])) by {
                        assert(now.contains_key(q) <==> cur.contains_key(q) && q != k);
                        if bm.contains_key(q) && q > k {
                            assert(!(k < q < next));
                        }
                    }
                }
            } else {
                let len = self.bucket_size(k);
                if len >= limit - count {
                    cut = Some(k);
                    count = limit;
                    proof {
                        assert forall|q: u32|
                            cur.contains_key(q) <==> bm.contains_key(q) && (q <= k || (i + 1 < n
                                && q >= keys@[i + 1])) by {
                            if bm.contains_key(q) && q > k {
                                assert(!(k < q < next));
                            }
                        }
                        assert forall|j: u32| j < k && v.contains_key(j) implies count_below(
                            v,
                            (j + 1) as nat,
                        ) < limit by {
                            assert(keys@.contains(j));
                            let t = choose|t: int| 0 <= t < keys@.len() && keys@[t] == j;
                            if t >= i {
                                if t > i {
                                    assert(keys@[i as int] < keys@[t]);
                                }
                            }
                            assert(count_below(v, (keys@[t] + 1) as nat) < limit);
                        }
                    }
                } else {
                    count = count + len;
                }
            }
            i += 1;
        }
        proof {
            let after = bucket_map(*self);
            match cut {
                Some(c) => {
                    assert(self@ =~= lower_part(v, c));
                },
                None => {
                    assert forall|c: u32| !is_cut_key(v, limit as nat, c) by {
                        if is_cut_key(v, limit as nat, c) {
                            assert(keys@.contains(c));
                            let t = choose|t: int| 0 <= t < keys@.len() && keys@[t] == c;
                            assert(count_below(v, (keys@[t] + 1) as nat) < limit);
                        }
                    }
                },
            }
            assert forall|p: u8| old(self).wf(p) implies self.wf(p) by {
                assert forall|j: u32| #[trigger] after.contains_key(j) implies bucket_ok(
                    after[j],
                    j,
                    p,
                ) by {
                    assert(after[j] == bm[j]);
                    assert(bm.contains_key(j));
                }
            }
            assert forall|d: int| old(self).depth_at_most(d) implies self.depth_at_most(d) by {
                assert forall|j: u32| #[trigger] after.contains_key(j) implies bucket_depth(
                    after[j],
                    d,
                ) by {
                    assert(after[j] == bm[j]);
                    assert(bm.contains_key(j));
                }
            }
        }
        cut
    }

    /// Takes the last state of the bucket of projective length `k` away,
    /// and the bucket with it if no state is left in it. Returns the state,
    /// if there was one.
    pub fn evict_last(&mut self, k: u32) -> (gone: Option<State>)
        ensures
            final(self)@ == without_last(old(self)@, k),
            gone.is_some() == (bucket_len(old(self)@, k) > 0),
            gone matches Some(s) ==> s.factors@ == old(self)@[k].last(),
            forall|p: u8| old(self).wf(p) ==> final(self).wf(p) && (gone matches Some(s) ==> s.wf(p)),
            forall|d: int| old(self).depth_at_most(d) ==> final(self).depth_at_most(d),
    {
        let ghost before = bucket_map(*self);
        let taken = take_bucket(self, k);
        let mut bucket = match taken {
            Some(b) => b,
            None => {
                proof {
                    assert(bucket_map(*self) =~= before);
                }
                return None;
            },
        };
        let ghost was = bucket@;
        let gone = bucket.pop();
        if bucket.len() > 0 {
            put_bucket(self, k, bucket);
        }
        proof {
            let after = bucket_map(*self);
            let v = old(self)@;
            assert(v[k] == sequences(was));
            if was.len() > 1 {
                assert(after =~= before.insert(k, was.drop_last()));
                assert(sequences(was.drop_last()) =~= sequences(was).drop_last());
                assert(self@ =~= v.insert(k, v[k].drop_last()));
            } else {
                assert(after =~= before.remove(k));
                assert(self@ =~= v.remove(k));
            }
            assert forall|p: u8| old(self).wf(p) implies self.wf(p) && (gone matches Some(s)
                ==> s.wf(p)) by {
                assert(bucket_ok(before[k], k, p));
                assert forall|j: u32| #[trigger] after.contains_key(j) implies bucket_ok(
                    after[j],
                    j,
                    p,
                ) by {
                    assert(before.contains_key(j));
                    assert(bucket_ok(before[j], j, p));
                }
            }
            assert forall|d: int| old(self).depth_at_most(d) implies self.depth_at_most(d) by {
                assert forall|j: u32| #[trigger] after.contains_key(j) implies bucket_depth(
                    after[j],
                    d,
                ) by {
                    assert(before.contains_key(j));
                    assert(bucket_depth(before[j], d));
                }
            }
        }
        gone
    }

    /// Puts `state` in the place `at` of the bucket of its projective
    /// length, in place of the state that stood there.
    pub fn replace(&mut self, at: usize, state: State)
        requires
            state.wf(state.mat.p),
            old(self).wf(state.mat.p),
            at < bucket_len(old(self)@, state.mat.spec_projlen() as u32),
        ensures
            final(self).wf(state.mat.p),
            final(self)@ == old(self)@.insert(
                state.mat.spec_projlen() as u32,
                old(self)@[state.mat.spec_projlen() as u32].update(at as int, state.factors@),
            ),
            forall|d: int|
                old(self).depth_at_most(d) && state.factors@.len() <= d ==> final(self).depth_at_most(
                    d,
                ),
    {
        let k = state.projlen();
        let ghost before = bucket_map(*self);
        let mut bucket = match take_bucket(self, k) {
            Some(b) => b,
            None => Vec::new(),
        };
        let ghost was = bucket@;
        bucket.set(at, state);
        put_bucket(self, k, bucket);
        proof {
            let after = bucket_map(*self);
            assert(after =~= before.insert(k, was.update(at as int, state)));
            assert(sequences(was.update(at as int, state)) =~= sequences(was).update(
                at as int,
                state.factors@,
            ));
            assert(self@ =~= old(self)@.insert(k, old(self)@[k].update(at as int, state.factors@)));
            assert(bucket_ok(before[k], k, state.mat.p));
            assert forall|j: u32| #[trigger] after.contains_key(j) implies bucket_ok(
                after[j],
                j,
                state.mat.p,
            ) by {
                if j != k {
                    assert(before.contains_key(j));
                }
            }
            assert forall|d: int|
                old(self).depth_at_most(d) && state.factors@.len() <= d implies self.depth_at_most(
                d,
            ) by {
                assert(bucket_depth(before[k], d));
                assert forall|j: u32| #[trigger] after.contains_key(j) implies bucket_depth(
                    after[j],
                    d,
                ) by {
                    if j != k {
                        assert(before.contains_key(j));
                    }
                }
            }
        }
    }

    /// Puts `state` at the end of the bucket of the key `key`.
    pub fn push_at(&mut self, key: u32, state: State)
        ensures
            final(self)@ == with_sequence(old(self)@, key, state.factors@),
            forall|p: u8| old(self).holds(p) && state.wf(p) ==> final(self).holds(p),
            forall|p: u8|
                old(self).wf(p) && state.wf(p) && state.mat.spec_projlen() == key ==> final(self).wf(
                    p,
                ),
            forall|d: int|
                old(self).depth_at_most(d) && state.factors@.len() <= d ==> final(self).depth_at_most(
                    d,
                ),
    {
        let ghost before = bucket_map(*self);
        let mut bucket = match take_bucket(self, key) {
            Some(b) => b,
            None => Vec::new(),
        };
        let ghost was = bucket@;
        bucket.push(state);
        put_bucket(self, key, bucket);
        proof {
            let after = bucket_map(*self);
            assert(after =~= before.insert(key, was.push(state)));
            assert(sequences(was.push(state)) =~= sequences(was).push(state.factors@));
            let target = with_sequence(old(self)@, key, state.factors@);
            if before.contains_key(key) {
                assert(old(self)@[key] == sequences(was));
            } else {
                assert(sequences(was) =~= Seq::<Seq<u32>>::empty());
            }
            assert forall|j: u32| self@.contains_key(j) <==> target.contains_key(j) by {
                assert(after.contains_key(j) <==> (j == key || before.contains_key(j)));
            }
            assert forall|j: u32| self@.contains_key(j) implies self@[j] == target[j] by {
                if j != key {
                    assert(after[j] == before[j]);
                }
            }
            assert(self@ =~= target);
            assert forall|p: u8| old(self).holds(p) && state.wf(p) implies self.holds(p) by {
                assert forall|j: u32| #[trigger] after.contains_key(j) implies forall|i: int|
                    0 <= i < after[j].len() ==> (#[trigger] after[j][i]).wf(p) by {
                    if j != key {
                        assert(before.contains_key(j));
                    } else if before.contains_key(key) {
                        assert forall|i: int| 0 <= i < after[j].len() implies (#[trigger] after[j][i]).wf(
                            p,
                        ) by {
                            if i < was.len() {
                                assert(after[j][i] == before[key][i]);
                            }
                        }
                    }
                }
            }
            assert forall|p: u8|
                old(self).wf(p) && state.wf(p) && state.mat.spec_projlen() == key implies self.wf(
                p,
            ) by {
                assert forall|j: u32| #[trigger] after.contains_key(j) implies bucket_ok(
                    after[j],
                    j,
                    p,
                ) by {
                    if j != key {
                        assert(before.contains_key(j));
                    } else if before.contains_key(key) {
                        assert(bucket_ok(before[key], key, p));
                    }
                }
            }
            assert forall|d: int|
                old(self).depth_at_most(d) && state.factors@.len() <= d implies self.depth_at_most(
                d,
            ) by {
                assert forall|j: u32| #[trigger] after.contains_key(j) implies bucket_depth(
                    after[j],
                    d,
                ) by {
                    if j != key {
                        assert(before.contains_key(j));
                    } else if before.contains_key(key) {
                        assert(bucket_depth(before[key], d));
                    }
                }
            }
        }
    }

    /// Puts `state` at the end of the bucket of its projective length.
    pub fn push(&mut self, state: State)
        requires
            state.wf(state.mat.p),
            old(self).wf(state.mat.p),
        ensures
            final(self).wf(state.mat.p),
            final(self)@ == with_sequence(
                old(self)@,
                state.mat.spec_projlen() as u32,
                state.factors@,
            ),
            forall|d: int|
                old(self).depth_at_most(d) && state.factors@.len() <= d ==> final(self).depth_at_most(
                    d,
                ),
    {
        let k = state.projlen();
        self.push_at(k, state);
    }
}

} // verus!
