//! What holds of every search: the sequences that it holds and finds are
//! made of generators that may follow one another.

use crate::buckets::{
    accept, accepted, after_select, batch_size, is_lowest_key, merged_below, no_bucket, selected,
    trimmed, with_sequence,
};
use crate::garside::{descendants, lemma_descendants_range};
use crate::search::{
    bucketed, children_of, children_seq, chunk_of, chunk_start, first_goal, goal_of, has_goal,
    is_goal_seq, lemma_chunk_start, lemma_first_goal_range, lowest_key, merged_chunks,
    root_sequences, round_spec, search_spec, winner_from,
};
use vstd::prelude::*;

verus! {

/// The generator at the place `i` of `fs` may follow the one before it.
pub open spec fn may_follow(fs: Seq<u32>, i: int) -> bool {
    descendants(fs[i - 1]).contains(fs[i])
}

/// A sequence of generators, not empty, each of which is one of the 22 and
/// may follow the one before it.
pub open spec fn legal(fs: Seq<u32>) -> bool {
    &&& fs.len() > 0
    &&& forall|i: int| 0 <= i < fs.len() ==> 1 <= #[trigger] fs[i] <= 22
    &&& forall|i: int| 0 < i < fs.len() ==> #[trigger] may_follow(fs, i)
}

/// Every sequence of `cs` is legal.
pub open spec fn all_legal(cs: Seq<Seq<u32>>) -> bool {
    forall|i: int| 0 <= i < cs.len() ==> legal(#[trigger] cs[i])
}

/// Every sequence in every bucket of `m` is legal.
pub open spec fn buckets_legal(m: Map<u32, Seq<Seq<u32>>>) -> bool {
    forall|k: u32| #[trigger] m.contains_key(k) ==> all_legal(m[k])
}

/// The children of a legal sequence are legal.
pub proof fn lemma_children_legal(fs: Seq<u32>)
    requires
        legal(fs),
    ensures
        all_legal(children_of(fs)),
{
    let cs = children_of(fs);
    lemma_descendants_range(fs.last());
    assert forall|j: int| 0 <= j < cs.len() implies legal(#[trigger] cs[j]) by {
        let g = descendants(fs.last())[j];
        let c = fs.push(g);
        assert(cs[j] == c);
        assert forall|i: int| 0 < i < c.len() implies #[trigger] may_follow(c, i) by {
            if i < fs.len() {
                assert(may_follow(fs, i));
                assert(c[i - 1] == fs[i - 1] && c[i] == fs[i]);
            } else {
                assert(c[i - 1] == fs.last() && c[i] == g);
            }
        }
    }
}

/// The children of legal sequences are legal.
pub proof fn lemma_children_seq_legal(batch: Seq<Seq<u32>>)
    requires
        all_legal(batch),
    ensures
        all_legal(children_seq(batch)),
    decreases batch.len(),
{
    if batch.len() > 0 {
        assert(all_legal(batch.drop_last())) by {
            assert forall|i: int| 0 <= i < batch.drop_last().len() implies legal(
                #[trigger] batch.drop_last()[i],
            ) by {
                assert(batch.drop_last()[i] == batch[i]);
            }
        }
        lemma_children_seq_legal(batch.drop_last());
        assert(legal(batch.last())) by {
            assert(batch.last() == batch[batch.len() - 1]);
        }
        lemma_children_legal(batch.last());
        let a = children_seq(batch.drop_last());
        let b = children_of(batch.last());
        assert forall|i: int| 0 <= i < (a + b).len() implies legal(#[trigger] (a + b)[i]) by {
            if i < a.len() {
                assert((a + b)[i] == a[i]);
            } else {
                assert((a + b)[i] == b[i - a.len()]);
            }
        }
    }
}

/// A part of legal sequences is legal.
pub proof fn lemma_subrange_legal(cs: Seq<Seq<u32>>, lo: int, hi: int)
    requires
        all_legal(cs),
        0 <= lo <= hi <= cs.len(),
    ensures
        all_legal(cs.subrange(lo, hi)),
{
    assert forall|i: int| 0 <= i < hi - lo implies legal(#[trigger] cs.subrange(lo, hi)[i]) by {
        assert(cs.subrange(lo, hi)[i] == cs[lo + i]);
    }
}

/// Legal sequences stay legal in buckets.
pub proof fn lemma_bucketed_legal(cs: Seq<Seq<u32>>, p: u8)
    requires
        all_legal(cs),
    ensures
        buckets_legal(bucketed(cs, p)),
    decreases cs.len(),
{
    if cs.len() > 0 {
        lemma_subrange_legal(cs, 0, cs.len() - 1);
        assert(cs.drop_last() =~= cs.subrange(0, cs.len() - 1));
        lemma_bucketed_legal(cs.drop_last(), p);
        let m = bucketed(cs.drop_last(), p);
        let k = crate::frontier::seq_projlen(cs.last(), p) as u32;
        let fs = cs.last();
        assert(legal(fs)) by {
            assert(fs == cs[cs.len() - 1]);
        }
        let m2 = with_sequence(m, k, fs);
        assert forall|j: u32| #[trigger] m2.contains_key(j) implies all_legal(m2[j]) by {
            if j == k {
                let b = if m.contains_key(k) {
                    m[k]
                } else {
                    Seq::empty()
                };
                if m.contains_key(k) {
                    assert(all_legal(m[k]));
                }
                assert forall|i: int| 0 <= i < b.push(fs).len() implies legal(
                    #[trigger] b.push(fs)[i],
                ) by {
                    if i < b.len() {
                        assert(b.push(fs)[i] == b[i]);
                    }
                }
            } else {
                assert(m.contains_key(j));
            }
        }
    }
}

/// Trimming keeps the buckets legal.
pub proof fn lemma_trimmed_legal(m: Map<u32, Seq<Seq<u32>>>, cap: nat)
    requires
        buckets_legal(m),
    ensures
        buckets_legal(trimmed(m, cap)),
{
    let t = trimmed(m, cap);
    assert forall|k: u32| #[trigger] t.contains_key(k) implies all_legal(t[k]) by {
        assert(m.contains_key(k));
        let n = crate::buckets::kept(m, k, cap) as int;
        lemma_subrange_legal(m[k], 0, n);
        assert(m[k].take(n) =~= m[k].subrange(0, n));
    }
}

/// The batch that a round takes is legal, and so is what it leaves.
pub proof fn lemma_select_legal(m: Map<u32, Seq<Seq<u32>>>, k: u32, batch_cap: nat)
    requires
        buckets_legal(m),
        m.contains_key(k),
    ensures
        all_legal(selected(m, k, batch_cap)),
        buckets_legal(after_select(m, k, batch_cap)),
{
    let n = batch_size(m[k].len(), batch_cap);
    let len = m[k].len() as int;
    lemma_subrange_legal(m[k], len - n, len);
    lemma_subrange_legal(m[k], 0, len - n);
    assert(m[k].take(len - n) =~= m[k].subrange(0, len - n));
    let r = after_select(m, k, batch_cap);
    assert forall|j: u32| #[trigger] r.contains_key(j) implies all_legal(r[j]) by {
        if j != k {
            assert(m.contains_key(j));
        }
    }
}

/// Letting legal sequences in keeps the buckets legal.
pub proof fn lemma_accept_legal(
    m: Map<u32, Seq<Seq<u32>>>,
    q: u32,
    items: Seq<Seq<u32>>,
    cap: nat,
)
    requires
        buckets_legal(m),
        all_legal(items),
    ensures
        buckets_legal(accept(m, q, items, cap)),
{
    let n = accepted(m, q, items.len(), cap) as int;
    if n > 0 {
        let b = if m.contains_key(q) {
            m[q]
        } else {
            Seq::empty()
        };
        if m.contains_key(q) {
            assert(all_legal(m[q]));
        }
        lemma_subrange_legal(items, 0, n);
        assert(items.take(n) =~= items.subrange(0, n));
        let joined = b + items.take(n);
        assert forall|i: int| 0 <= i < joined.len() implies legal(#[trigger] joined[i]) by {
            if i < b.len() {
                assert(joined[i] == b[i]);
            } else {
                assert(joined[i] == items.take(n)[i - b.len()]);
            }
        }
        let r = accept(m, q, items, cap);
        assert forall|j: u32| #[trigger] r.contains_key(j) implies all_legal(r[j]) by {
            if j != q {
                assert(m.contains_key(j));
            }
        }
    }
}

/// Merging legal buckets gives legal buckets.
pub proof fn lemma_merged_legal(
    m: Map<u32, Seq<Seq<u32>>>,
    c: Map<u32, Seq<Seq<u32>>>,
    cap: nat,
    n: nat,
)
    requires
        buckets_legal(m),
        buckets_legal(c),
    ensures
        buckets_legal(merged_below(m, c, cap, n)),
    decreases n,
{
    if n > 0 {
        lemma_merged_legal(m, c, cap, (n - 1) as nat);
        let k = (n - 1) as u32;
        if c.contains_key(k) {
            lemma_accept_legal(merged_below(m, c, cap, (n - 1) as nat), k, c[k], cap);
        }
    }
}

/// A chunk of legal sequences is legal.
pub proof fn lemma_chunk_legal(batch: Seq<Seq<u32>>, w: nat, i: nat)
    requires
        all_legal(batch),
        w > 0,
        i < w,
    ensures
        all_legal(chunk_of(batch, w, i)),
{
    lemma_chunk_start(batch.len(), w, i);
    lemma_chunk_start(batch.len(), w, i + 1);
    lemma_subrange_legal(
        batch,
        chunk_start(batch.len(), w, i) as int,
        chunk_start(batch.len(), w, i + 1) as int,
    );
}

/// Letting the children of legal chunks in keeps the buckets legal.
pub proof fn lemma_merged_chunks_legal(
    m: Map<u32, Seq<Seq<u32>>>,
    batch: Seq<Seq<u32>>,
    w: nat,
    p: u8,
    cap: nat,
    upto: nat,
)
    requires
        buckets_legal(m),
        all_legal(batch),
        w > 0,
        upto <= w,
    ensures
        buckets_legal(merged_chunks(m, batch, w, p, cap, upto)),
    decreases upto,
{
    if upto > 0 {
        let i = (upto - 1) as nat;
        lemma_merged_chunks_legal(m, batch, w, p, cap, i);
        lemma_chunk_legal(batch, w, i);
        lemma_children_seq_legal(chunk_of(batch, w, i));
        lemma_bucketed_legal(children_seq(chunk_of(batch, w, i)), p);
        lemma_merged_legal(
            merged_chunks(m, batch, w, p, cap, i),
            bucketed(children_seq(chunk_of(batch, w, i)), p),
            cap,
            0x1_0000_0000,
        );
    }
}

/// The winner among the chunks is a chunk, and has a goal.
pub proof fn lemma_winner_range(batch: Seq<Seq<u32>>, w: nat, p: u8, i: nat)
    requires
        i <= w,
    ensures
        i <= winner_from(batch, w, p, i) <= w,
        winner_from(batch, w, p, i) < w ==> has_goal(
            chunk_of(batch, w, winner_from(batch, w, p, i)),
            p,
        ),
    decreases w - i,
{
    if i < w && !has_goal(chunk_of(batch, w, i), p) {
        lemma_winner_range(batch, w, p, i + 1);
    }
}

/// A round on legal buckets leaves legal buckets, and what it finds is
/// legal and a goal.
pub proof fn lemma_round_legal(
    m: Map<u32, Seq<Seq<u32>>>,
    w: nat,
    p: u8,
    total_cap: nat,
    batch_cap: nat,
)
    requires
        buckets_legal(m),
        w > 0,
    ensures
        buckets_legal(round_spec(m, w, p, total_cap, batch_cap).1),
        round_spec(m, w, p, total_cap, batch_cap).0 matches Some(f) ==> legal(f) && is_goal_seq(
            f,
            p,
        ),
{
    let m1 = trimmed(m, total_cap);
    lemma_trimmed_legal(m, total_cap);
    if !no_bucket(m1) {
        let some = choose|k: u32| m1.contains_key(k);
        lemma_lowest_exists(m1, some, 0);
        let k = lowest_key(m1);
        assert(is_lowest_key(m1, k));
        lemma_select_legal(m1, k, batch_cap);
        let batch = selected(m1, k, batch_cap);
        let m2 = after_select(m1, k, batch_cap);
        let win = winner_from(batch, w, p, 0);
        lemma_winner_range(batch, w, p, 0);
        if win < w {
            let chunk = chunk_of(batch, w, win);
            lemma_chunk_legal(batch, w, win);
            lemma_children_seq_legal(chunk);
            lemma_first_goal_range(children_seq(chunk), p);
            assert(goal_of(chunk, p) == children_seq(chunk)[first_goal(children_seq(chunk), p)]);
        } else {
            lemma_merged_chunks_legal(m2, batch, w, p, total_cap, w);
        }
    }
}

/// Buckets that hold a key hold a lowest key.
pub proof fn lemma_lowest_exists(m: Map<u32, Seq<Seq<u32>>>, some: u32, from: u32)
    requires
        m.contains_key(some),
        from <= some,
        forall|j: u32| j < from ==> !m.contains_key(j),
    ensures
        exists|k: u32| is_lowest_key(m, k),
    decreases some - from,
{
    if m.contains_key(from) {
        assert(is_lowest_key(m, from));
    } else {
        lemma_lowest_exists(m, some, (from + 1) as u32);
    }
}

/// What a search finds from legal buckets is legal and a goal: a sequence
/// of generators, each of which may follow the one before it, that reaches
/// a matrix of projective length 1.
pub proof fn lemma_search_legal(
    m: Map<u32, Seq<Seq<u32>>>,
    w: nat,
    p: u8,
    total_cap: nat,
    batch_cap: nat,
    rounds: nat,
)
    requires
        buckets_legal(m),
        w > 0,
    ensures
        search_spec(m, w, p, total_cap, batch_cap, rounds) matches Some(f) ==> legal(f)
            && is_goal_seq(f, p),
    decreases rounds,
{
    if rounds > 0 {
        lemma_round_legal(m, w, p, total_cap, batch_cap);
        let r = round_spec(m, w, p, total_cap, batch_cap);
        if r.0 is None {
            lemma_search_legal(r.1, w, p, total_cap, batch_cap, (rounds - 1) as nat);
        }
    }
}

/// The buckets that a search starts from are legal.
pub proof fn lemma_roots_legal(p: u8)
    ensures
        buckets_legal(bucketed(root_sequences(), p)),
{
    let rs = root_sequences();
    assert forall|i: int| 0 <= i < rs.len() implies legal(#[trigger] rs[i]) by {
        assert(rs[i] == seq![(i + 1) as u32]);
    }
    lemma_bucketed_legal(rs, p);
}

} // verus!
