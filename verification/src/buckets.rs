//! Buckets of items by a key, as maps from the key to the items in their
//! order: how many they hold, and what trimming, taking a batch and letting
//! new items in make of them.

use vstd::prelude::*;

verus! {

/// The map `m` with the sequence `fs` at the end of bucket `k`.
pub open spec fn with_sequence(m: Map<u32, Seq<Seq<u32>>>, k: u32, fs: Seq<u32>) -> Map<
    u32,
    Seq<Seq<u32>>,
> {
    m.insert(
        k,
        (if m.contains_key(k) {
            m[k]
        } else {
            Seq::empty()
        }).push(fs),
    )
}

/// How many items the buckets with a key below `n` hold together.
pub open spec fn count_below<T>(m: Map<u32, Seq<T>>, n: nat) -> nat
    decreases n,
{
    if n == 0 {
        0
    } else {
        count_below(m, (n - 1) as nat) + if m.contains_key((n - 1) as u32) {
            m[(n - 1) as u32].len()
        } else {
            0
        }
    }
}

/// How many items all buckets hold together.
pub open spec fn population<T>(m: Map<u32, Seq<T>>) -> nat {
    count_below(m, 0x1_0000_0000)
}

/// The length of bucket `k`, 0 where there is none.
pub open spec fn bucket_len<T>(m: Map<u32, Seq<T>>, k: u32) -> nat {
    if m.contains_key(k) {
        m[k].len()
    } else {
        0
    }
}

/// Two maps whose buckets below `n` have the same lengths count the same.
pub proof fn lemma_count_agree<T, U>(m1: Map<u32, Seq<T>>, m2: Map<u32, Seq<U>>, n: nat)
    requires
        n <= 0x1_0000_0000,
        forall|k: u32| k < n ==> bucket_len(m1, k) == bucket_len(m2, k),
    ensures
        count_below(m1, n) == count_below(m2, n),
    decreases n,
{
    if n > 0 {
        lemma_count_agree(m1, m2, (n - 1) as nat);
        assert(bucket_len(m1, (n - 1) as u32) == bucket_len(m2, (n - 1) as u32));
    }
}

/// Buckets without keys in `[a, b)` count the same below `a` and below `b`.
pub proof fn lemma_count_gap<T>(m: Map<u32, Seq<T>>, a: nat, b: nat)
    requires
        a <= b <= 0x1_0000_0000,
        forall|k: u32| a <= k < b ==> !m.contains_key(k),
    ensures
        count_below(m, b) == count_below(m, a),
    decreases b - a,
{
    if a < b {
        lemma_count_gap(m, a, (b - 1) as nat);
        assert(!m.contains_key((b - 1) as u32));
    }
}

/// Putting a bucket at `k` changes the count by the change of its length.
pub proof fn lemma_count_insert<T>(m: Map<u32, Seq<T>>, k: u32, s: Seq<T>, n: nat)
    requires
        n <= 0x1_0000_0000,
    ensures
        count_below(m.insert(k, s), n) + (if k < n {
            bucket_len(m, k)
        } else {
            0
        }) == count_below(m, n) + (if k < n {
            s.len()
        } else {
            0
        }),
    decreases n,
{
    if n > 0 {
        lemma_count_insert(m, k, s, (n - 1) as nat);
    }
}

/// Taking the bucket at `k` away lowers the count by its length.
pub proof fn lemma_count_remove<T>(m: Map<u32, Seq<T>>, k: u32, n: nat)
    requires
        n <= 0x1_0000_0000,
    ensures
        count_below(m.remove(k), n) + (if k < n {
            bucket_len(m, k)
        } else {
            0
        }) == count_below(m, n),
    decreases n,
{
    if n > 0 {
        lemma_count_remove(m, k, (n - 1) as nat);
    }
}

/// The values of `s` in strictly ascending order.
pub open spec fn ascending(s: Seq<u32>) -> bool {
    forall|i: int, j: int| 0 <= i < j < s.len() ==> s[i] < s[j]
}

/// How many items of bucket `k` stay when only `cap` items may stay in all:
/// the buckets are kept from the lowest key upward.
pub open spec fn kept<T>(m: Map<u32, Seq<T>>, k: u32, cap: nat) -> nat {
    let below = count_below(m, k as nat);
    let room = if cap > below {
        (cap - below) as nat
    } else {
        0
    };
    if bucket_len(m, k) <= room {
        bucket_len(m, k)
    } else {
        room
    }
}

/// The buckets `m` cut down to `cap` items: the items of the highest buckets
/// leave first, within a bucket those that came last, and an emptied bucket
/// is gone.
pub open spec fn trimmed<T>(m: Map<u32, Seq<T>>, cap: nat) -> Map<u32, Seq<T>> {
    Map::new(
        |k: u32| m.contains_key(k) && kept(m, k, cap) > 0,
        |k: u32| m[k].take(kept(m, k, cap) as int),
    )
}

/// Trimmed buckets hold `cap` items, or all there were if those are fewer.
pub proof fn lemma_trimmed_count<T>(m: Map<u32, Seq<T>>, cap: nat, n: nat)
    requires
        n <= 0x1_0000_0000,
    ensures
        count_below(trimmed(m, cap), n) == if count_below(m, n) <= cap {
            count_below(m, n)
        } else {
            cap
        },
    decreases n,
{
    if n > 0 {
        lemma_trimmed_count(m, cap, (n - 1) as nat);
        let k = (n - 1) as u32;
        assert(bucket_len(trimmed(m, cap), k) == kept(m, k, cap));
    }
}

/// `k` is the lowest key of `m`.
pub open spec fn is_lowest_key<T>(m: Map<u32, Seq<T>>, k: u32) -> bool {
    m.contains_key(k) && forall|j: u32| m.contains_key(j) ==> k <= j
}

/// `m` holds no bucket.
pub open spec fn no_bucket<T>(m: Map<u32, Seq<T>>) -> bool {
    forall|j: u32| !m.contains_key(j)
}

/// How many items a round takes from a bucket of `len` items.
pub open spec fn batch_size(len: nat, batch_cap: nat) -> nat {
    if len <= batch_cap {
        len
    } else {
        batch_cap
    }
}

/// The items that a round takes from bucket `k`: its last ones, at most
/// `batch_cap`.
pub open spec fn selected<T>(m: Map<u32, Seq<T>>, k: u32, batch_cap: nat) -> Seq<T> {
    let n = batch_size(m[k].len(), batch_cap);
    m[k].subrange(m[k].len() - n, m[k].len() as int)
}

/// The buckets that are left when a round has taken its items from bucket
/// `k`: an emptied bucket is gone.
pub open spec fn after_select<T>(m: Map<u32, Seq<T>>, k: u32, batch_cap: nat) -> Map<u32, Seq<T>> {
    let n = batch_size(m[k].len(), batch_cap);
    if n == m[k].len() {
        m.remove(k)
    } else {
        m.insert(k, m[k].take(m[k].len() - n))
    }
}

/// `h` is the highest key of `m`, or 0 where `m` holds no bucket.
pub open spec fn is_top_key<T>(m: Map<u32, Seq<T>>, h: u32) -> bool {
    if no_bucket(m) {
        h == 0
    } else {
        m.contains_key(h) && forall|j: u32| m.contains_key(j) ==> j <= h
    }
}

/// The highest key of `m` below `n`, or 0 where there is none.
pub open spec fn top_below<T>(m: Map<u32, Seq<T>>, n: nat) -> u32
    decreases n,
{
    if n == 0 {
        0
    } else if m.contains_key((n - 1) as u32) {
        (n - 1) as u32
    } else {
        top_below(m, (n - 1) as nat)
    }
}

/// The highest key of `m`, or 0 where `m` holds no bucket.
pub open spec fn top_key<T>(m: Map<u32, Seq<T>>) -> u32 {
    top_below(m, 0x1_0000_0000)
}

/// `top_below` gives the highest key below `n`.
pub proof fn lemma_top_below<T>(m: Map<u32, Seq<T>>, n: nat)
    requires
        n <= 0x1_0000_0000,
    ensures
        forall|j: u32| j < n && m.contains_key(j) ==> j <= top_below(m, n),
        (exists|j: u32| j < n && m.contains_key(j)) ==> m.contains_key(top_below(m, n))
            && top_below(m, n) < n,
        !(exists|j: u32| j < n && m.contains_key(j)) ==> top_below(m, n) == 0,
    decreases n,
{
    if n > 0 {
        lemma_top_below(m, (n - 1) as nat);
        let k = (n - 1) as u32;
        if !m.contains_key(k) {
            if exists|j: u32| j < n && m.contains_key(j) {
                let j = choose|j: u32| j < n && m.contains_key(j);
                assert(j < n - 1 && m.contains_key(j));
            }
        } else {
            assert(k < n && m.contains_key(k));
        }
    }
}

/// Maps with the same keys have the same highest key.
pub proof fn lemma_top_agree<T, U>(m1: Map<u32, Seq<T>>, m2: Map<u32, Seq<U>>, n: nat)
    requires
        forall|k: u32| m1.contains_key(k) <==> m2.contains_key(k),
    ensures
        top_below(m1, n) == top_below(m2, n),
    decreases n,
{
    if n > 0 {
        lemma_top_agree(m1, m2, (n - 1) as nat);
    }
}

/// The free places of buckets that may hold `cap` items in all.
pub open spec fn room<T>(m: Map<u32, Seq<T>>, cap: nat) -> nat {
    if cap > population(m) {
        (cap - population(m)) as nat
    } else {
        0
    }
}

/// How many of `len` new items of key `q` the buckets `m` take in: into the
/// highest bucket as many as there are free places, into every other bucket
/// all of them.
pub open spec fn accepted<T>(m: Map<u32, Seq<T>>, q: u32, len: nat, cap: nat) -> nat {
    if q == top_key(m) && len > room(m, cap) {
        room(m, cap)
    } else {
        len
    }
}

/// The buckets `m` after the new items `items` of key `q` have asked for
/// admission: those accepted, the first of `items`, stand at the end of
/// bucket `q`.
pub open spec fn accept<T>(m: Map<u32, Seq<T>>, q: u32, items: Seq<T>, cap: nat) -> Map<
    u32,
    Seq<T>,
> {
    let n = accepted(m, q, items.len(), cap);
    if n == 0 {
        m
    } else {
        m.insert(
            q,
            (if m.contains_key(q) {
                m[q]
            } else {
                Seq::empty()
            }) + items.take(n as int),
        )
    }
}

/// The buckets `m` after the buckets of `c` with a key below `n` have asked
/// for admission, by ascending key.
pub open spec fn merged_below<T>(m: Map<u32, Seq<T>>, c: Map<u32, Seq<T>>, cap: nat, n: nat) -> Map<
    u32,
    Seq<T>,
>
    decreases n,
{
    if n == 0 {
        m
    } else {
        let prev = merged_below(m, c, cap, (n - 1) as nat);
        if c.contains_key((n - 1) as u32) {
            accept(prev, (n - 1) as u32, c[(n - 1) as u32], cap)
        } else {
            prev
        }
    }
}

/// The buckets `m` after all buckets of `c` have asked for admission, by
/// ascending key.
pub open spec fn merged<T>(m: Map<u32, Seq<T>>, c: Map<u32, Seq<T>>, cap: nat) -> Map<u32, Seq<T>> {
    merged_below(m, c, cap, 0x1_0000_0000)
}

/// Only one key is the highest.
pub proof fn lemma_top_key<T>(m: Map<u32, Seq<T>>, h: u32)
    requires
        is_top_key(m, h),
    ensures
        top_key(m) == h,
{
    lemma_top_below(m, 0x1_0000_0000);
    if !no_bucket(m) {
        assert(h < 0x1_0000_0000 && m.contains_key(h));
    } else {
        if exists|j: u32| j < 0x1_0000_0000 && m.contains_key(j) {
            let j = choose|j: u32| j < 0x1_0000_0000 && m.contains_key(j);
            assert(false);
        }
    }
}

/// An admission adds what it accepts.
pub proof fn lemma_accept_population<T>(m: Map<u32, Seq<T>>, q: u32, items: Seq<T>, cap: nat)
    ensures
        population(accept(m, q, items, cap)) == population(m) + accepted(m, q, items.len(), cap),
{
    let n = accepted(m, q, items.len(), cap);
    if n > 0 {
        let b = if m.contains_key(q) {
            m[q]
        } else {
            Seq::empty()
        };
        lemma_count_insert(m, q, b + items.take(n as int), 0x1_0000_0000);
    }
}

/// After an admission the buckets hold at most `cap` items just where they
/// did before and the new items went to the highest bucket or all found a
/// free place.
pub proof fn lemma_accept_capacity<T>(m: Map<u32, Seq<T>>, q: u32, items: Seq<T>, cap: nat)
    ensures
        population(accept(m, q, items, cap)) <= cap <==> population(m) <= cap && (q == top_key(m)
            || population(m) + items.len() <= cap),
{
    lemma_accept_population(m, q, items, cap);
}

/// Buckets of `c` without keys in `[a, b)` ask for nothing between `a` and
/// `b`.
pub proof fn lemma_merged_gap<T>(m: Map<u32, Seq<T>>, c: Map<u32, Seq<T>>, cap: nat, a: nat, b: nat)
    requires
        a <= b <= 0x1_0000_0000,
        forall|k: u32| a <= k < b ==> !c.contains_key(k),
    ensures
        merged_below(m, c, cap, b) == merged_below(m, c, cap, a),
    decreases b - a,
{
    if a < b {
        lemma_merged_gap(m, c, cap, a, (b - 1) as nat);
        assert(!c.contains_key((b - 1) as u32));
    }
}

/// The highest key after a bucket has been put at `q`.
pub proof fn lemma_top_key_insert<T>(m: Map<u32, Seq<T>>, q: u32, s: Seq<T>)
    ensures
        top_key(m.insert(q, s)) == if q > top_key(m) {
            q
        } else {
            top_key(m)
        },
{
    lemma_top_below(m, 0x1_0000_0000);
    let m2 = m.insert(q, s);
    let h = top_key(m);
    assert(q < 0x1_0000_0000 && m2.contains_key(q));
    if q > h {
        assert(is_top_key(m2, q)) by {
            assert forall|j: u32| m2.contains_key(j) implies j <= q by {
                if j != q {
                    assert(j < 0x1_0000_0000 && m.contains_key(j));
                }
            }
        }
        lemma_top_key(m2, q);
    } else {
        if exists|j: u32| j < 0x1_0000_0000 && m.contains_key(j) {
            assert(m2.contains_key(h));
        } else {
            assert(h == 0 && q == 0);
        }
        assert(is_top_key(m2, h)) by {
            assert forall|j: u32| m2.contains_key(j) implies j <= h by {
                if j != q {
                    assert(j < 0x1_0000_0000 && m.contains_key(j));
                }
            }
        }
        lemma_top_key(m2, h);
    }
}

/// The buckets `m` without the last item of bucket `k`: an emptied bucket is
/// gone.
pub open spec fn without_last<T>(m: Map<u32, Seq<T>>, k: u32) -> Map<u32, Seq<T>> {
    if !m.contains_key(k) {
        m
    } else if m[k].len() <= 1 {
        m.remove(k)
    } else {
        m.insert(k, m[k].drop_last())
    }
}

/// The items of the buckets with a key below `n`, by ascending key and
/// within a bucket in its order.
pub open spec fn flat_below<T>(m: Map<u32, Seq<T>>, n: nat) -> Seq<T>
    decreases n,
{
    if n == 0 {
        Seq::empty()
    } else {
        flat_below(m, (n - 1) as nat) + if m.contains_key((n - 1) as u32) {
            m[(n - 1) as u32]
        } else {
            Seq::empty()
        }
    }
}

/// All items of the buckets, by ascending key and within a bucket in its
/// order.
pub open spec fn flat<T>(m: Map<u32, Seq<T>>) -> Seq<T> {
    flat_below(m, 0x1_0000_0000)
}

/// Buckets without keys in `[a, b)` hold the same items below `a` and
/// below `b`.
pub proof fn lemma_flat_gap<T>(m: Map<u32, Seq<T>>, a: nat, b: nat)
    requires
        a <= b <= 0x1_0000_0000,
        forall|k: u32| a <= k < b ==> !m.contains_key(k),
    ensures
        flat_below(m, b) == flat_below(m, a),
    decreases b - a,
{
    if a < b {
        lemma_flat_gap(m, a, (b - 1) as nat);
        assert(!m.contains_key((b - 1) as u32));
        assert(flat_below(m, (b - 1) as nat) + Seq::<T>::empty() =~= flat_below(
            m,
            (b - 1) as nat,
        ));
    }
}

/// One more item in a bucket is one more item in all.
pub proof fn lemma_population_with(m: Map<u32, Seq<Seq<u32>>>, k: u32, fs: Seq<u32>)
    ensures
        population(with_sequence(m, k, fs)) == population(m) + 1,
{
    let b = if m.contains_key(k) {
        m[k]
    } else {
        Seq::empty()
    };
    lemma_count_insert(m, k, b.push(fs), 0x1_0000_0000);
}

/// Without the last item of a bucket that holds one there is one item less
/// in all.
pub proof fn lemma_population_without<T>(m: Map<u32, Seq<T>>, k: u32)
    ensures
        population(without_last(m, k)) + (if bucket_len(m, k) > 0 {
            1nat
        } else {
            0nat
        }) == population(m),
{
    if m.contains_key(k) {
        if m[k].len() <= 1 {
            lemma_count_remove(m, k, 0x1_0000_0000);
        } else {
            lemma_count_insert(m, k, m[k].drop_last(), 0x1_0000_0000);
        }
    }
}

/// An item in the place of another leaves the number of items as it is.
pub proof fn lemma_population_update<T>(m: Map<u32, Seq<T>>, k: u32, at: int, item: T)
    requires
        m.contains_key(k),
        0 <= at < m[k].len(),
    ensures
        population(m.insert(k, m[k].update(at, item))) == population(m),
{
    lemma_count_insert(m, k, m[k].update(at, item), 0x1_0000_0000);
}

/// The bucket of key `k`, empty where there is none.
pub open spec fn bucket_at<T>(m: Map<u32, Seq<T>>, k: u32) -> Seq<T> {
    if m.contains_key(k) {
        m[k]
    } else {
        Seq::empty()
    }
}

/// The buckets `m` with the items `items` at the end of bucket `k`; nothing
/// changes where there are no items.
pub open spec fn extended<T>(m: Map<u32, Seq<T>>, k: u32, items: Seq<T>) -> Map<u32, Seq<T>> {
    if items.len() == 0 {
        m
    } else {
        m.insert(k, bucket_at(m, k) + items)
    }
}

/// `c` is the key at which buckets that may hold `limit` items are cut: the
/// lowest key up to which the buckets hold `limit` items or more.
pub open spec fn is_cut_key<T>(m: Map<u32, Seq<T>>, limit: nat, c: u32) -> bool {
    &&& m.contains_key(c)
    &&& count_below(m, (c + 1) as nat) >= limit
    &&& forall|j: u32| j < c && m.contains_key(j) ==> count_below(m, (j + 1) as nat) < limit
}

/// The buckets of `m` with a key of at most `c`.
pub open spec fn lower_part<T>(m: Map<u32, Seq<T>>, c: u32) -> Map<u32, Seq<T>> {
    Map::new(|k: u32| m.contains_key(k) && k <= c, |k: u32| m[k])
}

/// The bucket of `c` at the key `k`, if there is one, goes to the highest
/// bucket of what was merged before it, or finds free places for all its
/// items.
pub open spec fn step_fits<T>(m: Map<u32, Seq<T>>, c: Map<u32, Seq<T>>, cap: nat, k: u32) -> bool {
    let before = merged_below(m, c, cap, k as nat);
    c.contains_key(k) ==> k == top_key(before) || population(before) + c[k].len() <= cap
}

/// After a merge the buckets hold at most `cap` items just where they did
/// before and every bucket that was merged went to the highest bucket or
/// found free places for all its items.
pub proof fn lemma_merged_capacity<T>(m: Map<u32, Seq<T>>, c: Map<u32, Seq<T>>, cap: nat, n: nat)
    requires
        n <= 0x1_0000_0000,
    ensures
        population(merged_below(m, c, cap, n)) >= population(m),
        population(merged_below(m, c, cap, n)) <= cap <==> population(m) <= cap && forall|k: u32|
            k < n ==> #[trigger] step_fits(m, c, cap, k),
    decreases n,
{
    if n > 0 {
        let k = (n - 1) as u32;
        let before = merged_below(m, c, cap, (n - 1) as nat);
        lemma_merged_capacity(m, c, cap, (n - 1) as nat);
        if c.contains_key(k) {
            lemma_accept_population(before, k, c[k], cap);
            lemma_accept_capacity(before, k, c[k], cap);
        }
        if population(merged_below(m, c, cap, n)) <= cap {
            assert forall|j: u32| j < n implies #[trigger] step_fits(m, c, cap, j) by {
                if j < n - 1 {
                } else {
                    assert(j == k);
                }
            }
        }
        if population(m) <= cap && forall|j: u32| j < n ==> #[trigger] step_fits(m, c, cap, j) {
            assert(step_fits(m, c, cap, k));
        }
    }
}

} // verus!
