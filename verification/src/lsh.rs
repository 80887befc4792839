//! Locality-sensitive bucketing by random projections.
//!
//! Each point gets `k` integer hash coordinates: a random projection,
//! plus a random shift, divided by the bucket width. Points are grouped
//! by a hash of that coordinate vector; points that are close agree on
//! every coordinate with good probability, far points rarely do.

use vstd::prelude::*;
use crate::points::PointSet;
use crate::rng::Prng;

verus! {

/// Largest accepted bucket width, so that shifted projections stay in
/// range.
pub const WIDTH_LIMIT: u64 = 288230376151711744;

/// The 64-bit hash that `fxhash` assigns to a word sequence.
pub uninterp spec fn fx_of(s: Seq<u64>) -> u64;

/// Relies on fxhash::hash64: the hash is a function of the hashed words
/// alone, stable across calls and processes.
#[verifier::external_body]
fn fx_hash(v: &Vec<u64>) -> (r: u64)
    ensures
        r == fx_of(v@),
{
    fxhash::hash64(v)
}

/// Total number of ids across all buckets.
pub open spec fn bucket_total(bs: Seq<Vec<usize>>) -> int
    decreases bs.len(),
{
    if bs.len() == 0 {
        0
    } else {
        bucket_total(bs.drop_last()) + bs.last()@.len()
    }
}

/// The total is a sum of lengths, so it is never negative.
pub proof fn lemma_bucket_total_nonneg(bs: Seq<Vec<usize>>)
    ensures
        bucket_total(bs) >= 0,
    decreases bs.len(),
{
    if bs.len() > 0 {
        lemma_bucket_total_nonneg(bs.drop_last());
    }
}

/// Some bucket holds the id.
pub open spec fn in_buckets(bs: Seq<Vec<usize>>, id: usize) -> bool {
    exists|b: int, u: int|
        0 <= b < bs.len() && 0 <= u < bs[b]@.len() && (#[trigger] bs[b]@[u]) == id
}

/// Keys never decrease along the sequence.
pub open spec fn sorted_by_key(ps: Seq<(u64, usize)>) -> bool {
    forall|a: int, b: int| 0 <= a <= b < ps.len() ==> (#[trigger] ps[a]).0 <= (#[trigger] ps[b]).0
}

/// Sorts hash/id pairs ascending by hash, keeping the multiset of pairs.
fn sort_pairs(pairs: Vec<(u64, usize)>) -> (r: Vec<(u64, usize)>)
    ensures
        sorted_by_key(r@),
        r@.to_multiset() == pairs@.to_multiset(),
        r@.len() == pairs@.len(),
{
    broadcast use vstd::seq_lib::group_to_multiset_ensures;
    broadcast use vstd::seq_lib::to_multiset_insert;
    broadcast use vstd::multiset::group_multiset_axioms;

    let mut v = pairs;
    let ghost orig = v@;
    if v.len() <= 1 {
        return v;
    }
    let mut idx: usize = 1;
    while idx < v.len()
        invariant
            1 <= idx <= v@.len(),
            v@.len() == orig.len(),
            v@.to_multiset() == orig.to_multiset(),
            sorted_by_key(v@.take(idx as int)),
        decreases v@.len() - idx,
    {
        let e = v[idx];
        let mut j = idx;
        while j > 0 && v[j - 1].0 > e.0
            invariant
                j <= idx < v@.len(),
                e == v@[idx as int],
                sorted_by_key(v@.take(idx as int)),
                forall|t: int| j <= t < idx ==> (#[trigger] v@[t]).0 > e.0,
            decreases j,
        {
            j -= 1;
        }
        let ghost before = v@;
        let removed = v.remove(idx);
        v.insert(j, removed);
        proof {
            before.to_multiset_ensures();
            assert(before[idx as int] == e);
            assert(before.contains(e));
            vstd::seq_lib::to_multiset_insert(before.remove(idx as int), j as int, e);
            assert(v@.to_multiset() =~= before.to_multiset());
            assert forall|a: int, b: int|
                0 <= a <= b < idx + 1 implies (#[trigger] v@.take(idx + 1)[a]).0 <= (
            #[trigger] v@.take(idx + 1)[b]).0 by {
                assert(forall|t: int|
                    0 <= t < j ==> v@[t] == before[t] && before[t] == before.take(idx as int)[t]);
                assert(v@[j as int] == e);
                assert(forall|t: int| j < t <= idx ==> v@[t] == before[t - 1]);
                if j > 0 {
                    assert(before[j - 1].0 <= e.0);
                }
            }
        }
        idx += 1;
    }
    proof {
        assert(v@.take(v@.len() as int) =~= v@);
    }
    v
}

/// Whether two code vectors agree on every coordinate.
fn codes_equal(a: &Vec<u64>, b: &Vec<u64>) -> (r: bool)
    ensures
        r <==> a@ == b@,
{
    if a.len() != b.len() {
        proof {
            assert(a@ != b@);
        }
        return false;
    }
    let mut t: usize = 0;
    while t < a.len()
        invariant
            t <= a@.len(),
            a@.len() == b@.len(),
            forall|x: int| 0 <= x < t ==> a@[x] == b@[x],
        decreases a@.len() - t,
    {
        if a[t] != b[t] {
            proof {
                assert(a@[t as int] != b@[t as int]);
            }
            return false;
        }
        t += 1;
    }
    proof {
        assert(a@ =~= b@);
    }
    true
}

/// One bucketing pass: groups the points of `points` by a `k`-coordinate
/// locality-sensitive hash with the given bucket width. Every id in the
/// output indexes a point, and every bucket is non-empty.
pub fn projection_lsh(points: &PointSet, k: usize, width: u64, rng: &mut Prng) -> (r: Vec<
    Vec<usize>,
>)
    requires
        points.wf(),
        1 <= width <= WIDTH_LIMIT,
    ensures
        forall|b: int, t: int|
            0 <= b < r@.len() && 0 <= t < r@[b]@.len() ==> (#[trigger] r@[b]@[t])
                < points.spec_n(),
        forall|b: int| 0 <= b < r@.len() ==> (#[trigger] r@[b]@).len() >= 1,
        bucket_total(r@) == points.spec_n(),
        forall|id: int| 0 <= id < points.spec_n() ==> #[trigger] in_buckets(r@, id as usize),
{
    let n = points.len();
    let d = points.dim();
    // random projection directions, one gaussian entry per coordinate
    let mut proj: Vec<Vec<i64>> = Vec::new();
    let mut jj: usize = 0;
    while jj < k
        invariant
            proj@.len() == jj,
            jj <= k,
            forall|a: int, b: int|
                0 <= a < jj && 0 <= b < proj@[a]@.len() ==> -524288 < (#[trigger] proj@[a]@[b])
                    < 524288,
            forall|a: int| 0 <= a < jj ==> (#[trigger] proj@[a]@).len() == d,
        decreases k - jj,
    {
        let mut col: Vec<i64> = Vec::new();
        let mut t: usize = 0;
        while t < d
            invariant
                col@.len() == t,
                t <= d,
                forall|b: int| 0 <= b < t ==> -524288 < (#[trigger] col@[b]) < 524288,
            decreases d - t,
        {
            col.push(rng.gauss());
            t += 1;
        }
        proj.push(col);
        jj += 1;
    }
    // random shifts within one bucket width
    let mut shifts: Vec<u64> = Vec::new();
    let mut jj2: usize = 0;
    while jj2 < k
        invariant
            shifts@.len() == jj2,
            jj2 <= k,
            width >= 1,
            forall|a: int| 0 <= a < jj2 ==> (#[trigger] shifts@[a]) < width,
        decreases k - jj2,
    {
        shifts.push(rng.below(width));
        jj2 += 1;
    }
    // hash every point, keeping its code vector
    let mut pairs: Vec<(u64, usize)> = Vec::new();
    let mut codes: Vec<Vec<u64>> = Vec::new();
    let mut i: usize = 0;
    while i < n
        invariant
            points.wf(),
            n == points.spec_n(),
            d == points.spec_d(),
            d <= 262144,
            1 <= width <= WIDTH_LIMIT,
            i <= n,
            pairs@.len() == i,
            codes@.len() == i,
            proj@.len() == k,
            shifts@.len() == k,
            forall|a: int, b: int|
                0 <= a < k && 0 <= b < proj@[a]@.len() ==> -524288 < (#[trigger] proj@[a]@[b])
                    < 524288,
            forall|a: int| 0 <= a < k ==> (#[trigger] proj@[a]@).len() == d,
            forall|a: int| 0 <= a < k ==> (#[trigger] shifts@[a]) < width,
            forall|t: int| 0 <= t < i ==> (#[trigger] pairs@[t]).1 == t,
        decreases n - i,
    {
        let mut code: Vec<u64> = Vec::new();
        let mut jj3: usize = 0;
        while jj3 < k
            invariant
                points.wf(),
                n == points.spec_n(),
                d == points.spec_d(),
                i < n,
                1 <= width <= WIDTH_LIMIT,
                jj3 <= k,
                d <= 262144,
                code@.len() == jj3,
                proj@.len() == k,
                shifts@.len() == k,
                forall|a: int, b: int|
                    0 <= a < k && 0 <= b < proj@[a]@.len() ==> -524288 < (
                    #[trigger] proj@[a]@[b]) < 524288,
                forall|a: int| 0 <= a < k ==> (#[trigger] proj@[a]@).len() == d,
                forall|a: int| 0 <= a < k ==> (#[trigger] shifts@[a]) < width,
            decreases k - jj3,
        {
            let mut acc: i64 = 0;
            let mut t: usize = 0;
            while t < d
                invariant
                    points.wf(),
                    n == points.spec_n(),
                    d == points.spec_d(),
                    i < n,
                    jj3 < k,
                    t <= d,
                    d <= 262144,
                    proj@.len() == k,
                    forall|a: int, b: int|
                        0 <= a < k && 0 <= b < proj@[a]@.len() ==> -524288 < (
                        #[trigger] proj@[a]@[b]) < 524288,
                    forall|a: int| 0 <= a < k ==> (#[trigger] proj@[a]@).len() == d,
                    -549755813888 * t <= acc <= 549755813888 * t,
                decreases d - t,
            {
                let c = points.coord(i, t);
                let g = proj[jj3][t];
                proof {
                    assert(-549755813888 <= c * g <= 549755813888) by (nonlinear_arith)
                        requires
                            -1048576 <= c <= 1048576,
                            -524288 < g < 524288,
                    ;
                    assert(549755813888 * (t + 1) == 549755813888 * t + 549755813888)
                        by (nonlinear_arith);
                    assert(-549755813888 * (t + 1) == -549755813888 * t - 549755813888)
                        by (nonlinear_arith);
                    assert(549755813888 * t <= 549755813888 * 262144) by (nonlinear_arith)
                        requires
                            0 <= t <= 262144,
                    ;
                    assert(-549755813888 * t >= -549755813888 * 262144) by (nonlinear_arith)
                        requires
                            0 <= t <= 262144,
                    ;
                }
                acc = acc + c * g;
                t += 1;
            }
            proof {
                assert(549755813888 * d <= 144115188075855872) by (nonlinear_arith)
                    requires
                        0 <= d as int <= 262144,
                ;
                assert(-549755813888 * d >= -144115188075855872) by (nonlinear_arith)
                    requires
                        0 <= d as int <= 262144,
                ;
            }
            // recenter so the shifted value is non-negative, then cut
            // into cells of one bucket width
            let cell = (((acc + 288230376151711744i64) as u64) + shifts[jj3]) / width;
            code.push(cell);
            jj3 += 1;
        }
        let h = fx_hash(&code);
        pairs.push((h, i));
        codes.push(code);
        i += 1;
    }
    // group equal code vectors; sorting by hash makes them adjacent
    let sorted = sort_pairs(pairs);
    proof {
        broadcast use vstd::seq_lib::group_to_multiset_ensures;
        broadcast use vstd::multiset::group_multiset_axioms;

        sorted@.to_multiset_ensures();
        pairs@.to_multiset_ensures();
        assert forall|t: int| 0 <= t < sorted@.len() implies (#[trigger] sorted@[t]).1 < n by {
            assert(sorted@.contains(sorted@[t]));
            assert(sorted@.to_multiset().contains(sorted@[t]));
            assert(pairs@.contains(sorted@[t]));
            let kk = choose|kk: int| 0 <= kk < pairs@.len() && pairs@[kk] == sorted@[t];
            assert(pairs@[kk].1 == kk);
        }
    }
    let mut buckets: Vec<Vec<usize>> = Vec::new();
    let mut t2: usize = 0;
    while t2 < sorted.len()
        invariant
            t2 <= sorted@.len(),
            sorted@.len() == n,
            bucket_total(buckets@) == t2,
            n == points.spec_n(),
            forall|a: int| 0 <= a < sorted@.len() ==> (#[trigger] sorted@[a]).1 < n,
            sorted_by_key(sorted@),
            forall|b: int, u: int|
                0 <= b < buckets@.len() && 0 <= u < buckets@[b]@.len() ==> (
                #[trigger] buckets@[b]@[u]) < n,
            forall|b: int| 0 <= b < buckets@.len() ==> (#[trigger] buckets@[b]@).len() >= 1,
            forall|idx: int|
                0 <= idx < t2 ==> in_buckets(buckets@, (#[trigger] sorted@[idx]).1),
            codes@.len() == n,
        decreases sorted@.len() - t2,
    {
        let h = sorted[t2].0;
        let first = sorted[t2].1;
        let mut group: Vec<usize> = Vec::new();
        group.push(first);
        let mut t3: usize = t2 + 1;
        while t3 < sorted.len() && sorted[t3].0 == h && codes_equal(
            &codes[first],
            &codes[sorted[t3].1],
        )
            invariant
                t2 < t3 <= sorted@.len(),
                n == points.spec_n(),
                forall|a: int| 0 <= a < sorted@.len() ==> (#[trigger] sorted@[a]).1 < n,
                group@.len() == t3 - t2,
                first < n,
                codes@.len() == n,
                forall|u: int| 0 <= u < group@.len() ==> (#[trigger] group@[u]) < n,
                forall|u: int| 0 <= u < group@.len() ==> (#[trigger] group@[u]) == sorted@[
                    t2 + u].1,
            decreases sorted@.len() - t3,
        {
            group.push(sorted[t3].1);
            t3 += 1;
        }
        let ghost before = buckets@;
        buckets.push(group);
        proof {
            assert(buckets@.drop_last() =~= before);
            assert(buckets@.last() == group);
            assert(bucket_total(buckets@) == bucket_total(before) + group@.len());
            assert forall|idx: int| 0 <= idx < t3 implies in_buckets(
                buckets@,
                (#[trigger] sorted@[idx]).1,
            ) by {
                if idx < t2 {
                    assert(in_buckets(before, sorted@[idx].1));
                    let (b, u) = choose|b: int, u: int|
                        0 <= b < before.len() && 0 <= u < before[b]@.len() && (
                        #[trigger] before[b]@[u]) == sorted@[idx].1;
                    assert(buckets@[b]@[u] == sorted@[idx].1);
                } else {
                    assert(buckets@[buckets@.len() - 1]@[idx - t2] == sorted@[idx].1);
                }
            }
        }
        t2 = t3;
    }
    proof {
        broadcast use vstd::seq_lib::group_to_multiset_ensures;
        broadcast use vstd::multiset::group_multiset_axioms;

        assert forall|id: int| 0 <= id < n implies #[trigger] in_buckets(
            buckets@,
            id as usize,
        ) by {
            pairs@.to_multiset_ensures();
            sorted@.to_multiset_ensures();
            assert(pairs@[id].1 == id);
            assert(pairs@.contains(pairs@[id]));
            assert(pairs@.to_multiset().contains(pairs@[id]));
            assert(sorted@.to_multiset().contains(pairs@[id]));
            assert(sorted@.contains(pairs@[id]));
            let idx = choose|idx: int| 0 <= idx < sorted@.len() && sorted@[idx] == pairs@[id];
            assert(in_buckets(buckets@, sorted@[idx].1));
        }
    }
    buckets
}

} // verus!
