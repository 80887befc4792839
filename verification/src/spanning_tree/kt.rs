//! Candidate-graph builder: a geometric ladder of radii, with repeated
//! independent LSH bucketing passes at each rung and a local exploration
//! of every bucket that records all near pairs found there.

use vstd::prelude::*;
use crate::points::{PointSet, dist2};
use crate::lsh::{bucket_total, lemma_bucket_total_nonneg, projection_lsh, WIDTH_LIMIT};
use crate::rng::Prng;
use super::Edge;

verus! {

/// One rung of the radius ladder: the LSH bucket width used at this
/// scale and the squared acceptance radius.
#[derive(Clone, Copy, Debug)]
pub struct Rung {
    pub width: u64,
    pub threshold2: u64,
}

/// The weight fits under the acceptance radius of some rung.
pub open spec fn under_some_rung(rungs: Seq<Rung>, w: u64) -> bool {
    exists|j: int| 0 <= j < rungs.len() && w <= (#[trigger] rungs[j]).threshold2
}

/// Whether exploring from `u` matches `v`: a distinct point within the
/// squared acceptance radius.
pub open spec fn is_match(points: &PointSet, threshold2: u64, u: usize, v: usize) -> bool {
    u != v && points.sq(u as int, v as int) <= threshold2
}

/// The candidate edge recorded for a matched pair.
pub open spec fn match_edge(points: &PointSet, u: usize, v: usize) -> Edge {
    Edge(u, v, points.sq(u as int, v as int) as u64)
}

/// Filtering keeps only elements of the original sequence, so bounds
/// survive it.
proof fn lemma_filter_bounded(s: Seq<usize>, pred: spec_fn(usize) -> bool, n: int)
    requires
        forall|t: int| 0 <= t < s.len() ==> (#[trigger] s[t]) < n,
    ensures
        forall|i: int| 0 <= i < s.filter(pred).len() ==> (#[trigger] s.filter(pred)[i]) < n,
    decreases s.len(),
{
    reveal(Seq::filter);
    if s.len() > 0 {
        let rest = s.drop_last();
        assert(forall|t: int| 0 <= t < rest.len() ==> (#[trigger] rest[t]) < n);
        lemma_filter_bounded(rest, pred, n);
        if pred(s.last()) {
            assert(s.filter(pred) == rest.filter(pred).push(s.last()));
            assert forall|i: int| 0 <= i < s.filter(pred).len() implies (
            #[trigger] s.filter(pred)[i]) < n by {
                if i < rest.filter(pred).len() {
                    assert(s.filter(pred)[i] == rest.filter(pred)[i]);
                } else {
                    assert(s.filter(pred)[i] == s.last());
                }
            }
        } else {
            assert(s.filter(pred) == rest.filter(pred));
        }
    }
}

/// Compares one explored point against the rest of its bucket: every
/// match leaves the bucket and is recorded as an edge at exactly the
/// pair's squared distance; every non-match is kept, in order.
pub fn scan_bucket(
    points: &PointSet,
    threshold2: u64,
    u: usize,
    rem: Vec<usize>,
    edges: &mut Vec<Edge>,
) -> (kept: Vec<usize>)
    requires
        points.wf(),
        u < points.spec_n(),
        forall|t: int| 0 <= t < rem@.len() ==> (#[trigger] rem@[t]) < points.spec_n(),
    ensures
        kept@ == rem@.filter(|v: usize| !is_match(points, threshold2, u, v)),
        final(edges)@ == old(edges)@ + rem@.filter(|v: usize| is_match(points, threshold2, u, v))
            .map_values(|v: usize| match_edge(points, u, v)),
        kept@.len() + final(edges)@.len() == rem@.len() + old(edges)@.len(),
{
    broadcast use vstd::seq_lib::group_filter_ensures;

    let ghost base = edges@;
    let ghost keep_p = |v: usize| !is_match(points, threshold2, u, v);
    let ghost match_p = |v: usize| is_match(points, threshold2, u, v);
    let ghost mk = |v: usize| match_edge(points, u, v);
    let mut kept: Vec<usize> = Vec::new();
    let mut t: usize = 0;
    proof {
        reveal_with_fuel(Seq::filter, 2);
        assert(rem@.take(0) =~= Seq::<usize>::empty());
        assert(Seq::<usize>::empty().filter(keep_p) =~= Seq::<usize>::empty());
        assert(Seq::<usize>::empty().filter(match_p) =~= Seq::<usize>::empty());
        assert(edges@ =~= base + Seq::<usize>::empty().map_values(mk));
    }
    while t < rem.len()
        invariant
            points.wf(),
            u < points.spec_n(),
            t <= rem@.len(),
            forall|t2: int| 0 <= t2 < rem@.len() ==> (#[trigger] rem@[t2]) < points.spec_n(),
            keep_p == (|v: usize| !is_match(points, threshold2, u, v)),
            match_p == (|v: usize| is_match(points, threshold2, u, v)),
            mk == (|v: usize| match_edge(points, u, v)),
            kept@ == rem@.take(t as int).filter(keep_p),
            edges@ == base + rem@.take(t as int).filter(match_p).map_values(mk),
            kept@.len() + edges@.len() == t + base.len(),
        decreases rem@.len() - t,
    {
        let v = rem[t];
        proof {
            points.lemma_sq_props(u as int, v as int);
            let s1 = rem@.take(t + 1);
            assert(s1.drop_last() =~= rem@.take(t as int));
            assert(s1.last() == v);
            assert(s1.len() == t + 1);
            reveal_with_fuel(Seq::filter, 2);
            assert(s1.filter(match_p) == if match_p(v) {
                s1.drop_last().filter(match_p).push(v)
            } else {
                s1.drop_last().filter(match_p)
            });
            assert(s1.filter(keep_p) == if keep_p(v) {
                s1.drop_last().filter(keep_p).push(v)
            } else {
                s1.drop_last().filter(keep_p)
            });
        }
        if u != v && dist2(points, u, v) <= threshold2 {
            edges.push(Edge(u, v, dist2(points, u, v)));
            proof {
                assert(match_p(v) && !keep_p(v));
                assert(rem@.take(t + 1).filter(match_p) =~= rem@.take(t as int).filter(
                    match_p,
                ).push(v));
                assert(rem@.take(t + 1).filter(keep_p) =~= rem@.take(t as int).filter(keep_p));
                assert(mk(v) == Edge(u, v, points.sq(u as int, v as int) as u64));
                assert(edges@ =~= base + rem@.take(t + 1).filter(match_p).map_values(mk));
            }
        } else {
            kept.push(v);
            proof {
                assert(keep_p(v) && !match_p(v));
                assert(rem@.take(t + 1).filter(keep_p) =~= rem@.take(t as int).filter(
                    keep_p,
                ).push(v));
                assert(rem@.take(t + 1).filter(match_p) =~= rem@.take(t as int).filter(match_p));
            }
        }
        t += 1;
    }
    proof {
        assert(rem@.take(rem@.len() as int) =~= rem@);
    }
    kept
}

/// A recorded candidate edge joins two distinct points and carries
/// exactly their squared distance.
pub open spec fn edge_ok(points: &PointSet, e: Edge) -> bool {
    &&& e.0 < points.spec_n()
    &&& e.1 < points.spec_n()
    &&& e.0 != e.1
    &&& e.2 == points.sq(e.0 as int, e.1 as int)
}

/// One bucketing pass at one scale: explores every bucket, records an
/// edge for each near pair found, and removes matched points from
/// further comparison at this scale.
fn local_bfs(
    points: &PointSet,
    width: u64,
    threshold2: u64,
    k: usize,
    rng: &mut Prng,
    edges: &mut Vec<Edge>,
)
    requires
        points.wf(),
        1 <= width <= WIDTH_LIMIT,
    ensures
        final(edges)@.len() >= old(edges)@.len(),
        points.spec_n() >= 1 ==> final(edges)@.len() <= old(edges)@.len() + points.spec_n() - 1,
        forall|t: int| 0 <= t < old(edges)@.len() ==> final(edges)@[t] == old(edges)@[t],
        forall|t: int|
            old(edges)@.len() <= t < final(edges)@.len() ==> edge_ok(
                points,
                #[trigger] final(edges)@[t],
            ) && final(edges)@[t].2 <= threshold2,
{
    let ghost base = edges@;
    let mut buckets = projection_lsh(points, k, width, rng);
    let ghost total0 = bucket_total(buckets@);
    let ghost cnt0 = buckets@.len() as int;
    proof {
        if points.spec_n() >= 1 && cnt0 == 0 {
            assert(bucket_total(buckets@) == 0);
            assert(false);
        }
    }
    while buckets.len() > 0
        invariant
            points.wf(),
            edges@.len() >= base.len(),
            total0 == points.spec_n(),
            buckets@.len() <= cnt0,
            edges@.len() - base.len() + (cnt0 - buckets@.len()) <= total0 - bucket_total(
                buckets@,
            ),
            forall|t: int| 0 <= t < base.len() ==> edges@[t] == base[t],
            forall|t: int|
                base.len() <= t < edges@.len() ==> edge_ok(points, #[trigger] edges@[t])
                    && edges@[t].2 <= threshold2,
            forall|b: int, t: int|
                0 <= b < buckets@.len() && 0 <= t < buckets@[b]@.len() ==> (
                #[trigger] buckets@[b]@[t]) < points.spec_n(),
            forall|b: int| 0 <= b < buckets@.len() ==> (#[trigger] buckets@[b]@).len() >= 1,
        decreases buckets@.len(),
    {
        let ghost pre_buckets = buckets@;
        let mut rem = buckets.pop().unwrap();
        let ghost e0 = edges@.len() as int;
        let ghost b0 = rem@.len() as int;
        proof {
            assert(buckets@ =~= pre_buckets.drop_last());
            assert(bucket_total(pre_buckets) == bucket_total(buckets@) + b0);
            assert(b0 >= 1);
        }
        while rem.len() > 0
            invariant
                points.wf(),
                edges@.len() >= base.len(),
                edges@.len() + rem@.len() <= e0 + b0,
                rem@.len() < b0 ==> edges@.len() + rem@.len() <= e0 + b0 - 1,
                b0 >= 1,
                e0 >= base.len(),
                forall|t: int| 0 <= t < base.len() ==> edges@[t] == base[t],
                forall|t: int|
                    base.len() <= t < edges@.len() ==> edge_ok(points, #[trigger] edges@[t])
                        && edges@[t].2 <= threshold2,
                forall|t: int| 0 <= t < rem@.len() ==> (#[trigger] rem@[t]) < points.spec_n(),
            decreases rem@.len(),
        {
            let ghost rem0 = rem@;
            let ghost e_in = edges@.len() as int;
            let ghost pre_edges = edges@;
            let u = rem.pop().unwrap();
            let ghost rem1 = rem@;
            let kept = scan_bucket(points, threshold2, u, rem, edges);
            proof {
                broadcast use vstd::seq_lib::group_filter_ensures;

                let match_p = |v: usize| is_match(points, threshold2, u, v);
                let keep_p = |v: usize| !is_match(points, threshold2, u, v);
                let mk = |v: usize| match_edge(points, u, v);
                let fm = rem1.filter(match_p);
                assert(kept@ == rem1.filter(keep_p));
                assert(edges@ == pre_edges + fm.map_values(mk));
                assert(fm.map_values(mk).len() == fm.len());
                assert(edges@.len() == pre_edges.len() + fm.len());
                assert forall|t2: int|
                    base.len() <= t2 < edges@.len() implies edge_ok(points, #[trigger] edges@[t2])
                    && edges@[t2].2 <= threshold2 by {
                    if t2 >= pre_edges.len() {
                        let ix = t2 - pre_edges.len();
                        assert(edges@[t2] == fm.map_values(mk)[ix]);
                        assert(fm.map_values(mk)[ix] == mk(fm[ix]));
                        rem1.lemma_filter_pred(match_p, ix);
                        assert(match_p(fm[ix]));
                        lemma_filter_bounded(rem1, match_p, points.spec_n());
                        assert(fm[ix] < points.spec_n());
                        points.lemma_sq_props(u as int, fm[ix] as int);
                    } else {
                        assert(edges@[t2] == pre_edges[t2]);
                    }
                }
                assert(kept@.len() <= rem1.len());
                assert(kept@.len() < rem0.len());
                assert(edges@.len() + kept@.len() == e_in + rem0.len() - 1);
                lemma_filter_bounded(rem1, keep_p, points.spec_n());
                assert(forall|t2: int|
                    0 <= t2 < kept@.len() ==> (#[trigger] kept@[t2]) < points.spec_n());
            }
            rem = kept;
        }
        proof {
            assert(edges@.len() <= e0 + b0 - 1);
            lemma_bucket_total_nonneg(buckets@);
        }
    }
    proof {
        assert(bucket_total(buckets@) == 0);
        if points.spec_n() >= 1 {
            assert(cnt0 >= 1);
            assert(edges@.len() - base.len() <= total0 - cnt0);
        }
    }
}

/// Repeats the bucketing pass at one scale to amplify the collision
/// probability of near pairs.
fn iter_local_bfs(
    points: &PointSet,
    width: u64,
    threshold2: u64,
    k: usize,
    passes: usize,
    rng: &mut Prng,
    edges: &mut Vec<Edge>,
)
    requires
        points.wf(),
        1 <= width <= WIDTH_LIMIT,
    ensures
        final(edges)@.len() >= old(edges)@.len(),
        forall|t: int| 0 <= t < old(edges)@.len() ==> final(edges)@[t] == old(edges)@[t],
        forall|t: int|
            old(edges)@.len() <= t < final(edges)@.len() ==> edge_ok(
                points,
                #[trigger] final(edges)@[t],
            ) && final(edges)@[t].2 <= threshold2,
{
    let ghost base = edges@;
    let mut p: usize = 0;
    while p < passes
        invariant
            points.wf(),
            1 <= width <= WIDTH_LIMIT,
            edges@.len() >= base.len(),
            forall|t: int| 0 <= t < base.len() ==> edges@[t] == base[t],
            forall|t: int|
                base.len() <= t < edges@.len() ==> edge_ok(points, #[trigger] edges@[t])
                    && edges@[t].2 <= threshold2,
        decreases passes - p,
    {
        local_bfs(points, width, threshold2, k, rng, edges);
        p += 1;
    }
}

/// Walks the whole radius ladder: at each rung the bucketing pass runs
/// `passes` times, and every near pair found is recorded. Every emitted
/// edge joins two distinct points at exactly their squared distance,
/// within the acceptance radius of some rung.
pub fn gamma_kt(
    points: &PointSet,
    rungs: &Vec<Rung>,
    k: usize,
    passes: usize,
    rng: &mut Prng,
) -> (r: Vec<Edge>)
    requires
        points.wf(),
        forall|j: int|
            0 <= j < rungs@.len() ==> 1 <= (#[trigger] rungs@[j]).width <= WIDTH_LIMIT,
    ensures
        forall|t: int| 0 <= t < r@.len() ==> edge_ok(points, #[trigger] r@[t]),
        forall|t: int| 0 <= t < r@.len() ==> under_some_rung(rungs@, (#[trigger] r@[t]).2),
{
    let mut edges: Vec<Edge> = Vec::new();
    let mut ri: usize = 0;
    while ri < rungs.len()
        invariant
            points.wf(),
            ri <= rungs@.len(),
            forall|j: int|
                0 <= j < rungs@.len() ==> 1 <= (#[trigger] rungs@[j]).width <= WIDTH_LIMIT,
            forall|t: int| 0 <= t < edges@.len() ==> edge_ok(points, #[trigger] edges@[t]),
            forall|t: int|
                0 <= t < edges@.len() ==> under_some_rung(rungs@, (#[trigger] edges@[t]).2),
        decreases rungs@.len() - ri,
    {
        let rung = rungs[ri];
        let ghost before_len = edges@.len();
        iter_local_bfs(points, rung.width, rung.threshold2, k, passes, rng, &mut edges);
        proof {
            assert forall|t: int| 0 <= t < edges@.len() implies under_some_rung(
                rungs@,
                (#[trigger] edges@[t]).2,
            ) by {
                if t >= before_len {
                    assert(edges@[t].2 <= rungs@[ri as int].threshold2);
                }
            }
        }
        ri += 1;
    }
    edges
}

} // verus!
