//! Approximate farthest neighbor: random-projection sketches that answer
//! farthest-point queries from a capped pool of extreme candidates, and
//! a deterministic two-hop diameter estimate.

use vstd::prelude::*;
use crate::points::{PointSet, dist2, lemma_sqdist_double_triangle};
use crate::rng::{gauss_val, lemma_state_after_add, state_after, Prng};

verus! {

/// Largest magnitude of a projected coordinate.
pub const PROJ_LIMIT: i64 = 144115188075855872;

/// A projected value within bounds.
pub open spec fn proj_bounded(v: i64) -> bool {
    -PROJ_LIMIT <= v <= PROJ_LIMIT
}

/// An axis candidate list: at most `m` entries sorted by descending
/// projected value, each naming a point of the set.
pub open spec fn bucket_wf(b: Seq<(i64, usize)>, n: int, m: int) -> bool {
    &&& b.len() <= m
    &&& forall|a: int, c: int| 0 <= a <= c < b.len() ==> (#[trigger] b[a]).0 >= (#[trigger] b[c]).0
    &&& forall|t: int| 0 <= t < b.len() ==> (#[trigger] b[t]).1 < n
    &&& forall|t: int| 0 <= t < b.len() ==> proj_bounded((#[trigger] b[t]).0)
    &&& forall|a: int, c: int|
        0 <= a < c < b.len() ==> (#[trigger] b[a]).1 != (#[trigger] b[c]).1
}

/// Whether a candidate list names the point `id`.
pub open spec fn list_has_id(b: Seq<(i64, usize)>, id: int) -> bool {
    exists|t: int| 0 <= t < b.len() && (#[trigger] b[t]).1 == id
}

/// The dot product of two equal-length rows.
pub open spec fn sdot(p: Seq<i64>, g: Seq<i64>) -> int
    decreases p.len(),
{
    if p.len() == 0 {
        0
    } else {
        sdot(p.drop_last(), g.drop_last()) + p.last() * g.last()
    }
}

/// The direction-matrix entry for axis `a`, coordinate `t`: the
/// gaussian value drawn after `12 * (a * d + t)` prior word draws.
pub open spec fn drawn_dir(s0: u64, d: int, a: int, t: int) -> int {
    gauss_val(state_after(s0, (12 * (a * d + t)) as nat))
}

/// The floor of the base-two logarithm; zero below two.
pub open spec fn floor_log2(n: int) -> int
    decreases n,
{
    if n <= 1 {
        0
    } else {
        1 + floor_log2(n / 2)
    }
}

/// The ceiling of the base-two logarithm; zero below two.
pub open spec fn ceil_log2(n: int) -> int {
    if n <= 1 {
        0
    } else {
        floor_log2(n - 1) + 1
    }
}

/// The floor logarithm is non-negative, steps down by one per halving,
/// and stays below the word size for any machine-sized count.
proof fn lemma_floor_log2_step(n: int)
    requires
        n >= 2,
    ensures
        floor_log2(n) == 1 + floor_log2(n / 2),
        floor_log2(n / 2) >= 0,
{
    lemma_floor_log2_nonneg(n / 2);
}

proof fn lemma_floor_log2_nonneg(n: int)
    ensures
        floor_log2(n) >= 0,
    decreases n,
{
    if n > 1 {
        lemma_floor_log2_nonneg(n / 2);
    }
}

/// Anything below `2^k` has floor logarithm at most `k`.
proof fn lemma_floor_log2_le(n: int, k: nat)
    requires
        0 <= n,
        n < crate::rmq::pow2(k),
    ensures
        floor_log2(n) <= k,
    decreases n,
{
    if n > 1 {
        if k == 0 {
            assert(crate::rmq::pow2(0) == 1);
            assert(false);
        }
        assert(crate::rmq::pow2(k) == 2 * crate::rmq::pow2((k - 1) as nat));
        lemma_floor_log2_le(n / 2, (k - 1) as nat);
    }
}

/// The random-projection sketch: one row of `l` projected coordinates
/// per point, and the candidate-pool cap `m`.
pub struct ApproxFarthestNeighbor {
    projections: Vec<Vec<i64>>,
    m: usize,
    l: usize,
}

impl ApproxFarthestNeighbor {
    /// Projected rows.
    pub closed spec fn rows(&self) -> Seq<Seq<i64>> {
        Seq::new(self.projections@.len() as nat, |i: int| self.projections@[i]@)
    }

    /// Number of projection axes.
    pub closed spec fn spec_l(&self) -> int {
        self.l as int
    }

    /// Candidate-pool cap.
    pub closed spec fn spec_m(&self) -> int {
        self.m as int
    }

    /// One bounded projected row per point.
    pub open spec fn wf(&self, points: &PointSet) -> bool {
        &&& self.rows().len() == points.spec_n()
        &&& self.spec_m() >= 1
        &&& forall|i: int| 0 <= i < self.rows().len() ==> (#[trigger] self.rows()[i]).len()
            == self.spec_l()
        &&& forall|i: int, a: int|
            0 <= i < self.rows().len() && 0 <= a < self.spec_l() ==> proj_bounded(
                #[trigger] self.rows()[i][a],
            )
    }

    /// Projects every point onto `l` random gaussian directions; the
    /// candidate-pool cap is twenty entries per doubling of the set.
    pub fn new(points: &PointSet, l: usize, rng: &mut Prng) -> (r: ApproxFarthestNeighbor)
        requires
            points.wf(),
            points.spec_n() >= 1,
        ensures
            r.wf(points),
            r.spec_l() == l,
            r.spec_m() == 20 * (ceil_log2(points.spec_n()) + 1),
            exists|dirs: Seq<Seq<i64>>|
                {
                    &&& dirs.len() == l
                    &&& forall|a: int| 0 <= a < l ==> (#[trigger] dirs[a]).len() == points.spec_d()
                    &&& forall|a: int, t: int|
                        0 <= a < l && 0 <= t < points.spec_d() ==> #[trigger] dirs[a][t]
                            == drawn_dir(old(rng).spec_state(), points.spec_d(), a, t)
                    &&& forall|i: int, a: int|
                        0 <= i < points.spec_n() && 0 <= a < l ==> #[trigger] r.rows()[i][a]
                            == sdot(points.row(i), dirs[a])
                },
    {
        let n = points.len();
        let d = points.dim();
        let ghost s0 = rng.spec_state();
        // gaussian directions, one per axis
        let mut dirs: Vec<Vec<i64>> = Vec::new();
        let mut a: usize = 0;
        while a < l
            invariant
                dirs@.len() == a,
                a <= l,
                rng.spec_state() == state_after(s0, (12 * (a as int * d as int)) as nat),
                forall|x: int, y: int|
                    0 <= x < a && 0 <= y < dirs@[x]@.len() ==> -524288 < (
                    #[trigger] dirs@[x]@[y]) < 524288,
                forall|x: int| 0 <= x < a ==> (#[trigger] dirs@[x]@).len() == d,
                forall|x: int, y: int|
                    0 <= x < a && 0 <= y < d ==> (#[trigger] dirs@[x]@[y]) == drawn_dir(
                        s0,
                        d as int,
                        x,
                        y,
                    ),
            decreases l - a,
        {
            let mut col: Vec<i64> = Vec::new();
            let mut t: usize = 0;
            while t < d
                invariant
                    col@.len() == t,
                    t <= d,
                    a < l,
                    rng.spec_state() == state_after(
                        s0,
                        (12 * (a as int * d as int + t as int)) as nat,
                    ),
                    forall|y: int| 0 <= y < t ==> -524288 < (#[trigger] col@[y]) < 524288,
                    forall|y: int|
                        0 <= y < t ==> (#[trigger] col@[y]) == drawn_dir(s0, d as int, a as int, y),
                decreases d - t,
            {
                let ghost steps = (12 * (a as int * d as int + t as int)) as nat;
                col.push(rng.gauss());
                proof {
                    lemma_state_after_add(s0, steps, 12);
                    assert(12 * (a as int * d as int + t as int) + 12 == 12 * (a as int
                        * d as int + t as int + 1));
                }
                t += 1;
            }
            dirs.push(col);
            proof {
                assert(a as int * d as int + d as int == (a as int + 1) * d as int)
                    by (nonlinear_arith);
            }
            a += 1;
        }
        // project every point
        let mut projections: Vec<Vec<i64>> = Vec::new();
        let mut i: usize = 0;
        while i < n
            invariant
                points.wf(),
                n == points.spec_n(),
                d == points.spec_d(),
                d <= 262144,
                i <= n,
                projections@.len() == i,
                dirs@.len() == l,
                forall|x: int, y: int|
                    0 <= x < l && 0 <= y < dirs@[x]@.len() ==> -524288 < (
                    #[trigger] dirs@[x]@[y]) < 524288,
                forall|x: int| 0 <= x < l ==> (#[trigger] dirs@[x]@).len() == d,
                forall|x: int| 0 <= x < i ==> (#[trigger] projections@[x]@).len() == l,
                forall|x: int, y: int|
                    0 <= x < i && 0 <= y < l ==> proj_bounded(#[trigger] projections@[x]@[y]),
                forall|x: int, y: int|
                    0 <= x < i && 0 <= y < l ==> (#[trigger] projections@[x]@[y]) == sdot(
                        points.row(x),
                        dirs@[y]@,
                    ),
            decreases n - i,
        {
            let mut row: Vec<i64> = Vec::new();
            let mut a2: usize = 0;
            while a2 < l
                invariant
                    points.wf(),
                    n == points.spec_n(),
                    d == points.spec_d(),
                    d <= 262144,
                    i < n,
                    a2 <= l,
                    row@.len() == a2,
                    dirs@.len() == l,
                    forall|x: int, y: int|
                        0 <= x < l && 0 <= y < dirs@[x]@.len() ==> -524288 < (
                        #[trigger] dirs@[x]@[y]) < 524288,
                    forall|x: int| 0 <= x < l ==> (#[trigger] dirs@[x]@).len() == d,
                    forall|y: int| 0 <= y < a2 ==> proj_bounded(#[trigger] row@[y]),
                    forall|y: int|
                        0 <= y < a2 ==> (#[trigger] row@[y]) == sdot(
                            points.row(i as int),
                            dirs@[y]@,
                        ),
                decreases l - a2,
            {
                let mut acc: i64 = 0;
                let mut t: usize = 0;
                while t < d
                    invariant
                        points.wf(),
                        n == points.spec_n(),
                        d == points.spec_d(),
                        d <= 262144,
                        i < n,
                        a2 < l,
                        t <= d,
                        dirs@.len() == l,
                        forall|x: int, y: int|
                            0 <= x < l && 0 <= y < dirs@[x]@.len() ==> -524288 < (
                            #[trigger] dirs@[x]@[y]) < 524288,
                        forall|x: int| 0 <= x < l ==> (#[trigger] dirs@[x]@).len() == d,
                        -549755813888 * t <= acc <= 549755813888 * t,
                        acc == sdot(
                            points.row(i as int).take(t as int),
                            dirs@[a2 as int]@.take(t as int),
                        ),
                    decreases d - t,
                {
                    let c = points.coord(i, t);
                    let g = dirs[a2][t];
                    proof {
                        points.lemma_row_props(i as int);
                        assert(points.row(i as int).take(t + 1).drop_last() =~= points.row(
                            i as int,
                        ).take(t as int));
                        assert(dirs@[a2 as int]@.take(t + 1).drop_last() =~= dirs@[a2 as int]@.take(
                            t as int,
                        ));
                        assert(-549755813888 <= c * g <= 549755813888) by (nonlinear_arith)
                            requires
                                -1048576 <= c <= 1048576,
                                -524288 < g < 524288,
                        ;
                        assert(549755813888 * (t + 1) == 549755813888 * t + 549755813888)
                            by (nonlinear_arith);
                        assert(-549755813888 * (t + 1) == -549755813888 * t - 549755813888)
                            by (nonlinear_arith);
                        assert(549755813888 * t <= 549755813888 * 262144) by (nonlinear_arith)
                            requires
                                0 <= t <= 262144,
                        ;
                        assert(-549755813888 * t >= -549755813888 * 262144) by (nonlinear_arith)
                            requires
                                0 <= t <= 262144,
                        ;
                    }
                    acc = acc + c * g;
                    t += 1;
                }
                proof {
                    assert(549755813888 * d <= 144115188075855872) by (nonlinear_arith)
                        requires
                            0 <= d as int <= 262144,
                    ;
                    assert(-549755813888 * d >= -144115188075855872) by (nonlinear_arith)
                        requires
                            0 <= d as int <= 262144,
                    ;
                }
                proof {
                    points.lemma_row_props(i as int);
                    assert(points.row(i as int).take(d as int) =~= points.row(i as int));
                    assert(dirs@[a2 as int]@.take(d as int) =~= dirs@[a2 as int]@);
                }
                row.push(acc);
                a2 += 1;
            }
            projections.push(row);
            i += 1;
        }
        // candidate cap: twenty entries per doubling of the set size,
        // rounding the logarithm up
        let m = if n == 1 {
            20
        } else {
            let mut v = n - 1;
            let mut lg: usize = 0;
            proof {
                lemma_floor_log2_nonneg(n - 1);
                assert(crate::rmq::pow2(64) == 0x10000000000000000) by {
                    reveal_with_fuel(crate::rmq::pow2, 65);
                }
                lemma_floor_log2_le(n - 1, 64);
            }
            while v > 1
                invariant
                    v >= 1,
                    lg + floor_log2(v as int) == floor_log2(n - 1),
                    0 <= floor_log2(v as int),
                    lg <= floor_log2(n - 1),
                    floor_log2(n - 1) <= 64,
                decreases v,
            {
                proof {
                    lemma_floor_log2_step(v as int);
                }
                v = v / 2;
                lg += 1;
            }
            20 * (lg + 2)
        };
        let r = ApproxFarthestNeighbor { projections, m, l };
        proof {
            let ghost dseq = Seq::new(l as nat, |a: int| dirs@[a]@);
            assert(forall|a: int, t: int|
                0 <= a < l && 0 <= t < points.spec_d() ==> #[trigger] dseq[a][t] == drawn_dir(
                    s0,
                    d as int,
                    a,
                    t,
                ));
            assert forall|i2: int, a: int|
                0 <= i2 < points.spec_n() && 0 <= a < l implies #[trigger] r.rows()[i2][a]
                == sdot(points.row(i2), dseq[a]) by {
                assert(r.rows()[i2] == projections@[i2]@);
                assert(projections@[i2]@[a] == sdot(points.row(i2), dirs@[a]@));
            }
            assert(dseq.len() == l && forall|a: int|
                0 <= a < l ==> (#[trigger] dseq[a]).len() == points.spec_d());
        }
        r
    }

    /// One singleton cluster per point.
    pub fn create_clusters(&self, points: &PointSet) -> (r: Vec<AfnCluster>)
        requires
            points.wf(),
            self.wf(points),
        ensures
            r@.len() == points.spec_n(),
            forall|i: int|
                0 <= i < r@.len() ==> (#[trigger] r@[i]).wf() && r@[i].spec_n()
                    == points.spec_n(),
            forall|i: int| 0 <= i < r@.len() ==> (#[trigger] r@[i]).axes() == self.spec_l(),
            forall|i: int, a: int|
                0 <= i < r@.len() && 0 <= a < self.spec_l() ==> (#[trigger] r@[i].lists()[a])
                    == seq![(self.rows()[i][a], i as usize)],
    {
        let n = self.projections.len();
        let mut out: Vec<AfnCluster> = Vec::new();
        let mut i: usize = 0;
        while i < n
            invariant
                points.wf(),
                self.wf(points),
                n == points.spec_n(),
                i <= n,
                out@.len() == i,
                forall|x: int|
                    0 <= x < i ==> (#[trigger] out@[x]).wf() && out@[x].spec_n()
                        == points.spec_n(),
                forall|x: int| 0 <= x < i ==> (#[trigger] out@[x]).axes() == self.spec_l(),
                forall|x: int, a: int|
                    0 <= x < i && 0 <= a < self.spec_l() ==> (#[trigger] out@[x].lists()[a])
                        == seq![(self.rows()[x][a], x as usize)],
            decreases n - i,
        {
            let row = &self.projections[i];
            proof {
                assert(self.rows()[i as int] == self.projections@[i as int]@);
            }
            let c = AfnCluster::new(self.m, i, row, n);
            out.push(c);
            i += 1;
        }
        out
    }

    /// Candidate-pool cap.
    pub fn cap(&self) -> (r: usize)
        ensures
            r == self.spec_m(),
    {
        self.m
    }

    /// Number of projection axes.
    pub fn axes_count(&self) -> (r: usize)
        ensures
            r == self.spec_l(),
    {
        self.l
    }

    /// The projected row of one point.
    pub fn row(&self, i: usize) -> (r: &Vec<i64>)
        requires
            i < self.rows().len(),
        ensures
            r@ == self.rows()[i as int],
    {
        &self.projections[i]
    }
}

/// A summary of a subset of points: per projection axis, a capped list
/// of the most extreme members.
pub struct AfnCluster {
    buckets: Vec<Vec<(i64, usize)>>,
    m: usize,
    n: usize,
}

impl AfnCluster {
    /// The per-axis candidate lists.
    pub closed spec fn lists(&self) -> Seq<Seq<(i64, usize)>> {
        Seq::new(self.buckets@.len() as nat, |a: int| self.buckets@[a]@)
    }

    /// Number of axes.
    pub open spec fn axes(&self) -> int {
        self.lists().len() as int
    }

    /// Candidate cap.
    pub closed spec fn spec_m(&self) -> int {
        self.m as int
    }

    /// Size of the summarized point set.
    pub closed spec fn spec_n(&self) -> int {
        self.n as int
    }

    /// Every axis list is a well-formed candidate list.
    pub open spec fn wf(&self) -> bool {
        &&& self.spec_m() >= 1
        &&& forall|a: int|
            0 <= a < self.axes() ==> bucket_wf(
                #[trigger] self.lists()[a],
                self.spec_n(),
                self.spec_m(),
            )
    }

    /// Some axis still holds a candidate.
    pub open spec fn has_candidate(&self) -> bool {
        exists|a: int| 0 <= a < self.axes() && (#[trigger] self.lists()[a]).len() > 0
    }

    /// A cluster holding the single point `id`.
    pub fn new(m: usize, id: usize, proj_row: &Vec<i64>, n: usize) -> (r: AfnCluster)
        requires
            m >= 1,
            id < n,
            forall|t: int| 0 <= t < proj_row@.len() ==> proj_bounded(#[trigger] proj_row@[t]),
        ensures
            r.wf(),
            r.spec_n() == n,
            r.axes() == proj_row@.len(),
            r.has_candidate() <==> proj_row@.len() > 0,
            forall|a: int| 0 <= a < r.axes() ==> r.lists()[a] == seq![(proj_row@[a], id)],
    {
        let mut buckets: Vec<Vec<(i64, usize)>> = Vec::new();
        let mut a: usize = 0;
        while a < proj_row.len()
            invariant
                id < n,
                m >= 1,
                a <= proj_row@.len(),
                buckets@.len() == a,
                forall|t: int| 0 <= t < proj_row@.len() ==> proj_bounded(#[trigger] proj_row@[t]),
                forall|x: int|
                    0 <= x < a ==> bucket_wf(#[trigger] buckets@[x]@, n as int, m as int)
                        && buckets@[x]@ == seq![(proj_row@[x], id)],
            decreases proj_row@.len() - a,
        {
            let mut b: Vec<(i64, usize)> = Vec::new();
            b.push((proj_row[a], id));
            proof {
                assert(b@ =~= seq![(proj_row@[a as int], id)]);
            }
            buckets.push(b);
            a += 1;
        }
        let r = AfnCluster { buckets, m, n };
        proof {
            assert(forall|x: int| 0 <= x < r.axes() ==> r.lists()[x] == buckets@[x]@);
            if proj_row@.len() > 0 {
                assert(r.lists()[0].len() > 0);
            }
        }
        r
    }
}

/// The descending merge of two candidate lists, by projected value,
/// ties taken from the first list.
pub open spec fn merge_desc(a: Seq<(i64, usize)>, b: Seq<(i64, usize)>) -> Seq<(i64, usize)>
    decreases a.len() + b.len(),
{
    if a.len() == 0 {
        b
    } else if b.len() == 0 {
        a
    } else if a[0].0 >= b[0].0 {
        seq![a[0]] + merge_desc(a.drop_first(), b)
    } else {
        seq![b[0]] + merge_desc(a, b.drop_first())
    }
}

/// The descending merge, cut to at most `m` entries.
pub open spec fn capped_merge(a: Seq<(i64, usize)>, b: Seq<(i64, usize)>, m: int) -> Seq<
    (i64, usize),
> {
    let full = merge_desc(a, b);
    if m <= full.len() {
        full.take(m)
    } else {
        full
    }
}

/// Inserts a candidate into a descending list, dropping the smallest
/// entry when the cap is passed.
fn insert_capped(b: &mut Vec<(i64, usize)>, v: (i64, usize), m: usize, Ghost(n): Ghost<int>)
    requires
        bucket_wf(old(b)@, n, m as int),
        m >= 1,
        (v.1 as int) < n,
        proj_bounded(v.0),
        forall|t: int| 0 <= t < old(b)@.len() ==> (#[trigger] old(b)@[t]).1 != v.1,
    ensures
        bucket_wf(final(b)@, n, m as int),
        final(b)@.len() >= 1,
        old(b)@.len() < m ==> final(b)@.len() == old(b)@.len() + 1,
        old(b)@.len() == m ==> final(b)@.len() == m,
        forall|t: int|
            0 <= t < final(b)@.len() ==> (#[trigger] final(b)@[t]) == v || old(b)@.contains(
                final(b)@[t],
            ),
        old(b)@.len() < m ==> final(b)@.contains(v) && (forall|t: int|
            0 <= t < old(b)@.len() ==> final(b)@.contains(#[trigger] old(b)@[t])),
        old(b)@.len() == m ==> old(b)@.last().0 <= final(b)@.last().0,
        old(b)@.len() == m ==> (final(b)@.contains(v) || v.0 <= final(b)@.last().0),
        old(b)@.len() == m ==> (forall|t: int|
            0 <= t < old(b)@.len() ==> final(b)@.contains(#[trigger] old(b)@[t]) || old(b)@[t].0
                <= final(b)@.last().0),
{
    let mut p: usize = 0;
    while p < b.len() && b[p].0 >= v.0
        invariant
            p <= b@.len(),
            bucket_wf(b@, n, m as int),
            forall|x: int| 0 <= x < p ==> (#[trigger] b@[x]).0 >= v.0,
        decreases b@.len() - p,
    {
        p += 1;
    }
    let ghost before = b@;
    b.insert(p, v);
    proof {
        assert forall|x: int, y: int| 0 <= x <= y < b@.len() implies (#[trigger] b@[x]).0 >= (
        #[trigger] b@[y]).0 by {
            assert(forall|z: int| 0 <= z < p ==> b@[z] == before[z]);
            assert(b@[p as int] == v);
            assert(forall|z: int| p < z < b@.len() ==> b@[z] == before[z - 1]);
            if p < b@.len() - 1 {
                assert(before[p as int].0 < v.0);
            }
        }
        assert forall|x: int, y: int| 0 <= x < y < b@.len() implies (#[trigger] b@[x]).1 != (
        #[trigger] b@[y]).1 by {
            assert(forall|z: int| 0 <= z < p ==> b@[z] == before[z]);
            assert(b@[p as int] == v);
            assert(forall|z: int| p < z < b@.len() ==> b@[z] == before[z - 1]);
        }
        assert forall|x: int| 0 <= x < b@.len() implies (#[trigger] b@[x]) == v
            || before.contains(b@[x]) by {
            if x < p {
                assert(b@[x] == before[x]);
            } else if x > p {
                assert(b@[x] == before[x - 1]);
            }
        }
    }
    let ghost mid = b@;
    if b.len() > m {
        b.pop();
        proof {
            assert(b@ =~= mid.drop_last());
            // the inserted sequence keeps every entry but its smallest
            assert(before.len() == m);
            assert(mid.len() == m + 1);
            assert(b@.len() == m);
            assert(b@.last() == mid[m - 1]);
            assert(mid.last().0 <= b@.last().0);
            if p < m {
                // the old minimum sits at the end of the inserted list
                assert(mid[mid.len() - 1] == before[m - 1]);
                assert(before.last().0 <= b@.last().0);
                assert forall|t: int|
                    0 <= t < before.len() implies b@.contains(#[trigger] before[t]) || before[t].0
                    <= b@.last().0 by {
                    if t < p {
                        assert(b@[t] == before[t]);
                        assert(b@.contains(before[t]));
                    } else if t < m - 1 {
                        assert(b@[t + 1] == before[t]);
                        assert(b@.contains(before[t]));
                    } else {
                        assert(before[t] == mid.last());
                    }
                }
                assert(b@[p as int] == v);
                assert(b@.contains(v));
            } else {
                // the new value itself is the smallest and is dropped
                assert(p == m);
                assert(mid.last() == v);
                assert(b@ =~= before);
                assert(v.0 <= before[m - 1].0);
                assert forall|t: int|
                    0 <= t < before.len() implies b@.contains(#[trigger] before[t]) || before[t].0
                    <= b@.last().0 by {
                    assert(b@[t] == before[t]);
                }
            }
        }
    } else {
        proof {
            assert(b@[p as int] == v);
            assert(b@.contains(v));
            assert forall|t: int|
                0 <= t < before.len() implies b@.contains(#[trigger] before[t]) by {
                if t < p {
                    assert(b@[t] == before[t]);
                } else {
                    assert(b@[t + 1] == before[t]);
                }
            }
        }
    }
}

impl AfnCluster {
    /// A cluster summarizing every point: per axis, the top candidates
    /// by projected value.
    pub fn new_full(afn: &ApproxFarthestNeighbor, points: &PointSet) -> (r: AfnCluster)
        requires
            points.wf(),
            afn.wf(points),
        ensures
            r.wf(),
            r.spec_n() == points.spec_n(),
            r.spec_m() == afn.spec_m(),
            r.axes() == afn.spec_l(),
            points.spec_n() >= 1 ==> forall|a: int|
                0 <= a < r.axes() ==> (#[trigger] r.lists()[a]).len() >= 1,
            forall|a: int|
                0 <= a < r.axes() ==> (#[trigger] r.lists()[a]).len() == (if afn.spec_m()
                    <= points.spec_n() {
                    afn.spec_m()
                } else {
                    points.spec_n()
                }),
            forall|a: int, t: int|
                0 <= a < r.axes() && 0 <= t < r.lists()[a].len() ==> (#[trigger] r.lists()[a][
                t]).0 == afn.rows()[r.lists()[a][t].1 as int][a],
            forall|a: int, id: int|
                0 <= a < r.axes() && 0 <= id < points.spec_n() && !#[trigger] list_has_id(
                    r.lists()[a],
                    id,
                ) ==> r.lists()[a].len() == afn.spec_m() && afn.rows()[id][a] <= r.lists()[
                    a].last().0,
    {
        let n = points.len();
        let m = afn.cap();
        let mut buckets: Vec<Vec<(i64, usize)>> = Vec::new();
        let ghost nn = points.spec_n();
        let mut ax: usize = 0;
        let total_axes = afn.axes_count();
        while ax < total_axes
            invariant
                points.wf(),
                afn.wf(points),
                n == points.spec_n(),
                m == afn.spec_m(),
                total_axes == afn.spec_l(),
                ax <= total_axes,
                buckets@.len() == ax,
                m >= 1,
                forall|x: int|
                    0 <= x < ax ==> bucket_wf(#[trigger] buckets@[x]@, nn, m as int),
                nn == points.spec_n(),
                forall|x: int| 0 <= x < ax && n >= 1 ==> (#[trigger] buckets@[x]@).len() >= 1,
                forall|x: int|
                    0 <= x < ax ==> (#[trigger] buckets@[x]@).len() == (if m <= n {
                        m as int
                    } else {
                        n as int
                    }),
                forall|x: int, t: int|
                    0 <= x < ax && 0 <= t < buckets@[x]@.len() ==> (#[trigger] buckets@[x]@[
                    t]).0 == afn.rows()[buckets@[x]@[t].1 as int][x],
                forall|x: int, id: int|
                    0 <= x < ax && 0 <= id < n && !#[trigger] list_has_id(buckets@[x]@, id)
                        ==> buckets@[x]@.len() == m && afn.rows()[id][x] <= buckets@[x]@.last().0,
            decreases total_axes - ax,
        {
            let mut b: Vec<(i64, usize)> = Vec::new();
            let mut i: usize = 0;
            while i < n
                invariant
                    points.wf(),
                    afn.wf(points),
                    n == points.spec_n(),
                    m == afn.spec_m(),
                    total_axes == afn.spec_l(),
                    ax < total_axes,
                    i <= n,
                    m >= 1,
                    nn == points.spec_n(),
                    bucket_wf(b@, nn, m as int),
                    forall|t: int| 0 <= t < b@.len() ==> (#[trigger] b@[t]).1 < i,
                    i >= 1 ==> b@.len() >= 1,
                    b@.len() == (if m <= i {
                        m as int
                    } else {
                        i as int
                    }),
                    forall|t: int|
                        0 <= t < b@.len() ==> (#[trigger] b@[t]).0 == afn.rows()[b@[t].1 as int][
                            ax as int],
                    forall|id: int|
                        0 <= id < i && !#[trigger] list_has_id(b@, id) ==> b@.len() == m
                            && afn.rows()[id][ax as int] <= b@.last().0,
                decreases n - i,
            {
                let row = afn.row(i);
                let v = row[ax];
                proof {
                    assert(v == afn.rows()[i as int][ax as int]);
                }
                let ghost prev = b@;
                insert_capped(&mut b, (v, i), m, Ghost(nn));
                proof {
                    assert forall|t: int| 0 <= t < b@.len() implies (#[trigger] b@[t]).1 < i
                        + 1 by {
                        if b@[t] != (v, i) {
                            assert(prev.contains(b@[t]));
                            let z = choose|z: int| 0 <= z < prev.len() && prev[z] == b@[t];
                            assert(prev[z].1 < i);
                        }
                    }
                    assert forall|t: int| 0 <= t < b@.len() implies (#[trigger] b@[t]).0
                        == afn.rows()[b@[t].1 as int][ax as int] by {
                        if b@[t] != (v, i) {
                            assert(prev.contains(b@[t]));
                            let z = choose|z: int| 0 <= z < prev.len() && prev[z] == b@[t];
                            assert(prev[z].0 == afn.rows()[prev[z].1 as int][ax as int]);
                        }
                    }
                    assert forall|id: int|
                        0 <= id < i + 1 && !list_has_id(b@, id) implies b@.len() == m
                        && afn.rows()[id][ax as int] <= b@.last().0 by {
                        if id == i {
                            if b@.contains((v, i)) {
                                let z = choose|z: int| 0 <= z < b@.len() && b@[z] == (v, i);
                                assert(b@[z].1 == id);
                                assert(false);
                            }
                            assert(prev.len() == m);
                            assert(v <= b@.last().0);
                        } else {
                            if list_has_id(prev, id) {
                                let z = choose|z: int|
                                    0 <= z < prev.len() && (#[trigger] prev[z]).1 == id;
                                if b@.contains(prev[z]) {
                                    let z2 = choose|z2: int|
                                        0 <= z2 < b@.len() && b@[z2] == prev[z];
                                    assert(b@[z2].1 == id);
                                    assert(false);
                                }
                                assert(prev.len() == m);
                                assert(prev[z].0 <= b@.last().0);
                                assert(prev[z].0 == afn.rows()[id][ax as int]);
                            } else {
                                assert(prev.len() == m);
                                assert(afn.rows()[id][ax as int] <= prev.last().0);
                                assert(prev.last().0 <= b@.last().0);
                            }
                        }
                    }
                }
                i += 1;
            }
            buckets.push(b);
            ax += 1;
        }
        let r = AfnCluster { buckets, m, n };
        proof {
            assert(forall|x: int| 0 <= x < r.axes() ==> r.lists()[x] == buckets@[x]@);
        }
        r
    }

    /// Merges `rhs` into `self` axis by axis, keeping for each axis the
    /// top candidates of the union and leaving `rhs` empty.
    pub fn merge(&mut self, rhs: &mut AfnCluster)
        requires
            old(self).wf(),
            old(rhs).wf(),
            old(self).spec_n() == old(rhs).spec_n(),
            old(self).axes() == old(rhs).axes(),
            forall|a: int, x: int, y: int|
                0 <= a < old(self).axes() && 0 <= x < old(self).lists()[a].len() && 0 <= y < old(
                    rhs,
                ).lists()[a].len() ==> (#[trigger] old(self).lists()[a][x]).1 != (#[trigger] old(
                    rhs,
                ).lists()[a][y]).1,
        ensures
            final(self).wf(),
            final(self).spec_n() == old(self).spec_n(),
            final(self).axes() == old(self).axes(),
            final(self).spec_m() == old(self).spec_m(),
            forall|a: int|
                0 <= a < final(self).axes() && ((#[trigger] old(self).lists()[a]).len() >= 1 || old(
                    rhs,
                ).lists()[a].len() >= 1) ==> (#[trigger] final(self).lists()[a]).len() >= 1,
            forall|a: int|
                0 <= a < final(self).axes() ==> (#[trigger] final(self).lists()[a])
                    == capped_merge(
                    old(self).lists()[a],
                    old(rhs).lists()[a],
                    old(self).spec_m(),
                ),
            final(rhs).axes() == old(rhs).axes(),
            forall|a: int|
                0 <= a < final(rhs).axes() ==> (#[trigger] final(rhs).lists()[a]).len() == 0,
    {
        let axes = self.buckets.len();
        let m = self.m;
        let ghost n = self.spec_n();
        let ghost pre = *self;
        let ghost prer = *rhs;
        let mut a: usize = 0;
        while a < axes
            invariant
                axes == pre.axes(),
                m == pre.spec_m(),
                m >= 1,
                a <= axes,
                self.m == pre.m,
                self.n == pre.n,
                n == pre.spec_n(),
                *rhs == prer,
                prer.axes() == pre.axes(),
                self.buckets@.len() == pre.buckets@.len(),
                pre.wf(),
                prer.wf(),
                pre.spec_n() == n,
                prer.spec_n() == n,
                forall|x: int, y: int, z: int|
                    0 <= x < pre.axes() && 0 <= y < pre.lists()[x].len() && 0 <= z < prer.lists()[
                        x].len() ==> (#[trigger] pre.lists()[x][y]).1 != (#[trigger] prer.lists()[
                        x][z]).1,
                forall|x: int|
                    a <= x < axes ==> (#[trigger] self.buckets@[x]@) == pre.lists()[x],
                forall|x: int|
                    0 <= x < a ==> bucket_wf(#[trigger] self.buckets@[x]@, n, m as int),
                forall|x: int|
                    0 <= x < a && (pre.lists()[x].len() >= 1 || prer.lists()[x].len() >= 1) ==> (
                    #[trigger] self.buckets@[x]@).len() >= 1,
                forall|x: int|
                    0 <= x < a ==> (#[trigger] self.buckets@[x]@) == capped_merge(
                        pre.lists()[x],
                        prer.lists()[x],
                        m as int,
                    ),
            decreases axes - a,
        {
            proof {
                assert(pre.lists()[a as int] == pre.buckets@[a as int]@);
                assert(prer.lists()[a as int] == prer.buckets@[a as int]@);
                assert(bucket_wf(pre.lists()[a as int], n, m as int));
                assert(bucket_wf(prer.lists()[a as int], n, prer.spec_m()));
                assert(forall|x: int, y: int|
                    0 <= x < pre.lists()[a as int].len() && 0 <= y < prer.lists()[
                        a as int].len() ==> (#[trigger] pre.lists()[a as int][x]).1 != (
                    #[trigger] prer.lists()[a as int][y]).1);
            }
            let mut merged: Vec<(i64, usize)> = Vec::new();
            let bs = &self.buckets[a];
            let br = &rhs.buckets[a];
            let mut i: usize = 0;
            let mut j: usize = 0;
            proof {
                assert(bs@.skip(0) =~= bs@);
                assert(br@.skip(0) =~= br@);
                assert(merged@ + merge_desc(bs@, br@) =~= merge_desc(bs@, br@));
            }
            while (i < bs.len() || j < br.len()) && merged.len() < m
                invariant
                    i <= bs@.len(),
                    j <= br@.len(),
                    m >= 1,
                    bs@ == pre.lists()[a as int],
                    br@ == prer.lists()[a as int],
                    0 <= a < pre.axes(),
                    bucket_wf(bs@, n, m as int),
                    bucket_wf(br@, n, prer.spec_m()),
                    merged@.len() <= m,
                    bucket_wf(merged@, n, m as int),
                    forall|x: int, y: int|
                        0 <= x < merged@.len() && i <= y < bs@.len() ==> (
                        #[trigger] merged@[x]).0 >= (#[trigger] bs@[y]).0,
                    forall|x: int, y: int|
                        0 <= x < merged@.len() && j <= y < br@.len() ==> (
                        #[trigger] merged@[x]).0 >= (#[trigger] br@[y]).0,
                    forall|x: int, y: int|
                        0 <= x < bs@.len() && 0 <= y < br@.len() ==> (#[trigger] bs@[x]).1 != (
                        #[trigger] br@[y]).1,
                    forall|x: int, y: int|
                        0 <= x < merged@.len() && i <= y < bs@.len() ==> (
                        #[trigger] merged@[x]).1 != (#[trigger] bs@[y]).1,
                    forall|x: int, y: int|
                        0 <= x < merged@.len() && j <= y < br@.len() ==> (
                        #[trigger] merged@[x]).1 != (#[trigger] br@[y]).1,
                    merged@.len() >= 1 || (i == 0 && j == 0),
                    merged@.len() == i + j,
                    merge_desc(bs@, br@) == merged@ + merge_desc(
                        bs@.skip(i as int),
                        br@.skip(j as int),
                    ),
                decreases bs@.len() - i + br@.len() - j,
            {
                let ghost pre_merged = merged@;
                if i < bs.len() && (j >= br.len() || bs[i].0 >= br[j].0) {
                    merged.push(bs[i]);
                    proof {
                        let sa = bs@.skip(i as int);
                        let sb = br@.skip(j as int);
                        assert(sa[0] == bs@[i as int]);
                        if sb.len() == 0 {
                            assert(merge_desc(sa, sb) == sa);
                            assert(sa =~= seq![bs@[i as int]] + bs@.skip(i + 1));
                            assert(merge_desc(bs@.skip(i + 1), sb) == bs@.skip(i + 1));
                        } else {
                            assert(sa[0].0 >= sb[0].0);
                            assert(merge_desc(sa, sb) == seq![sa[0]] + merge_desc(
                                sa.drop_first(),
                                sb,
                            ));
                            assert(sa.drop_first() =~= bs@.skip(i + 1));
                        }
                        assert(merged@ =~= pre_merged + seq![bs@[i as int]]);
                        assert(merge_desc(bs@, br@) =~= merged@ + merge_desc(
                            bs@.skip(i + 1),
                            br@.skip(j as int),
                        ));
                    }
                    i += 1;
                } else {
                    merged.push(br[j]);
                    proof {
                        let sa = bs@.skip(i as int);
                        let sb = br@.skip(j as int);
                        assert(sb[0] == br@[j as int]);
                        if sa.len() == 0 {
                            assert(merge_desc(sa, sb) == sb);
                            assert(sb =~= seq![br@[j as int]] + br@.skip(j + 1));
                            assert(merge_desc(sa, br@.skip(j + 1)) == br@.skip(j + 1));
                        } else {
                            assert(sa[0].0 < sb[0].0);
                            assert(merge_desc(sa, sb) == seq![sb[0]] + merge_desc(
                                sa,
                                sb.drop_first(),
                            ));
                            assert(sb.drop_first() =~= br@.skip(j + 1));
                        }
                        assert(merged@ =~= pre_merged + seq![br@[j as int]]);
                        assert(merge_desc(bs@, br@) =~= merged@ + merge_desc(
                            bs@.skip(i as int),
                            br@.skip(j + 1),
                        ));
                    }
                    j += 1;
                }
            }
            proof {
                let full = merge_desc(bs@, br@);
                if merged@.len() == m {
                    assert(full.take(merged@.len() as int) =~= merged@);
                    assert(merged@ == capped_merge(bs@, br@, m as int));
                } else {
                    assert(i == bs@.len() && j == br@.len());
                    assert(bs@.skip(i as int).len() == 0);
                    assert(merge_desc(bs@.skip(i as int), br@.skip(j as int)) == br@.skip(
                        j as int,
                    ));
                    assert(full =~= merged@);
                    assert(merged@ == capped_merge(bs@, br@, m as int));
                }
            }
            self.buckets.set(a, merged);
            a += 1;
        }
        // leave the other cluster empty
        let mut c: usize = 0;
        let raxes = rhs.buckets.len();
        while c < raxes
            invariant
                c <= raxes,
                rhs.buckets@.len() == raxes,
                forall|x: int| 0 <= x < c ==> (#[trigger] rhs.buckets@[x]@).len() == 0,
            decreases raxes - c,
        {
            rhs.buckets.set(c, Vec::new());
            c += 1;
        }
        proof {
            assert(forall|x: int|
                0 <= x < final(rhs).axes() ==> final(rhs).lists()[x] == rhs.buckets@[x]@);
        }
        proof {
            assert(forall|x: int|
                0 <= x < final(self).axes() ==> final(self).lists()[x] == self.buckets@[x]@);
        }
    }
}

impl AfnCluster {
    /// Lazy farthest-point query: seed a priority pool with the head of
    /// every axis list, keyed by projected gap to the query point, then
    /// pop the best cursor, measure the true squared distance, advance
    /// that axis, and keep the farthest seen — for at most `m` pops.
    ///
    /// The returned candidate is a member of the summary at exactly the
    /// returned squared distance, and it is at least as far as the head
    /// of one non-empty axis list.
    pub fn get_farthest(&self, points: &PointSet, afn: &ApproxFarthestNeighbor, id: usize) -> (r: (
        usize,
        u64,
    ))
        requires
            points.wf(),
            afn.wf(points),
            self.wf(),
            self.spec_n() == points.spec_n(),
            self.axes() == afn.spec_l(),
            id < points.spec_n(),
            self.has_candidate(),
        ensures
            r.0 < points.spec_n(),
            r.1 == points.sq(id as int, r.0 as int),
            exists|a: int, t: int|
                0 <= a < self.axes() && 0 <= t < self.lists()[a].len() && (#[trigger] self.lists()[
                a][t]).1 == r.0,
            exists|a: int|
                0 <= a < self.axes() && (#[trigger] self.lists()[a]).len() > 0 && r.1 >= points.sq(
                    id as int,
                    self.lists()[a][0].1 as int,
                ),
    {
        let ghost n = points.spec_n();
        let own = afn.row(id);
        let axes = self.buckets.len();
        let mut heap: Vec<HeapEntry> = Vec::new();
        let mut a: usize = 0;
        while a < axes
            invariant
                points.wf(),
                afn.wf(points),
                self.wf(),
                self.spec_n() == n,
                n == points.spec_n(),
                id < n,
                axes == self.axes(),
                self.axes() == afn.spec_l(),
                own@ == afn.rows()[id as int],
                a <= axes,
                forall|x: int|
                    0 <= x < heap@.len() ==> {
                        let e = #[trigger] heap@[x];
                        &&& e.axis < axes
                        &&& 1 <= e.next <= self.lists()[e.axis as int].len()
                        &&& e.point_id == self.lists()[e.axis as int][e.next - 1].1
                        &&& e.key == self.lists()[e.axis as int][e.next - 1].0 - e.offset
                        &&& proj_bounded(e.offset)
                    },
                forall|x: int|
                    0 <= x < heap@.len() ==> (#[trigger] heap@[x]).next == 1,
                (exists|x: int| 0 <= x < a && (#[trigger] self.lists()[x]).len() > 0)
                    ==> heap@.len() >= 1,
            decreases axes - a,
        {
            proof {
                assert(self.lists()[a as int] == self.buckets@[a as int]@);
            }
            if self.buckets[a].len() > 0 {
                let (v, pid) = self.buckets[a][0];
                let off = own[a];
                heap.push(HeapEntry { key: v - off, point_id: pid, axis: a, next: 1, offset: off });
            }
            a += 1;
        }
        proof {
            assert(heap@.len() >= 1);
        }
        // first pop: scan for the best key
        let mut best_i: usize = 0;
        let mut idx: usize = 1;
        while idx < heap.len()
            invariant
                heap@.len() >= 1,
                best_i < heap@.len(),
                idx <= heap@.len(),
            decreases heap@.len() - idx,
        {
            if heap[idx].key > heap[best_i].key {
                best_i = idx;
            }
            idx += 1;
        }
        let ghost heap0 = heap@;
        let first = heap.remove(best_i);
        let ghost a0 = first.axis as int;
        let mut far_id = first.point_id;
        let mut far_d2 = dist2(points, id, first.point_id);
        proof {
            assert(first.point_id == self.lists()[a0][0].1);
        }
        match first.next(&self.buckets[first.axis]) {
            Some(e2) => {
                heap.push(e2);
            },
            None => {},
        }
        let mut its: usize = 1;
        let m = self.m;
        while its < m && heap.len() > 0
            invariant
                points.wf(),
                afn.wf(points),
                self.wf(),
                self.spec_n() == n,
                n == points.spec_n(),
                id < n,
                axes == self.axes(),
                far_id < n,
                far_d2 == points.sq(id as int, far_id as int),
                0 <= a0 < self.axes(),
                self.lists()[a0].len() > 0,
                far_d2 >= points.sq(id as int, self.lists()[a0][0].1 as int),
                exists|ax: int, t: int|
                    0 <= ax < self.axes() && 0 <= t < self.lists()[ax].len() && (
                    #[trigger] self.lists()[ax][t]).1 == far_id,
                forall|x: int|
                    0 <= x < heap@.len() ==> {
                        let e = #[trigger] heap@[x];
                        &&& e.axis < axes
                        &&& 1 <= e.next <= self.lists()[e.axis as int].len()
                        &&& e.point_id == self.lists()[e.axis as int][e.next - 1].1
                        &&& e.key == self.lists()[e.axis as int][e.next - 1].0 - e.offset
                        &&& proj_bounded(e.offset)
                    },
            decreases m - its,
        {
            let mut bi: usize = 0;
            let mut ix: usize = 1;
            while ix < heap.len()
                invariant
                    heap@.len() >= 1,
                    bi < heap@.len(),
                    ix <= heap@.len(),
                decreases heap@.len() - ix,
            {
                if heap[ix].key > heap[bi].key {
                    bi = ix;
                }
                ix += 1;
            }
            let entry = heap.remove(bi);
            proof {
                assert(entry.point_id == self.lists()[entry.axis as int][entry.next - 1].1);
                assert(self.lists()[entry.axis as int] == self.buckets@[entry.axis as int]@);
            }
            let d2 = dist2(points, id, entry.point_id);
            if d2 > far_d2 {
                far_id = entry.point_id;
                far_d2 = d2;
            }
            match entry.next(&self.buckets[entry.axis]) {
                Some(e2) => {
                    heap.push(e2);
                },
                None => {},
            }
            its += 1;
        }
        (far_id, far_d2)
    }
}

/// A cursor into one axis list: the candidate it currently names, its
/// priority key, and where the list continues.
#[derive(Clone, Copy)]
pub struct HeapEntry {
    pub key: i64,
    pub point_id: usize,
    pub axis: usize,
    pub next: usize,
    pub offset: i64,
}

impl HeapEntry {
    /// Advances the cursor to the next candidate of its axis list, if
    /// any, keyed by projected value minus the query's own projection.
    pub fn next(self, bucket: &Vec<(i64, usize)>) -> (r: Option<HeapEntry>)
        requires
            self.next <= bucket@.len(),
            proj_bounded(self.offset),
            forall|t: int| 0 <= t < bucket@.len() ==> proj_bounded((#[trigger] bucket@[t]).0),
        ensures
            match r {
                Some(e2) => {
                    &&& self.next < bucket@.len()
                    &&& e2.axis == self.axis
                    &&& e2.offset == self.offset
                    &&& e2.next == self.next + 1
                    &&& e2.point_id == bucket@[self.next as int].1
                    &&& e2.key == bucket@[self.next as int].0 - self.offset
                },
                None => self.next == bucket@.len(),
            },
    {
        if self.next < bucket.len() {
            let (v, pid) = bucket[self.next];
            Some(
                HeapEntry {
                    key: v - self.offset,
                    point_id: pid,
                    axis: self.axis,
                    next: self.next + 1,
                    offset: self.offset,
                },
            )
        } else {
            None
        }
    }
}

/// The two-hop shape of the diameter estimate: `p1` is the first point
/// farthest from point 0, `q` the first point farthest from `p1`, and
/// the result is four times their squared distance (the square of the
/// doubled plain distance).
pub open spec fn two_hop_estimate(points: &PointSet, p1: int, q: int, r: u64) -> bool {
    &&& 0 <= p1 < points.spec_n()
    &&& 0 <= q < points.spec_n()
    &&& forall|t: int| 0 <= t < points.spec_n() ==> #[trigger] points.sq(0, t) <= points.sq(0, p1)
    &&& forall|t: int| 0 <= t < p1 ==> #[trigger] points.sq(0, t) < points.sq(0, p1)
    &&& forall|t: int| 0 <= t < points.spec_n() ==> #[trigger] points.sq(p1, t) <= points.sq(p1, q)
    &&& forall|t: int| 0 <= t < q ==> #[trigger] points.sq(p1, t) < points.sq(p1, q)
    &&& r == 4 * points.sq(p1, q)
}

/// Deterministic two-hop diameter estimate: the farthest point from an
/// arbitrary start, then the farthest point from that one, doubled.
/// In squared form: the result is exactly four times the squared
/// distance realized by the two-hop walk (so equal point sets always
/// give the equal estimate), and it bounds every squared distance from
/// above.
pub fn estimate_diameter(points: &PointSet) -> (r: u64)
    requires
        points.wf(),
        points.spec_n() >= 1,
    ensures
        forall|i: int, j: int|
            0 <= i < points.spec_n() && 0 <= j < points.spec_n() ==> points.sq(i, j) <= r,
        exists|p1: int, q: int| two_hop_estimate(points, p1, q, r),
{
    let n = points.len();
    // farthest point from point 0
    let mut p1: usize = 0;
    let mut best: u64 = dist2(points, 0, 0);
    let mut j: usize = 0;
    while j < n
        invariant
            points.wf(),
            n == points.spec_n(),
            n >= 1,
            j <= n,
            p1 < n,
            best == points.sq(0, p1 as int),
            forall|t: int| 0 <= t < j ==> points.sq(0, t) <= best,
            forall|t: int| 0 <= t < p1 ==> points.sq(0, t) < best,
        decreases n - j,
    {
        let d2 = dist2(points, 0, j);
        if d2 > best {
            best = d2;
            p1 = j;
        }
        j += 1;
    }
    // farthest squared distance from that point
    let mut apx: u64 = dist2(points, p1, 0);
    let mut q: usize = 0;
    let mut j2: usize = 0;
    while j2 < n
        invariant
            points.wf(),
            n == points.spec_n(),
            n >= 1,
            j2 <= n,
            p1 < n,
            q < n,
            best == points.sq(0, p1 as int),
            forall|t: int| 0 <= t < n ==> points.sq(0, t) <= best,
            forall|t: int| 0 <= t < p1 ==> points.sq(0, t) < best,
            apx == points.sq(p1 as int, q as int),
            forall|t: int| 0 <= t < j2 ==> points.sq(p1 as int, t) <= apx,
            forall|t: int| 0 <= t < q ==> points.sq(p1 as int, t) < apx,
        decreases n - j2,
    {
        let d2 = dist2(points, p1, j2);
        if d2 > apx {
            apx = d2;
            q = j2;
        }
        j2 += 1;
    }
    proof {
        points.lemma_sq_props(p1 as int, q as int);
        assert(two_hop_estimate(points, p1 as int, q as int, (4 * apx) as u64));
        assert forall|i: int, jx: int|
            0 <= i < points.spec_n() && 0 <= jx < points.spec_n() implies points.sq(i, jx) <= 4
            * (apx as int) by {
            points.lemma_row_props(i);
            points.lemma_row_props(jx);
            points.lemma_row_props(p1 as int);
            lemma_sqdist_double_triangle(points.row(i), points.row(p1 as int), points.row(jx));
            points.lemma_sq_props(i, p1 as int);
            points.lemma_sq_props(p1 as int, i);
            points.lemma_sq_props(p1 as int, jx);
        }
    }
    4 * apx
}

} // verus!
