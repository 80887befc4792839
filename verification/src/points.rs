//! Geometry primitives: bounded integer point matrices and exact squared
//! euclidean distances.

use vstd::prelude::*;

verus! {

/// Largest coordinate magnitude a `PointSet` accepts.
pub const COORD_LIMIT: i64 = 1048576;

/// Largest dimension a `PointSet` accepts.
pub const DIM_LIMIT: usize = 262144;

/// Squared euclidean distance between two coordinate rows of equal length.
pub open spec fn sqdist(p: Seq<i64>, q: Seq<i64>) -> int
    decreases p.len(),
{
    if p.len() == 0 {
        0
    } else {
        sqdist(p.drop_last(), q.drop_last())
            + (p.last() - q.last()) * (p.last() - q.last())
    }
}

/// An `n` x `d` matrix of integer coordinates, row-major by point.
///
/// Coordinates are bounded so that every squared distance, and four times
/// the largest one, fits in `u64`.
pub struct PointSet {
    data: Vec<i64>,
    n: usize,
    d: usize,
}

impl PointSet {
    /// Well-formedness: row-major layout with bounded dimension and
    /// bounded coordinates.
    pub closed spec fn wf(&self) -> bool {
        &&& self.data@.len() == self.n * self.d
        &&& self.d <= DIM_LIMIT
        &&& forall|i: int|
            0 <= i < self.data@.len() ==> -COORD_LIMIT <= #[trigger] self.data@[i] <= COORD_LIMIT
    }

    /// Number of points.
    pub closed spec fn spec_n(&self) -> int {
        self.n as int
    }

    /// Dimension of the space.
    pub closed spec fn spec_d(&self) -> int {
        self.d as int
    }

    /// The coordinate row of point `i`.
    pub closed spec fn row(&self, i: int) -> Seq<i64> {
        Seq::new(self.d as nat, |t: int| self.data@[i * self.d + t])
    }

    /// Squared distance between points `i` and `j`.
    pub open spec fn sq(&self, i: int, j: int) -> int {
        sqdist(self.row(i), self.row(j))
    }

    pub proof fn lemma_row_props(&self, i: int)
        requires
            self.wf(),
            0 <= i < self.spec_n(),
        ensures
            self.row(i).len() == self.spec_d(),
            forall|t: int|
                0 <= t < self.spec_d() ==> -COORD_LIMIT <= #[trigger] self.row(i)[t] <= COORD_LIMIT,
    {
        assert(i * self.d + self.d <= self.n * self.d) by (nonlinear_arith)
            requires
                0 <= i,
                i < self.n as int,
        ;
        assert(0 <= i * self.d) by (nonlinear_arith)
            requires
                0 <= i,
                0 <= self.d as int,
        ;
    }

    /// Builds a point set from row-major data; rejects exactly the
    /// inputs whose shape or coordinate bounds are off.
    #[verifier::rlimit(50)]
    #[verifier::spinoff_prover]
    pub fn new(data: Vec<i64>, n: usize, d: usize) -> (r: Option<PointSet>)
        ensures
            r is Some <==> {
                &&& d <= DIM_LIMIT
                &&& data@.len() == n * d
                &&& forall|t: int|
                    0 <= t < data@.len() ==> -COORD_LIMIT <= #[trigger] data@[t] <= COORD_LIMIT
            },
            match r {
                Some(ps) => {
                    &&& ps.wf()
                    &&& ps.spec_n() == n
                    &&& ps.spec_d() == d
                    &&& forall|i: int, t: int|
                        0 <= i < n && 0 <= t < d ==> ps.row(i)[t] == data@[i * (d as int) + t]
                },
                None => true,
            },
    {
        if d > DIM_LIMIT {
            return None;
        }
        let data_len = data.len();
        let total = match n.checked_mul(d) {
            Some(v) => v,
            None => {
                proof {
                    assert(n * d > usize::MAX);
                    assert(data@.len() == data_len);
                    assert(data@.len() != n * d);
                }
                return None;
            },
        };
        if data.len() != total {
            proof {
                assert(data@.len() != n * d);
            }
            return None;
        }
        let mut i: usize = 0;
        while i < data.len()
            invariant
                i <= data.len(),
                forall|t: int| 0 <= t < i ==> -COORD_LIMIT <= #[trigger] data@[t] <= COORD_LIMIT,
            decreases data.len() - i,
        {
            let c = data[i];
            if c < -COORD_LIMIT || c > COORD_LIMIT {
                return None;
            }
            i += 1;
        }
        proof {
            assert(data@.len() == n * d);
            assert(forall|t: int|
                0 <= t < data@.len() ==> -COORD_LIMIT <= #[trigger] data@[t] <= COORD_LIMIT);
        }
        Some(PointSet { data, n, d })
    }

    /// Number of points.
    pub fn len(&self) -> (r: usize)
        ensures
            r == self.spec_n(),
    {
        self.n
    }

    /// Dimension of the space.
    pub fn dim(&self) -> (r: usize)
        ensures
            r == self.spec_d(),
            self.wf() ==> r <= DIM_LIMIT,
    {
        self.d
    }

    /// Coordinate `t` of point `i`.
    pub fn coord(&self, i: usize, t: usize) -> (r: i64)
        requires
            self.wf(),
            i < self.spec_n(),
            t < self.spec_d(),
        ensures
            r == self.row(i as int)[t as int],
            -COORD_LIMIT <= r <= COORD_LIMIT,
    {
        let total = self.data.len();
        proof {
            self.lemma_row_props(i as int);
            assert(i * self.d + t < self.n * self.d) by (nonlinear_arith)
                requires
                    0 <= i as int,
                    (i as int) < self.n as int,
                    0 <= t as int,
                    (t as int) < self.d as int,
            ;
            assert(0 <= i * self.d) by (nonlinear_arith)
                requires
                    0 <= i,
                    0 <= self.d as int,
            ;
            assert(self.n * self.d == total);
            assert(self.row(i as int)[t as int] == self.data@[i as int * self.d as int
                + t as int]);
        }
        self.data[i * self.d + t]
    }
}

pub proof fn lemma_sqdist_nonneg(p: Seq<i64>, q: Seq<i64>)
    requires
        p.len() == q.len(),
    ensures
        0 <= sqdist(p, q),
    decreases p.len(),
{
    if p.len() > 0 {
        lemma_sqdist_nonneg(p.drop_last(), q.drop_last());
        assert((p.last() - q.last()) * (p.last() - q.last()) >= 0) by (nonlinear_arith);
    }
}

pub proof fn lemma_sqdist_sym(p: Seq<i64>, q: Seq<i64>)
    requires
        p.len() == q.len(),
    ensures
        sqdist(p, q) == sqdist(q, p),
    decreases p.len(),
{
    if p.len() > 0 {
        lemma_sqdist_sym(p.drop_last(), q.drop_last());
        assert((p.last() - q.last()) * (p.last() - q.last()) == (q.last() - p.last()) * (q.last()
            - p.last())) by (nonlinear_arith);
    }
}

pub proof fn lemma_sqdist_bound(p: Seq<i64>, q: Seq<i64>)
    requires
        p.len() == q.len(),
        forall|t: int| 0 <= t < p.len() ==> -COORD_LIMIT <= #[trigger] p[t] <= COORD_LIMIT,
        forall|t: int| 0 <= t < q.len() ==> -COORD_LIMIT <= #[trigger] q[t] <= COORD_LIMIT,
    ensures
        sqdist(p, q) <= p.len() * 4398046511104,
    decreases p.len(),
{
    if p.len() > 0 {
        lemma_sqdist_bound(p.drop_last(), q.drop_last());
        assert((p.last() - q.last()) * (p.last() - q.last()) <= 4398046511104) by (nonlinear_arith)
            requires
                -COORD_LIMIT <= p.last() <= COORD_LIMIT,
                -COORD_LIMIT <= q.last() <= COORD_LIMIT,
        ;
        assert(p.len() * 4398046511104 == (p.len() - 1) * 4398046511104 + 4398046511104)
            by (nonlinear_arith);
    }
}

/// Squared distances between bounded rows satisfy a doubled triangle
/// inequality: `|p - r|^2 <= 2|p - q|^2 + 2|q - r|^2`.
pub proof fn lemma_sqdist_double_triangle(p: Seq<i64>, q: Seq<i64>, r: Seq<i64>)
    requires
        p.len() == q.len(),
        q.len() == r.len(),
    ensures
        sqdist(p, r) <= 2 * sqdist(p, q) + 2 * sqdist(q, r),
    decreases p.len(),
{
    if p.len() > 0 {
        lemma_sqdist_double_triangle(p.drop_last(), q.drop_last(), r.drop_last());
        let a = p.last() as int;
        let b = q.last() as int;
        let c = r.last() as int;
        assert((a - c) * (a - c) <= 2 * ((a - b) * (a - b)) + 2 * ((b - c) * (b - c)))
            by (nonlinear_arith);
    }
}

impl PointSet {
    /// Rows are well-formed sequences with bounded entries; squared
    /// distances are non-negative, symmetric, and below `2^60`.
    pub proof fn lemma_sq_props(&self, i: int, j: int)
        requires
            self.wf(),
            0 <= i < self.spec_n(),
            0 <= j < self.spec_n(),
        ensures
            0 <= self.sq(i, j),
            self.sq(i, j) <= 1152921504606846976,
            self.sq(i, j) == self.sq(j, i),
    {
        self.lemma_row_props(i);
        self.lemma_row_props(j);
        lemma_sqdist_nonneg(self.row(i), self.row(j));
        lemma_sqdist_sym(self.row(i), self.row(j));
        lemma_sqdist_bound(self.row(i), self.row(j));
        assert(self.row(i).len() * 4398046511104 <= 262144 * 4398046511104) by (nonlinear_arith)
            requires
                0 <= self.row(i).len() <= 262144,
        ;
    }
}

/// Exact squared euclidean distance between points `i` and `j`.
pub fn dist2(ps: &PointSet, i: usize, j: usize) -> (r: u64)
    requires
        ps.wf(),
        i < ps.spec_n(),
        j < ps.spec_n(),
    ensures
        r == ps.sq(i as int, j as int),
        r <= 1152921504606846976,
{
    proof {
        ps.lemma_row_props(i as int);
        ps.lemma_row_props(j as int);
        ps.lemma_sq_props(i as int, j as int);
    }
    let ghost ri = ps.row(i as int);
    let ghost rj = ps.row(j as int);
    let d = ps.dim();
    let mut acc: u64 = 0;
    let mut t: usize = 0;
    while t < d
        invariant
            ps.wf(),
            i < ps.spec_n(),
            j < ps.spec_n(),
            t <= d,
            d == ps.spec_d(),
            ri == ps.row(i as int),
            rj == ps.row(j as int),
            acc == sqdist(ri.take(t as int), rj.take(t as int)),
            acc <= t * 4398046511104,
        decreases d - t,
    {
        let a = ps.coord(i, t);
        let b = ps.coord(j, t);
        let diff = a - b;
        proof {
            assert(diff * diff <= 4398046511104 && diff * diff >= 0) by (nonlinear_arith)
                requires
                    -2097152 <= diff <= 2097152,
            ;
        }
        let sq = (diff * diff) as u64;
        proof {
            assert(ri.take(t + 1).drop_last() =~= ri.take(t as int));
            assert(rj.take(t + 1).drop_last() =~= rj.take(t as int));
            assert((t + 1) * 4398046511104 == t * 4398046511104 + 4398046511104)
                by (nonlinear_arith);
            assert(t * 4398046511104 <= 262144 * 4398046511104) by (nonlinear_arith)
                requires
                    0 <= t <= 262144,
            ;
        }
        acc = acc + sq;
        t += 1;
    }
    proof {
        assert(ri.take(d as int) =~= ri);
        assert(rj.take(d as int) =~= rj);
    }
    acc
}

/// Integer square root: the largest `r` with `r * r <= x`.
pub fn isqrt(x: u64) -> (r: u64)
    ensures
        (r as int) * (r as int) <= x as int,
        (x as int) < (r as int + 1) * (r as int + 1),
{
    let mut lo: u64 = 0;
    let mut hi: u64 = 4294967296;
    proof {
        assert((hi as int) * (hi as int) > u64::MAX as int) by (nonlinear_arith)
            requires
                hi as int == 4294967296,
        ;
    }
    while lo + 1 < hi
        invariant
            lo < hi,
            hi <= 4294967296,
            (lo as int) * (lo as int) <= x as int,
            (x as int) < (hi as int) * (hi as int),
        decreases hi - lo,
    {
        let mid = lo + (hi - lo) / 2;
        proof {
            assert((mid as int) * (mid as int) <= 4294967296 * 4294967296) by (nonlinear_arith)
                requires
                    0 <= mid as int <= 4294967296,
            ;
        }
        if (mid as u128) * (mid as u128) <= x as u128 {
            lo = mid;
        } else {
            hi = mid;
        }
    }
    lo
}

/// Euclidean distance between points `i` and `j`, rounded down.
pub fn dist(ps: &PointSet, i: usize, j: usize) -> (r: u64)
    requires
        ps.wf(),
        i < ps.spec_n(),
        j < ps.spec_n(),
    ensures
        (r as int) * (r as int) <= ps.sq(i as int, j as int),
        ps.sq(i as int, j as int) < (r as int + 1) * (r as int + 1),
{
    isqrt(dist2(ps, i, j))
}

} // verus!
