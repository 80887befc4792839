//! Cut-weight transform: rescales minimum-spanning-tree weights into
//! approximate linkage weights for the single-linkage reconstruction.
//!
//! Weights enter as squared distances. The square-root mode scales the
//! rounded plain distance by the configured factor; the theoretical mode
//! scales the squared weight by the squared factor. Both are monotone,
//! so the ascending edge order survives the transform.

use vstd::prelude::*;
use crate::points::isqrt;
use crate::spanning_tree::{Edge, SpanningTree};

verus! {

/// Largest accepted numerator or denominator of the scaling factor.
pub const ALPHA_LIMIT: u64 = 2147483648;

/// Which rescaling the transform applies.
#[derive(Clone, Copy, Debug, PartialEq, Eq, Structural)]
pub enum MultiplyMode {
    SquareRoot,
    Theoretical,
}

/// Configuration of the transform: the scaling factor as a fraction,
/// and the mode.
#[derive(Clone, Copy, Debug)]
pub struct CwParams {
    pub alpha_num: u64,
    pub alpha_den: u64,
    pub mode: MultiplyMode,
}

/// The integer square root, as the unique root of its defining
/// inequalities.
pub open spec fn spec_isqrt(w: int) -> int {
    choose|r: int| 0 <= r && #[trigger] (r * r) <= w && w < (r + 1) * (r + 1)
}

/// A witness of the defining inequalities pins `spec_isqrt` down.
pub proof fn lemma_isqrt_unique(w: int, r: int)
    requires
        0 <= r,
        r * r <= w,
        w < (r + 1) * (r + 1),
    ensures
        spec_isqrt(w) == r,
{
    assert(0 <= r && r * r <= w && w < (r + 1) * (r + 1));
    let s = spec_isqrt(w);
    assert(0 <= s && s * s <= w && w < (s + 1) * (s + 1));
    if s < r {
        assert((s + 1) * (s + 1) <= r * r) by (nonlinear_arith)
            requires
                0 <= s,
                s + 1 <= r,
        ;
        assert(false);
    }
    if r < s {
        assert((r + 1) * (r + 1) <= s * s) by (nonlinear_arith)
            requires
                0 <= r,
                r + 1 <= s,
        ;
        assert(false);
    }
}

impl CwParams {
    /// The factor is a positive fraction within bounds.
    pub open spec fn wf(&self) -> bool {
        &&& 1 <= self.alpha_num <= ALPHA_LIMIT
        &&& 1 <= self.alpha_den <= ALPHA_LIMIT
    }

    /// The weight the transform assigns for input weight `w`, saturating
    /// at the largest representable weight.
    pub open spec fn cw_of(&self, w: u64) -> int {
        let a = self.alpha_num as int;
        let d = self.alpha_den as int;
        let v = match self.mode {
            MultiplyMode::SquareRoot => (a * spec_isqrt(w as int)) / d,
            MultiplyMode::Theoretical => (a * a * (w as int)) / (d * d),
        };
        if v > u64::MAX as int {
            u64::MAX as int
        } else {
            v
        }
    }

    /// Rescales one weight.
    pub fn apply(&self, w: u64) -> (r: u64)
        requires
            self.wf(),
        ensures
            r == self.cw_of(w),
    {
        match self.mode {
            MultiplyMode::SquareRoot => {
                let s = isqrt(w);
                proof {
                    lemma_isqrt_unique(w as int, s as int);
                    assert((s as int) * (s as int) <= u64::MAX as int);
                    assert(s as int <= 4294967296) by (nonlinear_arith)
                        requires
                            0 <= s as int,
                            (s as int) * (s as int) <= 0xFFFFFFFFFFFFFFFF,
                    ;
                    assert((self.alpha_num as int) * (s as int) <= 2147483648 * 4294967296)
                        by (nonlinear_arith)
                        requires
                            0 <= self.alpha_num as int <= 2147483648,
                            0 <= s as int <= 4294967296,
                    ;
                }
                let wide = (self.alpha_num as u128) * (s as u128) / (self.alpha_den as u128);
                if wide > u64::MAX as u128 {
                    u64::MAX
                } else {
                    wide as u64
                }
            },
            MultiplyMode::Theoretical => {
                proof {
                    assert((self.alpha_num as int) * (self.alpha_num as int)
                        <= 0x4000000000000000) by (nonlinear_arith)
                        requires
                            0 <= self.alpha_num as int <= 2147483648,
                    ;
                    assert((self.alpha_num as int) * (self.alpha_num as int) * (w as int)
                        < 0x100000000000000000000000000000000) by (nonlinear_arith)
                        requires
                            0 <= self.alpha_num as int <= 2147483648,
                            0 <= w as int <= 0xFFFFFFFFFFFFFFFF,
                    ;
                    assert((self.alpha_den as int) * (self.alpha_den as int)
                        <= 2147483648 * 2147483648) by (nonlinear_arith)
                        requires
                            0 <= self.alpha_den as int <= 2147483648,
                    ;
                    assert((self.alpha_den as int) * (self.alpha_den as int) >= 1)
                        by (nonlinear_arith)
                        requires
                            1 <= self.alpha_den as int,
                    ;
                }
                let num = (self.alpha_num as u128) * (self.alpha_num as u128) * (w as u128);
                let den = (self.alpha_den as u128) * (self.alpha_den as u128);
                let wide = num / den;
                if wide > u64::MAX as u128 {
                    u64::MAX
                } else {
                    wide as u64
                }
            },
        }
    }

    /// Rescales every tree weight, keeping the endpoints and their
    /// order.
    pub fn compute_weights(&self, tree: &SpanningTree) -> (r: Vec<Edge>)
        requires
            self.wf(),
        ensures
            r@.len() == tree.edges@.len(),
            forall|t: int|
                0 <= t < r@.len() ==> (#[trigger] r@[t]).0 == tree.edges@[t].0 && r@[t].1
                    == tree.edges@[t].1 && r@[t].2 == self.cw_of(tree.edges@[t].2),
    {
        let mut out: Vec<Edge> = Vec::new();
        let mut t: usize = 0;
        while t < tree.edges.len()
            invariant
                self.wf(),
                t <= tree.edges@.len(),
                out@.len() == t,
                forall|x: int|
                    0 <= x < t ==> (#[trigger] out@[x]).0 == tree.edges@[x].0 && out@[x].1
                        == tree.edges@[x].1 && out@[x].2 == self.cw_of(tree.edges@[x].2),
            decreases tree.edges@.len() - t,
        {
            let e = tree.edges[t];
            let w2 = self.apply(e.2);
            out.push(Edge(e.0, e.1, w2));
            t += 1;
        }
        out
    }

    /// The transform is monotone: heavier edges stay at least as heavy.
    pub proof fn lemma_monotone(&self, w1: u64, w2: u64)
        requires
            self.wf(),
            w1 <= w2,
        ensures
            self.cw_of(w1) <= self.cw_of(w2),
    {
        let a = self.alpha_num as int;
        let d = self.alpha_den as int;
        match self.mode {
            MultiplyMode::SquareRoot => {
                let s1 = spec_isqrt(w1 as int);
                let s2 = spec_isqrt(w2 as int);
                lemma_isqrt_exists(w1 as int);
                lemma_isqrt_exists(w2 as int);
                if s1 > s2 {
                    assert(s2 + 1 <= s1);
                    assert((s2 + 1) * (s2 + 1) <= s1 * s1) by (nonlinear_arith)
                        requires
                            0 <= s2,
                            s2 + 1 <= s1,
                    ;
                    assert(false);
                }
                assert(a * s1 <= a * s2) by (nonlinear_arith)
                    requires
                        s1 <= s2,
                        0 <= a,
                ;
                vstd::arithmetic::div_mod::lemma_div_is_ordered(a * s1, a * s2, d);
            },
            MultiplyMode::Theoretical => {
                assert(a * a * (w1 as int) <= a * a * (w2 as int)) by (nonlinear_arith)
                    requires
                        w1 as int <= w2 as int,
                        0 <= a,
                ;
                assert(d * d >= 1) by (nonlinear_arith)
                    requires
                        d >= 1,
                ;
                vstd::arithmetic::div_mod::lemma_div_is_ordered(
                    a * a * (w1 as int),
                    a * a * (w2 as int),
                    d * d,
                );
            },
        }
    }
}

/// Every weight has an integer square root.
pub proof fn lemma_isqrt_exists(w: int)
    requires
        0 <= w,
    ensures
        0 <= spec_isqrt(w),
        spec_isqrt(w) * spec_isqrt(w) <= w,
        w < (spec_isqrt(w) + 1) * (spec_isqrt(w) + 1),
    decreases w,
{
    if w == 0 {
        lemma_isqrt_unique(0, 0);
    } else {
        lemma_isqrt_exists(w - 1);
        let s = spec_isqrt(w - 1);
        if w < (s + 1) * (s + 1) {
            lemma_isqrt_unique(w, s);
        } else {
            assert(w == (s + 1) * (s + 1));
            assert(w < (s + 2) * (s + 2)) by (nonlinear_arith)
                requires
                    0 <= s,
                    w == (s + 1) * (s + 1),
            ;
            lemma_isqrt_unique(w, s + 1);
        }
    }
}

} // verus!
