//! Static range-maximum queries over a fixed weight array.
//!
//! A sparse table stores the maximum of every power-of-two window; a
//! query combines two overlapping windows, so it costs a constant number
//! of comparisons.

use vstd::prelude::*;

verus! {

/// `2^e`.
pub open spec fn pow2(e: nat) -> nat
    decreases e,
{
    if e == 0 {
        1
    } else {
        2 * pow2((e - 1) as nat)
    }
}

proof fn lemma_pow2_mono(e1: nat, e2: nat)
    requires
        e1 <= e2,
    ensures
        pow2(e1) <= pow2(e2),
        e1 < e2 ==> 2 * pow2(e1) <= pow2(e2),
    decreases e2,
{
    if e1 < e2 {
        lemma_pow2_mono(e1, (e2 - 1) as nat);
    }
}

/// The largest value among `s[lo..hi)`; meaningful for `lo < hi <= s.len()`.
pub open spec fn seq_max(s: Seq<u64>, lo: int, hi: int) -> int
    decreases hi - lo,
{
    if hi <= lo + 1 {
        s[lo] as int
    } else {
        let m = seq_max(s, lo, hi - 1);
        if s[hi - 1] as int > m {
            s[hi - 1] as int
        } else {
            m
        }
    }
}

/// The range maximum is attained in the range and dominates it.
pub proof fn lemma_seq_max_in_range(s: Seq<u64>, lo: int, hi: int)
    requires
        0 <= lo < hi <= s.len(),
    ensures
        exists|k: int| lo <= k < hi && seq_max(s, lo, hi) == #[trigger] s[k] as int,
        forall|k: int| lo <= k < hi ==> #[trigger] s[k] as int <= seq_max(s, lo, hi),
    decreases hi - lo,
{
    if hi > lo + 1 {
        lemma_seq_max_in_range(s, lo, hi - 1);
        if s[hi - 1] as int > seq_max(s, lo, hi - 1) {
            assert(seq_max(s, lo, hi) == s[hi - 1] as int);
        }
    } else {
        assert(seq_max(s, lo, hi) == s[lo] as int);
    }
}

/// Splitting a range splits its maximum.
pub proof fn lemma_seq_max_split(s: Seq<u64>, lo: int, mid: int, hi: int)
    requires
        0 <= lo < mid < hi <= s.len(),
    ensures
        seq_max(s, lo, hi) == if seq_max(s, lo, mid) > seq_max(s, mid, hi) {
            seq_max(s, lo, mid)
        } else {
            seq_max(s, mid, hi)
        },
    decreases hi - mid,
{
    if hi > mid + 1 {
        lemma_seq_max_split(s, lo, mid, hi - 1);
    }
}

/// The maximum over a sub-range never exceeds the range's maximum.
pub proof fn lemma_seq_max_mono(s: Seq<u64>, lo: int, hi: int, lo2: int, hi2: int)
    requires
        0 <= lo <= lo2 < hi2 <= hi <= s.len(),
    ensures
        seq_max(s, lo2, hi2) <= seq_max(s, lo, hi),
{
    lemma_seq_max_in_range(s, lo2, hi2);
    lemma_seq_max_in_range(s, lo, hi);
    let k = choose|k: int| lo2 <= k < hi2 && seq_max(s, lo2, hi2) == #[trigger] s[k] as int;
    assert(s[k] as int <= seq_max(s, lo, hi));
}

/// Sparse-table range-maximum structure over a fixed weight array.
pub struct Rmq {
    weights: Vec<u64>,
    table: Vec<Vec<u64>>,
}

impl Rmq {
    /// The weight array the structure answers queries about.
    pub closed spec fn spec_weights(&self) -> Seq<u64> {
        self.weights@
    }

    /// Well-formedness: level `j` of the table stores the maximum of
    /// every window of width `2^j`, and there are enough levels for any
    /// in-bounds window.
    pub closed spec fn wf(&self) -> bool {
        &&& self.weights@.len() >= 1
        &&& self.table@.len() >= 1
        &&& pow2((self.table@.len() - 1) as nat) <= self.weights@.len()
        &&& self.weights@.len() < pow2(self.table@.len() as nat)
        &&& forall|j: int|
            0 <= j < self.table@.len() ==> #[trigger] self.table@[j]@.len() + pow2(j as nat)
                == self.weights@.len() + 1
        &&& forall|j: int, i: int|
            0 <= j < self.table@.len() && 0 <= i < self.table@[j]@.len()
                ==> #[trigger] self.table@[j]@[i] as int == seq_max(
                self.weights@,
                i,
                i + pow2(j as nat),
            )
    }

    /// Number of weights.
    pub fn len(&self) -> (r: usize)
        ensures
            r == self.spec_weights().len(),
    {
        self.weights.len()
    }

    /// Preprocesses a weight array; `None` exactly on an empty array.
    pub fn new(weights: Vec<u64>) -> (r: Option<Rmq>)
        ensures
            match r {
                Some(rmq) => {
                    &&& rmq.wf()
                    &&& rmq.spec_weights() == weights@
                    &&& weights@.len() >= 1
                },
                None => weights@.len() == 0,
            },
    {
        let n = weights.len();
        if n == 0 {
            return None;
        }
        let mut base: Vec<u64> = Vec::new();
        let mut i: usize = 0;
        while i < n
            invariant
                i <= n,
                n == weights@.len(),
                base@.len() == i,
                forall|t: int| 0 <= t < i ==> #[trigger] base@[t] == weights@[t],
            decreases n - i,
        {
            base.push(weights[i]);
            i += 1;
        }
        assert(forall|t: int|
            0 <= t < n ==> #[trigger] base@[t] as int == seq_max(weights@, t, t + 1));
        let mut table: Vec<Vec<u64>> = Vec::new();
        table.push(base);
        let mut width: usize = 1;
        while width <= n / 2
            invariant
                n == weights@.len(),
                1 <= n,
                table@.len() >= 1,
                width == pow2((table@.len() - 1) as nat),
                1 <= width <= n,
                forall|j: int|
                    0 <= j < table@.len() ==> #[trigger] table@[j]@.len() + pow2(j as nat) == n
                        + 1,
                forall|j: int, i: int|
                    0 <= j < table@.len() && 0 <= i < table@[j]@.len()
                        ==> #[trigger] table@[j]@[i] as int == seq_max(
                        weights@,
                        i,
                        i + pow2(j as nat),
                    ),
            decreases n - width,
        {
            let prev_idx = table.len() - 1;
            let wide = 2 * width;
            let mut row: Vec<u64> = Vec::new();
            let mut i: usize = 0;
            let ghost lvl = table@.len() as nat;
            proof {
                assert(pow2(lvl) == 2 * pow2((lvl - 1) as nat));
            }
            while i <= n - wide
                invariant
                    n == weights@.len(),
                    wide == 2 * width,
                    width >= 1,
                    wide <= n,
                    table@.len() == lvl,
                    lvl >= 1,
                    width == pow2((lvl - 1) as nat),
                    wide == pow2(lvl),
                    prev_idx == lvl - 1,
                    table@[lvl - 1]@.len() + width == n + 1,
                    forall|t: int|
                        0 <= t < table@[lvl - 1]@.len() ==> #[trigger] table@[lvl - 1]@[t] as int
                            == seq_max(weights@, t, t + pow2((lvl - 1) as nat)),
                    row@.len() == i,
                    i + wide <= n + 1,
                    forall|t: int|
                        0 <= t < i ==> #[trigger] row@[t] as int == seq_max(
                            weights@,
                            t,
                            t + pow2(lvl),
                        ),
                decreases n - i,
            {
                let a = table[prev_idx][i];
                let b = table[prev_idx][i + width];
                let m = if a > b {
                    a
                } else {
                    b
                };
                proof {
                    lemma_seq_max_split(weights@, i as int, i + width, i + wide);
                }
                row.push(m);
                i += 1;
            }
            proof {
                assert(row@.len() + pow2(lvl) == n + 1);
            }
            table.push(row);
            width = wide;
        }
        proof {
            assert(n < 2 * width);
            assert(pow2(table@.len() as nat) == 2 * pow2((table@.len() - 1) as nat));
        }
        Some(Rmq { weights, table })
    }

    /// The largest weight in `[lo, hi)`; `None` exactly when the range
    /// is empty or out of bounds.
    pub fn get_max(&self, lo: usize, hi: usize) -> (r: Option<u64>)
        requires
            self.wf(),
        ensures
            match r {
                Some(m) => {
                    &&& lo < hi <= self.spec_weights().len()
                    &&& m as int == seq_max(self.spec_weights(), lo as int, hi as int)
                },
                None => !(lo < hi <= self.spec_weights().len()),
            },
    {
        let n = self.weights.len();
        if lo >= hi || hi > n {
            return None;
        }
        let span = hi - lo;
        let mut level: usize = 0;
        let mut width: usize = 1;
        while width <= span / 2
            invariant
                width == pow2(level as nat),
                level <= width,
                1 <= width <= span,
                span <= n,
                n == self.spec_weights().len(),
                self.wf(),
            decreases span - width,
        {
            width = 2 * width;
            level += 1;
        }
        proof {
            assert(span < 2 * width);
            if level >= self.table@.len() {
                lemma_pow2_mono(self.table@.len() as nat, level as nat);
                assert(false);
            }
        }
        let a = self.table[level][lo];
        let b = self.table[level][hi - width];
        proof {
            let w = self.spec_weights();
            if hi - width == lo {
                assert(a as int == seq_max(w, lo as int, hi as int));
            } else {
                lemma_seq_max_split(w, lo as int, hi - width, hi as int);
                lemma_seq_max_mono(w, lo as int, lo + width, lo as int, hi - width);
                lemma_seq_max_mono(w, lo as int, hi as int, lo as int, lo + width);
            }
        }
        if a > b {
            Some(a)
        } else {
            Some(b)
        }
    }
}

} // verus!
