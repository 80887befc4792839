//! A small seeded pseudo-random generator.
//!
//! Every randomized stage of the pipeline draws from this generator, so a
//! construction is reproducible from its seed; the caller picks the seed.

use vstd::prelude::*;

verus! {

/// Addition modulo `2^64`.
pub open spec fn wrap_add(a: u64, b: u64) -> u64 {
    ((a as int + b as int) % 0x10000000000000000) as u64
}

/// Multiplication modulo `2^64`.
pub open spec fn wrap_mul(a: u64, b: u64) -> u64 {
    ((a as int * b as int) % 0x10000000000000000) as u64
}

/// One output step of the mixer on state `s`.
pub open spec fn mix64(s: u64) -> u64 {
    let z0 = wrap_mul(s ^ (s >> 30), 0xBF58476D1CE4E5B9);
    let z1 = wrap_mul(z0 ^ (z0 >> 27), 0x94D049BB133111EB);
    z1 ^ (z1 >> 31)
}

fn add_wrapping(a: u64, b: u64) -> (r: u64)
    ensures
        r == wrap_add(a, b),
{
    let wide = a as u128 + b as u128;
    (wide % 0x10000000000000000u128) as u64
}

fn mul_wrapping(a: u64, b: u64) -> (r: u64)
    ensures
        r == wrap_mul(a, b),
{
    proof {
        assert((a as int) * (b as int) < 0x100000000000000000000000000000000) by (nonlinear_arith)
            requires
                0 <= a as int <= 0xFFFFFFFFFFFFFFFF,
                0 <= b as int <= 0xFFFFFFFFFFFFFFFF,
        ;
    }
    let wide = a as u128 * b as u128;
    (wide % 0x10000000000000000u128) as u64
}

/// The state after `k` draws.
pub open spec fn state_after(s: u64, k: nat) -> u64
    decreases k,
{
    if k == 0 {
        s
    } else {
        wrap_add(state_after(s, (k - 1) as nat), 0x9E3779B97F4A7C15)
    }
}

/// The sum of the low sixteen bits of the first `k` draws from state
/// `s`.
pub open spec fn uniform_sum(s: u64, k: nat) -> int
    decreases k,
{
    if k == 0 {
        0
    } else {
        uniform_sum(s, (k - 1) as nat) + mix64(state_after(s, k)) % 65536
    }
}

/// The value one gaussian draw yields from state `s`.
pub open spec fn gauss_val(s: u64) -> int {
    uniform_sum(s, 12) - 393216
}

/// Walking the state is compositional.
pub proof fn lemma_state_after_add(s: u64, a: nat, b: nat)
    ensures
        state_after(s, a + b) == state_after(state_after(s, a), b),
    decreases b,
{
    if b > 0 {
        lemma_state_after_add(s, a, (b - 1) as nat);
        assert(a + b == (a + (b - 1) as nat) + 1);
    }
}

/// Pseudo-random generator state; successive draws walk the state by a
/// fixed odd increment and mix it.
pub struct Prng {
    state: u64,
}

impl Prng {
    /// Current state.
    pub closed spec fn spec_state(&self) -> u64 {
        self.state
    }

    /// Starts a generator from a seed.
    pub fn new(seed: u64) -> (r: Prng)
        ensures
            r.spec_state() == seed,
    {
        Prng { state: seed }
    }

    /// Draws one pseudo-random word; the draw is a fixed function of the
    /// state, which advances by a fixed increment.
    pub fn next_u64(&mut self) -> (r: u64)
        ensures
            final(self).spec_state() == wrap_add(old(self).spec_state(), 0x9E3779B97F4A7C15),
            r == mix64(final(self).spec_state()),
    {
        self.state = add_wrapping(self.state, 0x9E3779B97F4A7C15);
        let s = self.state;
        let z0 = mul_wrapping(s ^ (s >> 30u64), 0xBF58476D1CE4E5B9);
        let z1 = mul_wrapping(z0 ^ (z0 >> 27u64), 0x94D049BB133111EB);
        z1 ^ (z1 >> 31u64)
    }

    /// Draws a value below `bound`: the next word, reduced.
    pub fn below(&mut self, bound: u64) -> (r: u64)
        requires
            bound >= 1,
        ensures
            final(self).spec_state() == wrap_add(old(self).spec_state(), 0x9E3779B97F4A7C15),
            r == mix64(final(self).spec_state()) % bound,
            r < bound,
    {
        let w = self.next_u64();
        w % bound
    }

    /// Draws an approximately gaussian value with standard deviation
    /// about `65536`: the centered sum of the low sixteen bits of the
    /// next twelve draws.
    pub fn gauss(&mut self) -> (r: i64)
        ensures
            final(self).spec_state() == state_after(old(self).spec_state(), 12),
            r == gauss_val(old(self).spec_state()),
            -393216 <= r < 393216,
    {
        let ghost s0 = self.spec_state();
        let mut sum: i64 = 0;
        let mut k: usize = 0;
        while k < 12
            invariant
                k <= 12,
                0 <= sum <= k * 65535,
                self.spec_state() == state_after(s0, k as nat),
                sum == uniform_sum(s0, k as nat),
            decreases 12 - k,
        {
            let u = self.below(65536);
            proof {
                assert(k * 65535 + 65535 == (k + 1) * 65535) by (nonlinear_arith);
                assert((k + 1) * 65535 <= 12 * 65535) by (nonlinear_arith)
                    requires
                        0 <= k as int + 1 <= 12,
                ;
            }
            sum = sum + (u as i64);
            k += 1;
        }
        sum - 393216
    }
}

} // verus!
