//! The random draws behind point scattering: a 64-bit linear congruential
//! generator and, for each scattered point, the triangle it lands on and
//! the two raw numbers from which its barycentric weights are made.

use vstd::prelude::*;

verus! {

/// Multiplier of the generator.
pub const LCG_MULTIPLIER: u64 = 6364136223846793005u64;

/// Increment of the generator.
pub const LCG_INCREMENT: u64 = 1442695040888963407u64;

/// One step of the generator: `state * LCG_MULTIPLIER + LCG_INCREMENT`
/// modulo 2^64.
pub open spec fn lcg_step(state: u64) -> u64 {
    vstd::wrapping::u64_specs::wrapping_add(
        vstd::wrapping::u64_specs::wrapping_mul(state, LCG_MULTIPLIER),
        LCG_INCREMENT,
    )
}

/// The state from which a generator seeded with `seed` starts: the seed
/// with its lowest bit set.
pub open spec fn lcg_seed_state(seed: u32) -> u64 {
    (seed as u64) | 1u64
}

/// The state after `n` steps from `state`.
pub open spec fn lcg_advance(state: u64, n: nat) -> u64
    decreases n,
{
    if n == 0 {
        state
    } else {
        lcg_step(lcg_advance(state, (n - 1) as nat))
    }
}

/// The number a state yields: its upper 31 bits.
pub open spec fn lcg_output(state: u64) -> u32 {
    (state >> 33u64) as u32
}

/// The `n`-th number (counting from 1) drawn from a generator seeded with
/// `seed`.
pub open spec fn lcg_draw(seed: u32, n: nat) -> u32 {
    lcg_output(lcg_advance(lcg_seed_state(seed), n))
}

/// A 64-bit linear congruential generator.
pub struct LcgRng {
    pub state: u64,
}

impl LcgRng {
    /// A generator seeded with `seed`.
    pub fn new(seed: u32) -> (rng: LcgRng)
        ensures
            rng.state == lcg_seed_state(seed),
    {
        LcgRng { state: (seed as u64) | 1u64 }
    }

    /// Advances the generator one step and returns the new state's output.
    pub fn next_u32(&mut self) -> (out: u32)
        ensures
            final(self).state == lcg_step(old(self).state),
            out == lcg_output(final(self).state),
    {
        self.state = self.state.wrapping_mul(LCG_MULTIPLIER).wrapping_add(LCG_INCREMENT);
        (self.state >> 33u64) as u32
    }
}

/// Where one scattered point goes: the triangle it lands on and the two
/// raw draws from which its barycentric weights are made.
#[derive(Clone, Copy, PartialEq, Eq, Structural, Debug)]
pub struct ScatterDraw {
    pub triangle: usize,
    pub r1: u32,
    pub r2: u32,
}

/// The draw of the `k`-th scattered point (counting from 0) over
/// `tri_count` triangles: each point takes three numbers from the
/// generator, the first choosing the triangle.
pub open spec fn scatter_draw(seed: u32, tri_count: nat, k: nat) -> ScatterDraw {
    ScatterDraw {
        triangle: (lcg_draw(seed, 3 * k + 1) as nat % tri_count) as usize,
        r1: lcg_draw(seed, 3 * k + 2),
        r2: lcg_draw(seed, 3 * k + 3),
    }
}

/// The draws of `count` points scattered over `tri_count` triangles with a
/// generator seeded with `seed`.
pub fn scatter_draws(tri_count: usize, count: u32, seed: u32) -> (draws: Vec<ScatterDraw>)
    requires
        tri_count > 0,
    ensures
        draws@.len() == count,
        forall|k: int| 0 <= k < count ==> #[trigger] draws@[k] == scatter_draw(seed, tri_count as nat, k as nat),
        forall|k: int| 0 <= k < count ==> #[trigger] draws@[k].triangle < tri_count,
{
    let mut rng = LcgRng::new(seed);
    let mut draws: Vec<ScatterDraw> = Vec::new();
    let mut k: u32 = 0;
    while k < count
        invariant
            tri_count > 0,
            k <= count,
            draws@.len() == k,
            rng.state == lcg_advance(lcg_seed_state(seed), 3 * k as nat),
            forall|j: int| 0 <= j < k ==> #[trigger] draws@[j] == scatter_draw(seed, tri_count as nat, j as nat),
            forall|j: int| 0 <= j < k ==> #[trigger] draws@[j].triangle < tri_count,
        decreases count - k,
    {
        let a = rng.next_u32();
        let r1 = rng.next_u32();
        let r2 = rng.next_u32();
        let triangle = (a as usize) % tri_count;
        let d = ScatterDraw { triangle, r1, r2 };
        proof {
            let base = lcg_seed_state(seed);
            assert(lcg_advance(base, (3 * k + 1) as nat) == lcg_step(lcg_advance(base, (3 * k) as nat)));
            assert(lcg_advance(base, (3 * k + 2) as nat) == lcg_step(lcg_advance(base, (3 * k + 1) as nat)));
            assert(lcg_advance(base, (3 * k + 3) as nat) == lcg_step(lcg_advance(base, (3 * k + 2) as nat)));
            assert(d == scatter_draw(seed, tri_count as nat, k as nat));
        }
        draws.push(d);
        k = k + 1;
        assert(3 * k as nat == (3 * (k - 1) + 3) as nat);
    }
    draws
}

} // verus!
