//! Deterministic pseudo-random sample generation for simulation runs.
//!
//! A linear congruential generator drives the stream, so one seed
//! reproduces the same batches on every machine: each draw is a pure
//! function of the seed and the draw's position.  The generator worker
//! numbers its batches with a monotone counter that becomes the batch
//! identifier of the emitted sensor-batch message.

use crate::features::{samples_wf, Sample, SAMPLE_BOUND};
use crate::stats::SERIES_CAP;
use crate::wire::{build_batch_message, spec_batch_json};
use vstd::prelude::*;
use vstd::wrapping::u64_specs;

verus! {

/// The multiplier of the congruence.
pub const LCG_MUL: u64 = 6364136223846793005;

/// The increment of the congruence.
pub const LCG_INC: u64 = 1442695040888963407;

/// One step of the congruence.
pub open spec fn spec_lcg_next(s: u64) -> u64 {
    u64_specs::wrapping_add(u64_specs::wrapping_mul(s, LCG_MUL), LCG_INC)
}

/// The generator state after a number of draws from a seed.
pub open spec fn spec_lcg_state(seed: u64, draws: nat) -> u64
    decreases draws,
{
    if draws == 0 {
        seed
    } else {
        spec_lcg_next(spec_lcg_state(seed, (draws - 1) as nat))
    }
}

/// The reading value one state yields within an inclusive range.
pub open spec fn spec_value_in(state: u64, lo: i64, hi: i64) -> i64
    recommends
        lo <= hi,
{
    (lo + state as int % (hi - lo + 1)) as i64
}

/// The reading at one position of a seeded stream: three draws per
/// sample, one per axis.
pub open spec fn spec_sample_at(seed: u64, j: nat, lo: i64, hi: i64) -> Sample {
    Sample {
        x: spec_value_in(spec_lcg_state(seed, 3 * j + 1), lo, hi),
        y: spec_value_in(spec_lcg_state(seed, 3 * j + 2), lo, hi),
        z: spec_value_in(spec_lcg_state(seed, 3 * j + 3), lo, hi),
    }
}

/// Drawing in two stages is drawing once: the state after `a + b`
/// draws is the state after `b` draws from the state after `a` draws.
proof fn lemma_lcg_compose(seed: u64, a: nat, b: nat)
    ensures
        spec_lcg_state(seed, a + b) == spec_lcg_state(spec_lcg_state(seed, a), b),
    decreases b,
{
    if b > 0 {
        lemma_lcg_compose(seed, a, (b - 1) as nat);
        assert(a + b == (a + (b - 1) as nat) + 1);
    }
}

/// The batch a seeded stream yields from a given state: one reading
/// per position.
pub open spec fn spec_batch_of(state: u64, n: nat, lo: i64, hi: i64) -> Seq<Sample> {
    Seq::new(n, |j: int| spec_sample_at(state, j as nat, lo, hi))
}

/// A deterministic source of pseudo-random readings.
pub struct SampleGenerator {
    /// The seed this stream started from.
    pub seed: u64,
    /// How many draws have been taken.
    pub draws: u64,
    /// The current congruence state.
    pub state: u64,
}

impl SampleGenerator {
    /// The state field always equals the drawn-to state of the stream.
    pub open spec fn wf(&self) -> bool {
        self.state == spec_lcg_state(self.seed, self.draws as nat)
    }

    /// A stream positioned at its seed.
    pub fn new(seed: u64) -> (g: Self)
        ensures
            g.wf(),
            g.seed == seed,
            g.draws == 0,
    {
        SampleGenerator { seed, draws: 0, state: seed }
    }

    /// Takes one draw and returns a value in the inclusive range.
    pub fn next_in_range(&mut self, lo: i64, hi: i64) -> (r: i64)
        requires
            old(self).wf(),
            old(self).draws < u64::MAX,
            -SAMPLE_BOUND <= lo <= hi <= SAMPLE_BOUND,
        ensures
            final(self).wf(),
            final(self).seed == old(self).seed,
            final(self).draws == old(self).draws + 1,
            r == spec_value_in(spec_lcg_state(old(self).seed, (old(self).draws + 1) as nat), lo, hi),
            lo <= r <= hi,
    {
        self.state = self.state.wrapping_mul(LCG_MUL).wrapping_add(LCG_INC);
        self.draws = self.draws + 1;
        let span: u64 = ((hi - lo) as u64) + 1;
        let off: u64 = self.state % span;
        lo + (off as i64)
    }

    /// Generates one batch of readings: three draws per sample, each
    /// reading a pure function of the seed and its position.
    pub fn generate_batch(&mut self, n: usize, lo: i64, hi: i64) -> (r: Vec<Sample>)
        requires
            old(self).wf(),
            old(self).draws + 3 * n <= u64::MAX,
            n <= SERIES_CAP,
            -SAMPLE_BOUND <= lo <= hi <= SAMPLE_BOUND,
        ensures
            final(self).wf(),
            final(self).seed == old(self).seed,
            final(self).draws == old(self).draws + 3 * n,
            r@.len() == n,
            samples_wf(r@),
            forall|j: int|
                0 <= j < n ==> #[trigger] r@[j] == spec_sample_at(
                    old(self).state,
                    j as nat,
                    lo,
                    hi,
                ),
        decreases n,
    {
        let mut out: Vec<Sample> = Vec::new();
        let mut j: usize = 0;
        let ghost seed0 = self.seed;
        let ghost draws0 = self.draws;
        let ghost state0 = self.state;
        while j < n
            invariant
                0 <= j <= n,
                n <= SERIES_CAP,
                -SAMPLE_BOUND <= lo <= hi <= SAMPLE_BOUND,
                self.wf(),
                self.seed == seed0,
                self.draws == draws0 + 3 * j,
                draws0 + 3 * n <= u64::MAX,
                state0 == spec_lcg_state(seed0, draws0 as nat),
                out@.len() == j,
                samples_wf(out@),
                forall|m: int|
                    0 <= m < j ==> #[trigger] out@[m] == spec_sample_at(state0, m as nat, lo, hi),
            decreases n - j,
        {
            let x = self.next_in_range(lo, hi);
            let y = self.next_in_range(lo, hi);
            let z = self.next_in_range(lo, hi);
            let s = Sample { x, y, z };
            out.push(s);
            proof {
                lemma_lcg_compose(seed0, draws0 as nat, (3 * j + 1) as nat);
                lemma_lcg_compose(seed0, draws0 as nat, (3 * j + 2) as nat);
                lemma_lcg_compose(seed0, draws0 as nat, (3 * j + 3) as nat);
                assert((draws0 + 3 * j + 1) as nat == draws0 as nat + (3 * j + 1) as nat);
                assert((draws0 + 3 * j + 2) as nat == draws0 as nat + (3 * j + 2) as nat);
                assert((draws0 + 3 * j + 3) as nat == draws0 as nat + (3 * j + 3) as nat);
                assert(s == spec_sample_at(state0, j as nat, lo, hi));
                assert(samples_wf(out@));
            }
            j += 1;
        }
        out
    }
}

/// The simulation-side sample source: numbers each generated batch and
/// emits it as a canonical sensor-batch message under that number.
pub struct GeneratorWorker {
    /// The next batch identifier; counts processed generation rounds.
    pub counter: u64,
    /// The reading source.
    pub rng: SampleGenerator,
}

impl GeneratorWorker {
    /// A fresh source starting at batch zero.
    pub fn new(seed: u64) -> (w: Self)
        ensures
            w.counter == 0,
            w.rng.wf(),
            w.rng.draws == 0,
    {
        GeneratorWorker { counter: 0, rng: SampleGenerator::new(seed) }
    }

    /// Produces the next numbered batch message and advances the counter.
    pub fn next_batch_message(&mut self, batch_size: usize, lo: i64, hi: i64) -> (r: Vec<u8>)
        requires
            old(self).rng.wf(),
            old(self).counter < u64::MAX,
            old(self).rng.draws + 3 * batch_size <= u64::MAX,
            batch_size <= SERIES_CAP,
            -SAMPLE_BOUND <= lo <= hi <= SAMPLE_BOUND,
        ensures
            final(self).rng.wf(),
            final(self).rng.seed == old(self).rng.seed,
            final(self).rng.draws == old(self).rng.draws + 3 * batch_size,
            final(self).counter == old(self).counter + 1,
            r@ == spec_batch_json(
                old(self).counter,
                spec_batch_of(old(self).rng.state, batch_size as nat, lo, hi),
            ),
    {
        let samples = self.rng.generate_batch(batch_size, lo, hi);
        let msg = build_batch_message(self.counter, &samples);
        self.counter = self.counter + 1;
        proof {
            assert(samples@ =~= spec_batch_of(old(self).rng.state, batch_size as nat, lo, hi));
        }
        msg
    }
}

} // verus!
