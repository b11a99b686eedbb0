//! Deterministic counter-based pseudo-random stream.
//!
//! The state advances by a fixed odd increment each step; the output word is
//! derived by multiplying the state with the state XOR a second constant and
//! folding the 128-bit product's halves together with XOR. The same seed
//! yields the same infinite sequence.

use vstd::prelude::*;

verus! {

/// Fixed odd increment added to the generation counter at each step.
pub const STATE_INCREMENT: u64 = 0xA0761D6478BD642F;

/// Constant XOR-ed into the counter before the widening multiply.
pub const MIX_CONSTANT: u64 = 0xE7037ED1A0B428DB;

/// The counter after one advance: the previous counter plus the fixed
/// increment, modulo 2^64.
pub open spec fn advanced_state(s: u64) -> u64 {
    if s + STATE_INCREMENT > u64::MAX {
        (s + STATE_INCREMENT - 0x1_0000_0000_0000_0000) as u64
    } else {
        (s + STATE_INCREMENT) as u64
    }
}

/// The output word derived from a counter value: the 128-bit product of the
/// counter and (counter XOR `MIX_CONSTANT`), high half folded into the low
/// half with XOR.
pub open spec fn mixed_output(s: u64) -> u64 {
    let t = ((s as u128) * ((s ^ MIX_CONSTANT) as u128)) as u128;
    ((t as u64) ^ ((t >> 64u128) as u64))
}

/// Relies on std::time::SystemTime::now and duration_since: the number of
/// whole seconds between the Unix epoch and the current clock reading, or
/// zero if the clock reads earlier than the epoch. Nothing is assumed about
/// the value.
#[verifier::external_body]
fn now_seconds() -> u64 {
    match std::time::SystemTime::now().duration_since(std::time::UNIX_EPOCH) {
        Ok(d) => d.as_secs(),
        Err(_) => 0,
    }
}

/// Pseudo-random number generator.
///
/// `s` is the generation counter, `r` the word most recently derived from it.
pub struct RandU64 {
    s: u64,
    r: u64,
}

impl RandU64 {
    /// The current generation counter.
    pub closed spec fn state(&self) -> u64 {
        self.s
    }

    /// Returns a new generator. With `Some(seed)` the stream that `next`
    /// produces is a function of the seed alone; with `None` the current
    /// time in seconds is used, so the stream is not reproducible.
    pub fn new(seed: Option<u64>) -> (rng: RandU64)
        ensures
            seed matches Some(v) ==> rng.state() == v,
    {
        match seed {
            Some(seed) => RandU64 { s: seed, r: rand() },
            None => RandU64 { s: now_seconds(), r: rand() },
        }
    }

    /// Advances the generation counter and refreshes the result word.
    fn increment(&mut self)
        ensures
            final(self).s == advanced_state(old(self).s),
            final(self).r == mixed_output(final(self).s),
    {
        self.s = self.s.wrapping_add(STATE_INCREMENT);
        self.r = mix_word(self.s);
    }

    /// Returns the next word of the stream.
    pub fn next(&mut self) -> (r: u64)
        ensures
            final(self).state() == advanced_state(old(self).state()),
            r == mixed_output(final(self).state()),
    {
        self.increment();
        self.r
    }
}

/// The word the mixing multiplication derives from counter value `s`.
fn mix_word(s: u64) -> (r: u64)
    ensures
        r == mixed_output(s),
{
    let a = s as u128;
    let b = (s ^ MIX_CONSTANT) as u128;
    proof {
        assert(a * b <= u128::MAX) by (nonlinear_arith)
            requires
                a <= 0xFFFF_FFFF_FFFF_FFFFu128,
                b <= 0xFFFF_FFFF_FFFF_FFFFu128,
        ;
    }
    let t = a * b;
    let lo = #[verifier::truncate] (t as u64);
    let hi = #[verifier::truncate] ((t >> 64) as u64);
    lo ^ hi
}

/// The first output word of the stream seeded with `seed`.
pub fn output_from_seed(seed: u64) -> (r: u64)
    ensures
        r == mixed_output(advanced_state(seed)),
{
    let s = seed.wrapping_add(STATE_INCREMENT);
    mix_word(s)
}

/// One word drawn from a stream seeded with the current time in seconds.
/// The result depends on the clock, so only its derivation is promised.
pub fn rand() -> (r: u64)
    ensures
        exists|t: u64| r == mixed_output(advanced_state(t)),
{
    let now = now_seconds();
    let r = output_from_seed(now);
    proof {
        assert(r == mixed_output(advanced_state(now)));
    }
    r
}

} // verus!
