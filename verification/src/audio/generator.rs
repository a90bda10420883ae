use vstd::prelude::*;

verus! {

/// A fast white noise generator: two 32 bit registers stirred by an add and an xor.
pub struct Noise {
    x1: i32,
    x2: i32,
}

/// One step of the generator on `(x1, x2)`.
pub open spec fn noise_step(x1: i32, x2: i32) -> (i32, i32) {
    let x2n = vstd::wrapping::i32_specs::wrapping_add(x2, x1);
    (x1 ^ x2n, x2n)
}

/// The registers a new generator starts from: fixed, the same for every generator.
pub open spec fn noise_seed() -> (i32, i32) {
    (0x67452301i32, -271733879i32)
}

/// The registers after `k` steps from `s`.
pub open spec fn noise_state_after(s: (i32, i32), k: nat) -> (i32, i32)
    decreases k,
{
    if k == 0 {
        s
    } else {
        let p = noise_state_after(s, (k - 1) as nat);
        noise_step(p.0, p.1)
    }
}

/// The first `n` raw samples of a generator whose registers are `s`.
pub open spec fn noise_samples(s: (i32, i32), n: nat) -> Seq<i32>
    decreases n,
{
    if n == 0 {
        Seq::empty()
    } else {
        noise_samples(s, (n - 1) as nat).push(noise_state_after(s, n).1)
    }
}

/// A step of `next_raw` after `n` samples gives the next sample in the sequence.
pub proof fn lemma_noise_next_sample(s: (i32, i32), n: nat)
    ensures
        noise_state_after(s, n + 1) == noise_step(noise_state_after(s, n).0, noise_state_after(s, n).1),
        noise_samples(s, n + 1) == noise_samples(s, n).push(noise_state_after(s, n + 1).1),
        noise_samples(s, n).len() == n,
    decreases n,
{
    if n > 0 {
        lemma_noise_next_sample(s, (n - 1) as nat);
    }
}

/// Noise is deterministic: any two new generators give the same samples, for any number of
/// calls of `next_raw`.
pub proof fn lemma_new_generators_agree(a: Noise, b: Noise, n: nat)
    requires
        a.state() == noise_seed(),
        b.state() == noise_seed(),
    ensures
        noise_samples(a.state(), n) == noise_samples(b.state(), n),
        noise_samples(a.state(), n).len() == n,
{
    lemma_noise_next_sample(a.state(), n);
}

impl Noise {
    pub closed spec fn state(self) -> (i32, i32) {
        (self.x1, self.x2)
    }

    pub fn new() -> (n: Noise)
        ensures
            n.state() == noise_seed(),
    {
        // The second register starts at the bit pattern 0xefcdab89.
        Noise { x1: 0x67452301i32, x2: -271733879i32 }
    }

    /// Advances the generator and returns the new second register, whose value spread
    /// over the whole `i32` range is the noise sample.
    pub fn next_raw(&mut self) -> (r: i32)
        ensures
            final(self).state() == noise_step(old(self).state().0, old(self).state().1),
            r == final(self).state().1,
    {
        self.x2 = self.x2.wrapping_add(self.x1);
        self.x1 = self.x1 ^ self.x2;
        self.x2
    }
}

} // verus!
