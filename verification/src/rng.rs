use vstd::prelude::*;

verus! {

/// The xorshift64 state transition (three shift-xor steps).
pub open spec fn xorshift_step(x: u64) -> u64 {
    let a = x ^ (x >> 12u64);
    let b = a ^ (a << 25u64);
    b ^ (b >> 27u64)
}

/// The multiplier applied to the state to produce an output (xorshift64*).
pub const XORSHIFT_MULTIPLIER: u64 = 0x2545_F491_4F6C_DD1D;

/// The output drawn from a state that has just been advanced.
pub open spec fn xorshift_output(state: u64) -> u64 {
    ((state as int * XORSHIFT_MULTIPLIER as int) % 0x1_0000_0000_0000_0000int) as u64
}

/// The state a generator seeded with `seed` starts in.
pub open spec fn seeded_state(seed: u64) -> u64 {
    (seed ^ 0x9E37_79B9_7F4A_7C15u64) | 1u64
}

/// xorshift64* generator. Its algorithm is fixed here so that a seed always
/// yields the same game.
pub struct Rng {
    state: u64,
}

impl Rng {
    /// The generator's internal state.
    pub closed spec fn state(&self) -> u64 {
        self.state
    }

    pub fn new(seed: u64) -> (r: Self)
        ensures
            r.state() == seeded_state(seed),
    {
        Rng { state: (seed ^ 0x9E37_79B9_7F4A_7C15u64) | 1u64 }
    }

    pub fn next_u64(&mut self) -> (out: u64)
        ensures
            final(self).state() == xorshift_step(old(self).state()),
            out == xorshift_output(xorshift_step(old(self).state())),
    {
        let mut x = self.state;
        x = x ^ (x >> 12u64);
        x = x ^ (x << 25u64);
        x = x ^ (x >> 27u64);
        self.state = x;
        x.wrapping_mul(XORSHIFT_MULTIPLIER)
    }

    /// An integer in `[0, n)`; `0` without drawing when `n == 0`.
    pub fn below(&mut self, n: u64) -> (out: u64)
        ensures
            n == 0 ==> out == 0 && final(self).state() == old(self).state(),
            n > 0 ==> final(self).state() == xorshift_step(old(self).state()) && out
                == xorshift_output(xorshift_step(old(self).state())) % n,
            n > 0 ==> out < n,
    {
        if n == 0 {
            0
        } else {
            self.next_u64() % n
        }
    }
}

} // verus!
