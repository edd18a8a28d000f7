use vstd::prelude::*;
use vstd::wrapping::i64_specs::{wrapping_add, wrapping_mul};

verus! {

/// The linear-congruential step before the sign is dropped:
/// `x * 1103515245 + 12345`, wrapping on overflow.
pub open spec fn lcg_mix(x: i64) -> i64 {
    wrapping_add(wrapping_mul(x, 1103515245), 12345)
}

/// The next state: the absolute value of the mixed state, saturating at
/// `i64::MAX` for `i64::MIN`, so that states stay non-negative.
pub open spec fn lcg_step(x: i64) -> i64 {
    let m = lcg_mix(x);
    if m == i64::MIN {
        i64::MAX
    } else if m < 0 {
        (-m) as i64
    } else {
        m
    }
}

/// The value drawn from a (non-negative) state: bits 16 to 30.
pub open spec fn lcg_output(state: i64) -> int {
    (state as int / 65536) % 32768
}

/// A deterministic pseudo-random sequence of integers in `0..32768`, fixed by
/// its seed.
pub struct Rand {
    next: i64,
}

impl Rand {
    pub closed spec fn state(&self) -> i64 {
        self.next
    }

    /// A generator seeded with 1.
    pub fn new() -> (r: Self)
        ensures
            r.state() == 1,
    {
        Rand { next: 1 }
    }

    /// A generator seeded with `seed`.
    pub fn srand(seed: i64) -> (r: Self)
        ensures
            r.state() == seed,
    {
        let mut n = Rand::new();
        n.next = seed;
        n
    }

    /// Advances the state and returns the next value of the sequence.
    pub fn rand(&mut self) -> (r: i64)
        ensures
            final(self).state() == lcg_step(old(self).state()),
            r == lcg_output(final(self).state()),
            0 <= r < 32768,
    {
        let m = self.next.wrapping_mul(1103515245).wrapping_add(12345);
        self.next = if m == i64::MIN {
            i64::MAX
        } else if m < 0 {
            -m
        } else {
            m
        };
        let s = self.next as u64;
        (s / 65536 % 32768) as i64
    }
}

} // verus!
