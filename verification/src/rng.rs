//! A seeded pseudo-random source.
//!
//! The maze generator needs exactly one capability from randomness: pick a
//! uniformly distributed element out of a small non-empty list.  The stream
//! is a plain xorshift on 64 bits of state, seeded by the caller, so that
//! the same seed always yields the same sequence of picks.

use vstd::prelude::*;

verus! {

/// The error a selection can report: the list to pick from was empty.
#[derive(Clone, Copy, Debug, PartialEq, Eq, Structural)]
pub enum RngError {
    EmptySelection,
}

/// The state transition of the stream: one xorshift round on 64 bits.
pub open spec fn next_state(s: u64) -> u64 {
    let a = s ^ (s << 13);
    let b = a ^ (a >> 7);
    b ^ (b << 17)
}

/// A seeded pseudo-random stream.
pub struct Rng {
    state: u64,
}

impl Rng {
    /// The current 64-bit state of the stream.
    pub closed spec fn state_spec(self) -> u64 {
        self.state
    }

    /// Start a stream from a 64-bit seed.
    pub fn seed(s: u64) -> (r: Rng)
        ensures
            r.state_spec() == s,
    {
        Rng { state: s }
    }

    /// Advance the stream one round and return the new raw value.
    pub fn next_u64(&mut self) -> (r: u64)
        ensures
            r == next_state(old(self).state_spec()),
            final(self).state_spec() == r,
    {
        let s = self.state;
        let a = s ^ (s << 13u64);
        let b = a ^ (a >> 7u64);
        let c = b ^ (b << 17u64);
        self.state = c;
        c
    }

    /// Draw an index below `len`, advancing the stream one round.
    pub fn pick_index(&mut self, len: usize) -> (r: usize)
        requires
            1 <= len,
        ensures
            final(self).state_spec() == next_state(old(self).state_spec()),
            r < len,
            r as int == next_state(old(self).state_spec()) as int % len as int,
    {
        let x = self.next_u64();
        let idx = (x % (len as u64)) as usize;
        idx
    }

    /// Pick a uniformly random element of `xs`; report `EmptySelection`
    /// (leaving the stream untouched) when `xs` is empty.
    pub fn pick(&mut self, xs: &Vec<(usize, usize)>) -> (r: Result<(usize, usize), RngError>)
        ensures
            xs@.len() == 0 ==> r == Result::<(usize, usize), RngError>::Err(RngError::EmptySelection)
                && final(self).state_spec() == old(self).state_spec(),
            xs@.len() > 0 ==> {
                &&& final(self).state_spec() == next_state(old(self).state_spec())
                &&& r == Result::<(usize, usize), RngError>::Ok(
                    xs@[next_state(old(self).state_spec()) as int % xs@.len() as int],
                )
            },
    {
        if xs.len() == 0 {
            Err(RngError::EmptySelection)
        } else {
            let idx = self.pick_index(xs.len());
            Ok(xs[idx])
        }
    }
}

} // verus!
