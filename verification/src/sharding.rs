//! The shard-count configuration: powers of two from 2 to 4096.

use vstd::prelude::*;

verus! {

/// How many shards a user map spreads its subjects over; the variant
/// name carries the count.
#[derive(Clone, Copy, Debug, PartialEq, Eq, Structural)]
pub enum Sharding {
    S2,
    S4,
    S8,
    S16,
    S32,
    S64,
    S128,
    S256,
    S512,
    S1024,
    S2048,
    S4096,
}

impl Sharding {
    /// The number of low subject bits that select a shard.
    pub open spec fn spec_bits(self) -> u32 {
        match self {
            Sharding::S2 => 1,
            Sharding::S4 => 2,
            Sharding::S8 => 3,
            Sharding::S16 => 4,
            Sharding::S32 => 5,
            Sharding::S64 => 6,
            Sharding::S128 => 7,
            Sharding::S256 => 8,
            Sharding::S512 => 9,
            Sharding::S1024 => 10,
            Sharding::S2048 => 11,
            Sharding::S4096 => 12,
        }
    }

    /// The number of low subject bits that select a shard.
    pub fn bits(self) -> (r: u32)
        ensures
            r == self.spec_bits(),
            1 <= r <= 12,
    {
        match self {
            Sharding::S2 => 1,
            Sharding::S4 => 2,
            Sharding::S8 => 3,
            Sharding::S16 => 4,
            Sharding::S32 => 5,
            Sharding::S64 => 6,
            Sharding::S128 => 7,
            Sharding::S256 => 8,
            Sharding::S512 => 9,
            Sharding::S1024 => 10,
            Sharding::S2048 => 11,
            Sharding::S4096 => 12,
        }
    }

    /// The shard count: two to the power of `bits`.
    pub fn count(&self) -> (r: usize)
        ensures
            r == (1usize << self.spec_bits()),
            2 <= r <= 4096,
    {
        let b = self.bits();
        let r = 1usize << b;
        proof {
            let bb = self.spec_bits();
            assert(1 <= bb <= 12 ==> 2 <= (1usize << bb) <= 4096) by (bit_vector);
        }
        r
    }

    /// The low-bits mask selecting a shard: the count minus one.
    pub fn mask(self) -> (r: u32)
        ensures
            r == (1u32 << self.spec_bits()) - 1,
    {
        let b = self.bits();
        proof {
            let bb = self.spec_bits();
            assert(1 <= bb <= 12 ==> (1u32 << bb) >= 1) by (bit_vector);
        }
        (1u32 << b) - 1
    }
}

} // verus!
