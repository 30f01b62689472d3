use vstd::prelude::*;

verus! {

/// Fixed seed of the level generator's xorshift stream.
const LEVEL_SEED: u64 = 0x9E3779B97F4A7C15;

/// Draws the height of each new node from a geometric distribution with
/// ratio one half, capped at a configured maximum, so that a level-`k`
/// link is carried by roughly one node in `2^k`.
///
/// The draw is pseudo-random: a fixed-seed xorshift stream, so a given
/// sequence of insertions always builds the same shape, which keeps the
/// structure deterministic under test while still spreading heights
/// geometrically.
pub struct GeometricalLevelGenerator {
    pub(crate) total: usize,
    pub(crate) state: u64,
}

impl GeometricalLevelGenerator {
    /// `total` is the largest height a node may get; the sentinel head is
    /// built with exactly this height. A height above 64 would be useless
    /// on any supported word size, so the bound is part of the contract.
    pub(crate) fn new(total: usize) -> (r: GeometricalLevelGenerator)
        requires
            1 <= total <= 64,
        ensures
            r.total == total,
    {
        GeometricalLevelGenerator { total, state: LEVEL_SEED }
    }

    /// The configured maximum height.
    pub(crate) fn total(&self) -> (r: usize)
        ensures
            r == self.total,
    {
        self.total
    }

    /// Next height: the number of leading ones in a fresh pseudo-random
    /// word, capped at `total`, so height `k < total` comes up with
    /// probability `2^-(k+1)`.
    pub(crate) fn random(&mut self) -> (level: usize)
        ensures
            final(self).total == old(self).total,
            level <= old(self).total,
    {
        let mut x: u64 = self.state;
        x = x ^ (x << 13u64);
        x = x ^ (x >> 7u64);
        x = x ^ (x << 17u64);
        self.state = x;
        let mut level: usize = 0;
        while level < self.total && (x & 1u64) == 1u64
            invariant
                level <= self.total,
            decreases self.total - level,
        {
            level = level + 1;
            x = x >> 1u64;
        }
        level
    }
}

} // verus!
