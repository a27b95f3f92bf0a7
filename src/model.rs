use vstd::prelude::*;
use vstd::slice::slice_subrange;

verus! {

/// The number of features each linear model reads.
pub const FEAT: usize = 7;

/// The expert weights as stored: IEEE-754 single-precision bit patterns, or
/// signed bytes that a common scale (itself a single-precision bit pattern)
/// multiplies.
#[derive(Debug, Clone, PartialEq, Eq)]
pub enum ExpertWeights {
    Bits(Vec<u32>),
    Scaled { scale: u32, q: Vec<i8> },
}

/// A router over `e` linear experts. Row `k` of either matrix is the seven
/// weights at offset `7 * k`. Weights are single-precision bit patterns.
#[derive(Debug, Clone, PartialEq, Eq)]
pub struct Model {
    pub e: u16,
    /// Router weights, `e * 7` of them.
    pub wr: Vec<u32>,
    /// Expert weights, `e * 7` of them.
    pub we: ExpertWeights,
}

impl ExpertWeights {
    /// How many weights are stored.
    pub open spec fn spec_len(&self) -> nat {
        match self {
            ExpertWeights::Bits(v) => v@.len(),
            ExpertWeights::Scaled { q, .. } => q@.len(),
        }
    }
}

impl Model {
    /// Both matrices hold `e` rows of seven weights.
    pub open spec fn wf(&self) -> bool {
        self.wr@.len() == self.e as nat * 7 && self.we.spec_len() == self.e as nat * 7
    }

    /// Router row `k`.
    pub fn wr_row(&self, k: usize) -> (r: &[u32])
        requires
            self.wf(),
            k < self.e,
        ensures
            r@ == self.wr@.subrange(k * 7, k * 7 + 7),
    {
        slice_subrange(self.wr.as_slice(), k * FEAT, k * FEAT + FEAT)
    }
}

} // verus!
