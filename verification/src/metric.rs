//! The Fano metric in fixed point.

use vstd::prelude::*;

verus! {

/// One bit of metric. The Fano metric is kept in fixed point, in units of
/// 2^-32 bit, so that sums and comparisons are exact.
pub const SCALE: i64 = 0x1_0000_0000;

/// The largest magnitude of a weight that the decoder takes. It keeps the
/// metric of every path over a received sequence within `i128`.
pub const WEIGHT_LIMIT: i64 = 0x4000_0000_0000_0000;

/// What one received bit adds to the metric of a path, in units of 2^-32 bit,
/// before the rate is paid.
///
/// For a binary symmetric channel with crossover probability `p` and a
/// uniform prior on the received bit, `agree` stands for log2((1 - p) / (1/2))
/// and `differ` for log2(p / (1/2)), each in units of 2^-32 bit. A channel
/// with `p` below one half has `differ < agree`.
#[derive(Clone, Copy, Debug)]
pub struct FanoWeights {
    /// Added where the bit sent along the path equals the bit received.
    pub agree: i64,
    /// Added where the two differ.
    pub differ: i64,
}

impl FanoWeights {
    /// Both weights are within `WEIGHT_LIMIT`.
    pub open spec fn bounded(&self) -> bool {
        &&& -WEIGHT_LIMIT <= self.agree <= WEIGHT_LIMIT
        &&& -WEIGHT_LIMIT <= self.differ <= WEIGHT_LIMIT
    }
}

/// The weight of one pair of a bit sent and a bit received.
pub open spec fn bit_metric(w: FanoWeights, sent: u8, received: u8) -> int {
    if sent == received {
        w.agree as int
    } else {
        w.differ as int
    }
}

/// The weights of the first `k` pairs of `sent` and `received`, added up.
pub open spec fn tally(w: FanoWeights, sent: Seq<u8>, received: Seq<u8>, k: int) -> int
    decreases k,
{
    if k <= 0 {
        0
    } else {
        tally(w, sent, received, k - 1) + bit_metric(w, sent[k - 1], received[k - 1])
    }
}

/// The Fano metric of one step: the weights of the block's bits, less the
/// rate. Each of the `n` bits of a block pays `1/n` bit, the block one bit.
pub open spec fn block_metric(w: FanoWeights, sent: Seq<u8>, received: Seq<u8>) -> int {
    tally(w, sent, received, sent.len() as int) - SCALE
}

/// A tally of `k` pairs lies within `k` times the larger magnitude.
pub proof fn lemma_tally_bounds(
    w: FanoWeights,
    sent: Seq<u8>,
    received: Seq<u8>,
    k: int,
    limit: int,
)
    requires
        0 <= k,
        -limit <= w.agree <= limit,
        -limit <= w.differ <= limit,
    ensures
        -(k * limit) <= tally(w, sent, received, k) <= k * limit,
    decreases k,
{
    if k > 0 {
        lemma_tally_bounds(w, sent, received, k - 1, limit);
        assert(k * limit == (k - 1) * limit + limit) by (nonlinear_arith);
    } else {
        assert(k * limit == 0) by (nonlinear_arith)
            requires
                k == 0,
        ;
    }
}

} // verus!
