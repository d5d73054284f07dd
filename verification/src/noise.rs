//! The binary symmetric channel.

use crate::encoder::binary;
use vstd::prelude::*;

verus! {

/// What the channel makes of one bit: the other bit where the draw falls
/// below the threshold, the bit itself elsewhere.
pub open spec fn noisy_bit(y: u8, draw: u32, threshold: u32) -> u8 {
    if draw < threshold {
        (1 - y) as u8
    } else {
        y
    }
}

/// What the channel makes of a sequence, one draw for each bit.
pub open spec fn noisy(xs: Seq<u8>, draws: Seq<u32>, threshold: u32) -> Seq<u8> {
    Seq::new(xs.len(), |i: int| noisy_bit(xs[i], draws[i], threshold))
}

/// Calls `rand::random::<u32>()`, which draws from the generator of the
/// running thread. The contract claims nothing of the value: any `u32` may
/// come back, and two calls may differ. The generator is seeded from the
/// operating system on its first use in a thread, and the call panics if the
/// system gives no seed; no argument decides that.
#[verifier::external_body]
fn random_u32() -> u32 {
    rand::random::<u32>()
}

/// `count` draws, one after the other.
fn draw(count: usize) -> (draws: Vec<u32>)
    ensures
        draws.len() == count,
{
    let mut draws: Vec<u32> = Vec::with_capacity(count);
    while draws.len() < count
        invariant
            draws.len() <= count,
        decreases count - draws.len(),
    {
        draws.push(random_u32());
    }
    draws
}

/// The binary symmetric channel with the draws given: bit `i` is flipped
/// where `draws[i]` is below `threshold`, and only there.
pub fn apply_noise(xs: &[u8], draws: &[u32], threshold: u32) -> (ys: Vec<u8>)
    requires
        binary(xs@),
        draws.len() == xs.len(),
    ensures
        ys@ == noisy(xs@, draws@, threshold),
        binary(ys@),
{
    let mut ys: Vec<u8> = Vec::with_capacity(xs.len());
    let mut i: usize = 0;
    while i < xs.len()
        invariant
            i <= xs.len(),
            draws.len() == xs.len(),
            binary(xs@),
            ys@ == noisy(xs@, draws@, threshold).take(i as int),
        decreases xs.len() - i,
    {
        let y = xs[i];
        assert(y <= 1);
        if draws[i] < threshold {
            ys.push(1 - y);
        } else {
            ys.push(y);
        }
        i = i + 1;
    }
    ys
}

/// The binary symmetric channel: each bit is flipped where a fresh draw from
/// the thread's generator falls below `threshold`, so with probability
/// `threshold / 2^32` if the draws are uniform. With threshold 0 nothing is
/// flipped.
pub fn create_noise(xs: &[u8], threshold: u32) -> (ys: Vec<u8>)
    requires
        binary(xs@),
    ensures
        exists|draws: Seq<u32>| draws.len() == xs.len() && ys@ == noisy(xs@, draws, threshold),
        ys.len() == xs.len(),
        binary(ys@),
        threshold == 0 ==> ys@ == xs@,
{
    let draws = draw(xs.len());
    let ys = apply_noise(xs, draws.as_slice(), threshold);
    assert(threshold == 0 ==> ys@ =~= xs@);
    ys
}

} // verus!
