//! The encoder: the register model, the block of one position, and the
//! code word of a whole input with its terminating zeros.

use crate::generators::{memory, valid_generators, Gens};
use vstd::prelude::*;

verus! {

/// The register model: the input `j` steps before position `i`, which is
/// `xs[i - j]`, and 0 wherever that position lies outside `xs`.
pub open spec fn sample(xs: Seq<u8>, i: int, j: int) -> u8 {
    if 0 <= i - j < xs.len() {
        xs[i - j]
    } else {
        0
    }
}

/// The sum over GF(2) of the first `k` taps of generator `g` at position `i`:
/// coefficient times register content, added with exclusive or.
pub open spec fn tap_sum(g: Seq<u8>, xs: Seq<u8>, i: int, k: int) -> u8
    decreases k,
{
    if k <= 0 {
        0
    } else {
        tap_sum(g, xs, i, k - 1) ^ ((g[k - 1] * sample(xs, i, k - 1)) as u8)
    }
}

/// The output bit of generator `g` at position `i`.
pub open spec fn code_bit(g: Seq<u8>, xs: Seq<u8>, i: int) -> u8 {
    tap_sum(g, xs, i, g.len() as int)
}

/// The block that the encoder emits at position `i`: one bit per generator.
pub open spec fn code_block(rows: Seq<Seq<u8>>, xs: Seq<u8>, i: int) -> Seq<u8> {
    Seq::new(rows.len(), |j: int| code_bit(rows[j], xs, i))
}

/// The blocks of positions `0..k`, in order.
pub open spec fn code_blocks(rows: Seq<Seq<u8>>, xs: Seq<u8>, k: int) -> Seq<u8>
    decreases k,
{
    if k <= 0 {
        Seq::empty()
    } else {
        code_blocks(rows, xs, k - 1) + code_block(rows, xs, k - 1)
    }
}

/// `xs` followed by `m` zeros, which bring the register back to zero.
pub open spec fn terminated(xs: Seq<u8>, m: int) -> Seq<u8> {
    xs + Seq::new(m as nat, |i: int| 0u8)
}

/// The code word of `xs`: the blocks of `xs` with its terminating zeros.
pub open spec fn code_word(rows: Seq<Seq<u8>>, xs: Seq<u8>) -> Seq<u8> {
    let padded = terminated(xs, memory(rows));
    code_blocks(rows, padded, padded.len() as int)
}

/// All elements are 0 or 1.
pub open spec fn binary(xs: Seq<u8>) -> bool {
    forall|i: int| 0 <= i < xs.len() ==> #[trigger] xs[i] <= 1
}

/// `code_blocks` is `k` blocks long, and its bit `j` of block `i` is the
/// output of generator `j` at position `i`.
pub proof fn lemma_code_blocks_index(rows: Seq<Seq<u8>>, xs: Seq<u8>, k: int)
    requires
        0 <= k,
    ensures
        code_blocks(rows, xs, k).len() == k * rows.len(),
        forall|i: int, j: int|
            0 <= i < k && 0 <= j < rows.len() ==> #[trigger] code_blocks(rows, xs, k)[i * rows.len()
                + j] == code_bit(rows[j], xs, i),
    decreases k,
{
    let n = rows.len() as int;
    if k > 0 {
        lemma_code_blocks_index(rows, xs, k - 1);
        assert(k * n == (k - 1) * n + n) by (nonlinear_arith);
        let whole = code_blocks(rows, xs, k);
        let front = code_blocks(rows, xs, k - 1);
        assert forall|i: int, j: int| 0 <= i < k && 0 <= j < n implies #[trigger] whole[i * n + j]
            == code_bit(rows[j], xs, i) by {
            if i < k - 1 {
                assert(i * n + j < (k - 1) * n) by (nonlinear_arith)
                    requires
                        0 <= i < k - 1,
                        0 <= j < n,
                ;
                assert(0 <= i * n + j) by (nonlinear_arith)
                    requires
                        0 <= i,
                        0 <= j,
                        0 <= n,
                ;
                assert(whole[i * n + j] == front[i * n + j]);
            } else {
                assert(whole[i * n + j] == code_block(rows, xs, k - 1)[j]);
            }
        }
    } else {
        assert(k * n == 0) by (nonlinear_arith)
            requires
                k == 0,
        ;
    }
}

/// A generator with binary coefficients gives a binary bit from binary input.
proof fn lemma_tap_sum_binary(g: Seq<u8>, xs: Seq<u8>, i: int, k: int)
    requires
        binary(g),
        binary(xs),
        0 <= k <= g.len(),
    ensures
        tap_sum(g, xs, i, k) <= 1,
    decreases k,
{
    if k > 0 {
        lemma_tap_sum_binary(g, xs, i, k - 1);
        let acc = tap_sum(g, xs, i, k - 1);
        let c = g[k - 1];
        let x = sample(xs, i, k - 1);
        assert(x <= 1);
        assert(c <= 1);
        assert(0 <= c * x <= 1) by (nonlinear_arith)
            requires
                0 <= c <= 1,
                0 <= x <= 1,
        ;
        let t = (c * x) as u8;
        assert(acc ^ t <= 1) by (bit_vector)
            requires
                acc <= 1,
                t <= 1,
        ;
    }
}

/// The blocks of binary input under a valid generator set are binary.
pub proof fn lemma_code_blocks_binary(rows: Seq<Seq<u8>>, xs: Seq<u8>, k: int)
    requires
        valid_generators(rows),
        binary(xs),
        0 <= k,
    ensures
        binary(code_block(rows, xs, k)),
        binary(code_blocks(rows, xs, k)),
    decreases k,
{
    assert forall|j: int| 0 <= j < rows.len() implies #[trigger] code_block(rows, xs, k)[j]
        <= 1 by {
        assert(binary(rows[j]));
        lemma_tap_sum_binary(rows[j], xs, k, rows[j].len() as int);
    }
    if k > 0 {
        lemma_code_blocks_binary(rows, xs, k - 1);
        let front = code_blocks(rows, xs, k - 1);
        let block = code_block(rows, xs, k - 1);
        assert forall|i: int| 0 <= i < (front + block).len() implies #[trigger] (front + block)[i]
            <= 1 by {
            if i < front.len() {
                assert((front + block)[i] == front[i]);
            } else {
                assert((front + block)[i] == block[i - front.len()]);
            }
        }
    }
}

/// The code word has `n` bits for each input bit and each terminating zero,
/// and it is binary where the input is.
pub proof fn lemma_code_word(rows: Seq<Seq<u8>>, xs: Seq<u8>)
    requires
        valid_generators(rows),
    ensures
        code_word(rows, xs).len() == rows.len() * (xs.len() + memory(rows)),
        binary(xs) ==> binary(code_word(rows, xs)),
{
    let padded = terminated(xs, memory(rows));
    lemma_code_blocks_index(rows, padded, padded.len() as int);
    assert(padded.len() * rows.len() == rows.len() * (xs.len() + memory(rows)))
        by (nonlinear_arith)
        requires
            padded.len() == xs.len() + memory(rows),
    ;
    if binary(xs) {
        assert(binary(padded));
        lemma_code_blocks_binary(rows, padded, padded.len() as int);
    }
}

/// Reads the register: `xs[i - j]` where there is such an input, and 0
/// elsewhere.
pub fn getx(xs: &Vec<u8>, i: usize, j: usize) -> (x: u8)
    ensures
        x == sample(xs@, i as int, j as int),
{
    if j > i {
        return 0;
    }
    if i - j >= xs.len() {
        return 0;
    }
    xs[i - j]
}

/// The block at position `i` alone, from the inputs up to `i`.
pub fn encode_step(xs: &Vec<u8>, gs: &Gens, i: usize) -> (c: Vec<u8>)
    requires
        gs.wf(),
    ensures
        c@ == code_block(gs@, xs@, i as int),
        c.len() == gs.n,
        binary(xs@) ==> binary(c@),
{
    proof {
        if binary(xs@) {
            lemma_code_blocks_binary(gs@, xs@, i as int);
        }
    }
    let mut c: Vec<u8> = Vec::with_capacity(gs.n);
    let mut j: usize = 0;
    while j < gs.gs.len()
        invariant
            gs.wf(),
            j <= gs.gs.len(),
            c@ == code_block(gs@, xs@, i as int).take(j as int),
        decreases gs.gs.len() - j,
    {
        let g = &gs.gs[j];
        assert(g@ == gs@[j as int]);
        let mut sum: u8 = 0;
        let mut k: usize = 0;
        while k < g.len()
            invariant
                k <= g.len(),
                forall|t: int| 0 <= t < g.len() ==> #[trigger] g[t] <= 1,
                sum == tap_sum(g@, xs@, i as int, k as int),
            decreases g.len() - k,
        {
            let coeff = g[k];
            let x = getx(xs, i, k);
            assert(0 <= coeff * x <= x) by (nonlinear_arith)
                requires
                    0 <= coeff <= 1,
                    0 <= x,
            ;
            sum = sum ^ (coeff * x);
            k = k + 1;
        }
        c.push(sum);
        j = j + 1;
    }
    c
}

/// The blocks of all positions of `xs`, with nothing appended to `xs`.
pub fn encode_(xs: &Vec<u8>, gs: &Gens) -> (c: Vec<u8>)
    requires
        gs.wf(),
    ensures
        c@ == code_blocks(gs@, xs@, xs.len() as int),
        c.len() == gs.n * xs.len(),
        binary(xs@) ==> binary(c@),
{
    let mut c: Vec<u8> = Vec::new();
    let mut i: usize = 0;
    while i < xs.len()
        invariant
            gs.wf(),
            i <= xs.len(),
            c@ == code_blocks(gs@, xs@, i as int),
        decreases xs.len() - i,
    {
        let mut block = encode_step(xs, gs, i);
        c.append(&mut block);
        i = i + 1;
    }
    proof {
        lemma_code_blocks_index(gs@, xs@, xs.len() as int);
        assert(gs.n * xs.len() == xs.len() * gs.n) by (nonlinear_arith);
        if binary(xs@) {
            lemma_code_blocks_binary(gs@, xs@, xs.len() as int);
        }
    }
    c
}

/// Convolutional encoding: the code word of `xs`, `n` bits for each input bit
/// and for each of the `m` terminating zeros.
pub fn encode(xs: &Vec<u8>, gs: &Gens) -> (c: Vec<u8>)
    requires
        gs.wf(),
    ensures
        c@ == code_word(gs@, xs@),
        c.len() == gs.n * (xs.len() + gs.m),
        binary(xs@) ==> binary(c@),
{
    let mut padded = xs.clone();
    let mut t: usize = 0;
    while t < gs.m
        invariant
            t <= gs.m,
            padded@ == terminated(xs@, t as int),
        decreases gs.m - t,
    {
        padded.push(0);
        t = t + 1;
    }
    assert(binary(xs@) ==> binary(padded@));
    encode_(&padded, gs)
}

} // verus!
