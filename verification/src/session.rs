//! A whole run from the strings that a user writes: read, encode, hold the
//! received bits against the code word, decode.

use crate::decoder::{decode_, decoded, decoding};
use crate::encoder::{code_word, encode};
use crate::error::InvalidInput;
use crate::generators::Gens;
use crate::metric::FanoWeights;
use crate::parse::{bits_of, generator_rows, parse_bin, parse_gs, raw_rows, symbols_ok, widest};
use crate::path::{views, CodePath};
use vstd::prelude::*;

verus! {

/// One run of the whole system, kept for display: what went in, what was
/// sent, what came back, and what the decoder made of it.
#[derive(Debug)]
pub struct StackResults {
    pub gens: Gens,
    /// The input bits.
    pub input: Vec<u8>,
    /// The code word of the input, as transmitted.
    pub encoded: Vec<u8>,
    /// The bits that came out of the channel.
    pub received: Vec<u8>,
    /// What the decoder made of the received bits.
    pub decoded: Vec<u8>,
    /// The nodes that the search made, in the order of their creation.
    pub paths: Vec<CodePath>,
}

/// Why an input string and a generator string cannot be encoded, if they
/// cannot: the first of a bad symbol in the input, an input without bits, a
/// bad symbol in the generators, generators without coefficients.
pub open spec fn encoding_fault(xs: Seq<char>, gs: Seq<char>) -> Option<InvalidInput> {
    if !symbols_ok(xs) {
        Some(InvalidInput::Symbol)
    } else if bits_of(xs).len() == 0 {
        Some(InvalidInput::EmptyInput)
    } else if !symbols_ok(gs) {
        Some(InvalidInput::Symbol)
    } else if widest(raw_rows(gs)) == 0 {
        Some(InvalidInput::NoGenerators)
    } else {
        None
    }
}

/// Why the system cannot run on these strings, if it cannot: a fault of the
/// input or the generators, a bad symbol among the received bits, or
/// received bits that are not as many as the code word has.
pub open spec fn run_fault(xs: Seq<char>, gs: Seq<char>, rx: Seq<char>) -> Option<InvalidInput> {
    if encoding_fault(xs, gs) is Some {
        encoding_fault(xs, gs)
    } else if !symbols_ok(rx) {
        Some(InvalidInput::Symbol)
    } else if bits_of(rx).len() != code_word(generator_rows(gs), bits_of(xs)).len() {
        Some(InvalidInput::LengthMismatch)
    } else {
        None
    }
}

/// Reads the input and the generators and encodes.
pub fn encode_main(xs: &str, gs: &str) -> (r: Result<Vec<u8>, InvalidInput>)
    ensures
        match r {
            Ok(ys) => encoding_fault(xs@, gs@) is None && ys@ == code_word(
                generator_rows(gs@),
                bits_of(xs@),
            ),
            Err(e) => encoding_fault(xs@, gs@) == Some(e),
        },
{
    let xs = match parse_bin(xs) {
        Ok(xs) => xs,
        Err(e) => return Err(e),
    };
    if xs.len() == 0 {
        return Err(InvalidInput::EmptyInput);
    }
    let gs = match parse_gs(gs) {
        Ok(gs) => gs,
        Err(e) => return Err(e),
    };
    Ok(encode(&xs, &gs))
}

/// Runs the whole system on what the user wrote: reads input, generators
/// and received bits, encodes the input, holds the received bits against
/// the code word's length, and decodes them.
pub fn run_stack_algo(xs: &str, gs: &str, w: &FanoWeights, rx: &str) -> (r: Result<
    StackResults,
    InvalidInput,
>)
    requires
        w.bounded(),
    ensures
        match r {
            Ok(res) => {
                &&& run_fault(xs@, gs@, rx@) is None
                &&& res.gens.wf()
                &&& res.gens@ == generator_rows(gs@)
                &&& res.input@ == bits_of(xs@)
                &&& res.encoded@ == code_word(res.gens@, res.input@)
                &&& res.received@ == bits_of(rx@)
                &&& res.decoded@ == decoded(res.received@, res.gens@, *w)
                &&& views(res.paths@) == decoding(res.received@, res.gens@, *w).drop_last()
                &&& views(res.paths@).contains(decoding(res.received@, res.gens@, *w).last())
                &&& res.decoded.len() == res.input.len()
            },
            Err(e) => run_fault(xs@, gs@, rx@) == Some(e),
        },
{
    let xs = match parse_bin(xs) {
        Ok(xs) => xs,
        Err(e) => return Err(e),
    };
    if xs.len() == 0 {
        return Err(InvalidInput::EmptyInput);
    }
    let gs = match parse_gs(gs) {
        Ok(gs) => gs,
        Err(e) => return Err(e),
    };
    let ys = encode(&xs, &gs);

    let noisy_ys = match parse_bin(rx) {
        Ok(noisy_ys) => noisy_ys,
        Err(e) => return Err(e),
    };
    if noisy_ys.len() != ys.len() {
        return Err(InvalidInput::LengthMismatch);
    }
    proof {
        let n = gs.n as int;
        let steps = xs.len() + gs.m;
        assert((n * steps) / n == steps) by (nonlinear_arith)
            requires
                n >= 1,
                steps >= 0,
        ;
    }

    let (path, paths) = decode_(&noisy_ys, &gs, w);

    Ok(StackResults { gens: gs, input: xs, encoded: ys, received: noisy_ys, decoded: path, paths: paths })
}

} // verus!
