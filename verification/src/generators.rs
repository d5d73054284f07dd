//! Generator sets.

use vstd::prelude::*;

verus! {

/// The generators as plain sequences: one row of coefficients per output bit.
pub open spec fn rows_of(gs: Seq<Vec<u8>>) -> Seq<Seq<u8>> {
    Seq::new(gs.len(), |j: int| gs[j]@)
}

/// Rows that form a generator set: at least one row, all rows of one
/// non-zero length, every coefficient 0 or 1.
pub open spec fn valid_generators(rows: Seq<Seq<u8>>) -> bool {
    &&& rows.len() >= 1
    &&& rows[0].len() >= 1
    &&& forall|j: int| 0 <= j < rows.len() ==> (#[trigger] rows[j]).len() == rows[0].len()
    &&& forall|j: int, k: int|
        0 <= j < rows.len() && 0 <= k < rows[j].len() ==> #[trigger] rows[j][k] <= 1
}

/// The memory order of a generator set: the length of a row, less one.
pub open spec fn memory(rows: Seq<Seq<u8>>) -> int {
    rows[0].len() - 1
}

/// A generator set with its memory order `m` and its number of output bits
/// per input bit `n`.
#[derive(Debug)]
pub struct Gens {
    /// The generators, one row of coefficients each, lowest delay first.
    pub gs: Vec<Vec<u8>>,
    /// The memory order: the length of a generator, less one.
    pub m: usize,
    /// The number of generators, which is the number of output bits per
    /// input bit.
    pub n: usize,
}

/// A generator set is seen as its rows. `m` and `n` are not part of the
/// view: in a well-formed set they are read off the rows, and `wf` says so.
impl View for Gens {
    type V = Seq<Seq<u8>>;

    open spec fn view(&self) -> Seq<Seq<u8>> {
        rows_of(self.gs@)
    }
}

impl Gens {
    /// The rows are a valid generator set and `m` and `n` describe them.
    pub open spec fn wf(&self) -> bool {
        &&& valid_generators(self@)
        &&& self.n == self@.len()
        &&& self.m == memory(self@)
    }

    /// Takes the rows as they are; `m` and `n` are read off them. Whether the
    /// rows are of equal length and binary is for the caller to know: `wf`
    /// says so.
    pub fn new(gs: Vec<Vec<u8>>) -> (g: Gens)
        requires
            gs.len() >= 1,
            gs[0].len() >= 1,
        ensures
            g.gs == gs,
            g.n == gs.len(),
            g.m == gs[0].len() - 1,
            valid_generators(rows_of(gs@)) ==> g.wf(),
    {
        Gens { m: gs[0].len() - 1, n: gs.len(), gs: gs }
    }
}

} // verus!
