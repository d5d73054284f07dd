//! Reading bits and generators from strings.

use crate::error::InvalidInput;
use crate::generators::{rows_of, valid_generators, Gens};
use vstd::prelude::*;

verus! {

/// The characters that a bit string may hold: the two bits, and the blank
/// and the comma, which separate and count for nothing.
pub open spec fn is_symbol(c: char) -> bool {
    c == '0' || c == '1' || c == ' ' || c == ','
}

/// Every character is a bit or a separator.
pub open spec fn symbols_ok(s: Seq<char>) -> bool {
    forall|i: int| 0 <= i < s.len() ==> is_symbol(#[trigger] s[i])
}

/// The bits among the characters, in order; the other characters count for
/// nothing.
pub open spec fn bits_of(s: Seq<char>) -> Seq<u8>
    decreases s.len(),
{
    if s.len() == 0 {
        Seq::empty()
    } else if s.last() == '0' {
        bits_of(s.drop_last()).push(0)
    } else if s.last() == '1' {
        bits_of(s.drop_last()).push(1)
    } else {
        bits_of(s.drop_last())
    }
}

/// Reads a bit string. Blanks and commas are skipped; any other character
/// that is not a bit turns the whole string down.
pub fn parse_bin(xs: &str) -> (r: Result<Vec<u8>, InvalidInput>)
    ensures
        symbols_ok(xs@) ==> r is Ok && r->Ok_0@ == bits_of(xs@),
        !symbols_ok(xs@) ==> r == Err::<Vec<u8>, InvalidInput>(InvalidInput::Symbol),
{
    broadcast use vstd::string::group_string_axioms;

    let mut res: Vec<u8> = Vec::new();
    for c in it: xs.chars()
        invariant
            it.seq() == xs@,
            symbols_ok(xs@.take(it.index())),
            res@ == bits_of(xs@.take(it.index())),
    {
        let ghost i = it.index();
        assert(xs@.take(i + 1).drop_last() =~= xs@.take(i));
        match c {
            '0' => res.push(0),
            '1' => res.push(1),
            ' ' => (),
            ',' => (),
            _ => {
                assert(!is_symbol(xs@[i]));
                return Err(InvalidInput::Symbol);
            },
        }
    }
    assert(xs@.take(xs@.len() as int) =~= xs@);
    Ok(res)
}

/// The pieces of a string between its commas, in order. A string with `k`
/// commas has `k + 1` pieces, some of them perhaps empty.
pub open spec fn fields(s: Seq<char>) -> Seq<Seq<char>>
    decreases s.len(),
{
    if s.len() == 0 {
        seq![Seq::empty()]
    } else {
        let front = fields(s.drop_last());
        if s.last() == ',' {
            front.push(Seq::empty())
        } else {
            front.update(front.len() - 1, front.last().push(s.last()))
        }
    }
}

/// The bits of each piece between commas: the generators as written.
pub open spec fn raw_rows(s: Seq<char>) -> Seq<Seq<u8>> {
    Seq::new(fields(s).len(), |j: int| bits_of(fields(s)[j]))
}

/// The length of the longest row.
pub open spec fn widest(rows: Seq<Seq<u8>>) -> nat
    decreases rows.len(),
{
    if rows.len() == 0 {
        0
    } else if rows.last().len() > widest(rows.drop_last()) {
        rows.last().len()
    } else {
        widest(rows.drop_last())
    }
}

/// `row` with zeros on its right up to `width`.
pub open spec fn padded(row: Seq<u8>, width: nat) -> Seq<u8> {
    row + Seq::new((width - row.len()) as nat, |i: int| 0u8)
}

/// The generators that a string stands for: the rows as written, each
/// filled with zeros on the right to the length of the longest.
pub open spec fn generator_rows(s: Seq<char>) -> Seq<Seq<u8>> {
    let raw = raw_rows(s);
    Seq::new(raw.len(), |j: int| padded(raw[j], widest(raw)))
}

/// No row is longer than `widest`, and some row is that long unless there
/// is none.
proof fn lemma_widest(rows: Seq<Seq<u8>>)
    ensures
        forall|j: int| 0 <= j < rows.len() ==> (#[trigger] rows[j]).len() <= widest(rows),
        rows.len() > 0 ==> exists|j: int| 0 <= j < rows.len() && (#[trigger] rows[j]).len() == widest(rows),
    decreases rows.len(),
{
    if rows.len() > 0 {
        let front = rows.drop_last();
        lemma_widest(front);
        assert forall|j: int| 0 <= j < rows.len() implies (#[trigger] rows[j]).len() <= widest(
            rows,
        ) by {
            if j < front.len() {
                assert(rows[j] == front[j]);
            }
        }
        if rows.last().len() > widest(front) || front.len() == 0 {
            assert(rows[rows.len() - 1].len() == widest(rows));
        } else {
            let j = choose|j: int| 0 <= j < front.len() && (#[trigger] front[j]).len() == widest(front);
            assert(rows[j] == front[j]);
        }
    }
}

/// The bits read from a string of good symbols are binary.
proof fn lemma_bits_of_binary(s: Seq<char>)
    ensures
        forall|i: int| 0 <= i < bits_of(s).len() ==> #[trigger] bits_of(s)[i] <= 1,
    decreases s.len(),
{
    if s.len() > 0 {
        let front = bits_of(s.drop_last());
        lemma_bits_of_binary(s.drop_last());
        assert forall|i: int| 0 <= i < bits_of(s).len() implies #[trigger] bits_of(s)[i] <= 1 by {
            if i < front.len() {
                assert(bits_of(s)[i] == front[i]);
            }
        }
    }
}

/// Reads generators: bit strings with commas between them. Blanks are
/// skipped, and short generators are filled with zeros on the right to the
/// length of the longest. A character that is neither bit, blank nor comma
/// turns the string down, and so does a string without any coefficient.
pub fn parse_gs(gs: &str) -> (r: Result<Gens, InvalidInput>)
    ensures
        match r {
            Ok(g) => {
                &&& symbols_ok(gs@)
                &&& widest(raw_rows(gs@)) > 0
                &&& g@ == generator_rows(gs@)
                &&& g.wf()
            },
            Err(e) => if symbols_ok(gs@) {
                widest(raw_rows(gs@)) == 0 && e == InvalidInput::NoGenerators
            } else {
                e == InvalidInput::Symbol
            },
        },
{
    broadcast use vstd::string::group_string_axioms;

    let mut res: Vec<Vec<u8>> = Vec::new();
    let mut cur: Vec<u8> = Vec::new();
    for c in it: gs.chars()
        invariant
            it.seq() == gs@,
            symbols_ok(gs@.take(it.index())),
            res.len() + 1 == fields(gs@.take(it.index())).len(),
            forall|j: int|
                0 <= j < res.len() ==> (#[trigger] res[j])@ == bits_of(
                    fields(gs@.take(it.index()))[j],
                ),
            cur@ == bits_of(fields(gs@.take(it.index())).last()),
    {
        let ghost i = it.index();
        let ghost before = fields(gs@.take(i));
        assert(gs@.take(i + 1).drop_last() =~= gs@.take(i));
        assert(before.last().push(c).drop_last() =~= before.last());
        match c {
            '0' => cur.push(0),
            '1' => cur.push(1),
            ' ' => (),
            ',' => {
                res.push(cur);
                cur = Vec::new();
            },
            _ => {
                assert(!is_symbol(gs@[i]));
                return Err(InvalidInput::Symbol);
            },
        }
    }
    res.push(cur);
    let ghost raw = raw_rows(gs@);
    proof {
        assert(gs@.take(gs@.len() as int) =~= gs@);
        assert(rows_of(res@) =~= raw);
        lemma_widest(raw);
    }

    let mut max_len: usize = 0;
    let mut i: usize = 0;
    while i < res.len()
        invariant
            i <= res.len(),
            rows_of(res@) == raw,
            max_len == widest(raw.take(i as int)),
        decreases res.len() - i,
    {
        assert(raw.take(i + 1).drop_last() =~= raw.take(i as int));
        assert(raw[i as int] == res[i as int]@);
        if res[i].len() > max_len {
            max_len = res[i].len();
        }
        i = i + 1;
    }
    assert(raw.take(res.len() as int) =~= raw);
    if max_len == 0 {
        return Err(InvalidInput::NoGenerators);
    }

    let ghost want = generator_rows(gs@);
    let mut full: Vec<Vec<u8>> = Vec::new();
    let mut i: usize = 0;
    while i < res.len()
        invariant
            i <= res.len(),
            rows_of(res@) == raw,
            max_len == widest(raw),
            forall|j: int| 0 <= j < raw.len() ==> (#[trigger] raw[j]).len() <= widest(raw),
            want == generator_rows(gs@),
            raw == raw_rows(gs@),
            full.len() == i,
            rows_of(full@) == want.take(i as int),
        decreases res.len() - i,
    {
        let ghost done = rows_of(full@);
        let ghost row = raw[i as int];
        let mut g = res[i].clone();
        assert(g@ == row);
        assert(g@ =~= padded(row, g.len() as nat));
        while g.len() < max_len
            invariant
                row.len() <= g.len() <= max_len,
                g@ == padded(row, g.len() as nat),
            decreases max_len - g.len(),
        {
            g.push(0);
            assert(g@ =~= padded(row, g.len() as nat));
        }
        full.push(g);
        proof {
            assert(want[i as int] == padded(row, max_len as nat));
            assert forall|j: int| 0 <= j < i + 1 implies #[trigger] rows_of(full@)[j] == want.take(
                i + 1,
            )[j] by {
                if j < i {
                    assert(rows_of(full@)[j] == done[j]);
                    assert(done[j] == want.take(i as int)[j]);
                }
            }
            assert(rows_of(full@) =~= want.take(i + 1));
        }
        i = i + 1;
    }
    proof {
        assert(want.take(res.len() as int) =~= want);
        assert(valid_generators(want)) by {
            assert forall|j: int| 0 <= j < want.len() implies (#[trigger] want[j]).len()
                == max_len by {}
            assert forall|j: int, k: int|
                0 <= j < want.len() && 0 <= k < want[j].len() implies #[trigger] want[j][k]
                <= 1 by {
                lemma_bits_of_binary(fields(gs@)[j]);
            }
        }
        assert(full@[0]@ == want[0]);
    }
    Ok(Gens::new(full))
}

} // verus!
