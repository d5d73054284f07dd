//! Writing bits, generators and search results as text for display.

use crate::encoder::binary;
use crate::generators::rows_of;
use crate::path::CodePath;
use vstd::prelude::*;
use vstd::string::StringExecFns;

verus! {

/// The character that stands for a bit.
pub open spec fn bit_char(x: u8) -> char {
    if x == 0 {
        '0'
    } else {
        '1'
    }
}

/// The characters that stand for a sequence of bits.
pub open spec fn bit_chars(xs: Seq<u8>) -> Seq<char> {
    Seq::new(xs.len(), |i: int| bit_char(xs[i]))
}

/// The character of a decimal digit.
pub open spec fn digit_char(d: int) -> char {
    if d == 0 {
        '0'
    } else if d == 1 {
        '1'
    } else if d == 2 {
        '2'
    } else if d == 3 {
        '3'
    } else if d == 4 {
        '4'
    } else if d == 5 {
        '5'
    } else if d == 6 {
        '6'
    } else if d == 7 {
        '7'
    } else if d == 8 {
        '8'
    } else {
        '9'
    }
}

/// A number written in decimal, without leading zeros.
pub open spec fn decimal(n: nat) -> Seq<char>
    decreases n,
{
    if n < 10 {
        seq![digit_char(n as int)]
    } else {
        decimal(n / 10).push(digit_char((n % 10) as int))
    }
}

/// The first `k` pieces of `s`, each `size` characters long and each with a
/// blank in front.
pub open spec fn spaced(s: Seq<char>, size: int, k: int) -> Seq<char>
    decreases k,
{
    if k <= 0 {
        Seq::empty()
    } else {
        spaced(s, size, k - 1) + seq![' '] + s.subrange((k - 1) * size, k * size)
    }
}

/// A bit received, marked up for pango: in red where it is not the bit that
/// was sent.
pub open spec fn span(sent: u8, received: u8) -> Seq<char> {
    if sent == received {
        "<span>"@ + seq![bit_char(received)] + "</span>"@
    } else {
        "<span foreground=\"red\">"@ + seq![bit_char(received)] + "</span>"@
    }
}

/// The spans of the first `k` pairs of `xs` and `ys`.
pub open spec fn spans(xs: Seq<u8>, ys: Seq<u8>, k: int) -> Seq<char>
    decreases k,
{
    if k <= 0 {
        Seq::empty()
    } else {
        spans(xs, ys, k - 1) + span(xs[k - 1], ys[k - 1])
    }
}

/// What the coefficient `c` of the power `i` adds to a polynomial written
/// out: the constant term as it is, a higher power with a plus sign in front
/// where its coefficient is 1, and nothing where it is 0.
pub open spec fn term(i: int, c: u8) -> Seq<char> {
    if i == 0 {
        decimal(c as nat)
    } else if c == 1 {
        " + x<sup>"@ + decimal(i as nat) + "</sup>"@
    } else {
        Seq::empty()
    }
}

/// The first `k` coefficients of a generator, written as a polynomial in
/// pango markup.
pub open spec fn polynomial(g: Seq<u8>, k: int) -> Seq<char>
    decreases k,
{
    if k <= 0 {
        Seq::empty()
    } else {
        polynomial(g, k - 1) + term(k - 1, g[k - 1])
    }
}

/// The first `k` generators as polynomials, one to a line.
pub open spec fn polynomials(rows: Seq<Seq<u8>>, k: int) -> Seq<char>
    decreases k,
{
    if k <= 0 {
        Seq::empty()
    } else if k == 1 {
        polynomial(rows[0], rows[0].len() as int)
    } else {
        polynomials(rows, k - 1) + seq!['\n'] + polynomial(rows[k - 1], rows[k - 1].len() as int)
    }
}

pub fn bin_to_char(x: &u8) -> (c: char)
    requires
        *x <= 1,
    ensures
        c == bit_char(*x),
{
    if *x == 0 {
        '0'
    } else {
        '1'
    }
}

fn bit_str(x: u8) -> (s: &'static str)
    requires
        x <= 1,
    ensures
        s@ == seq![bit_char(x)],
{
    proof {
        reveal_strlit("0");
        reveal_strlit("1");
    }
    if x == 0 {
        let s = "0";
        assert(s@ =~= seq!['0']);
        s
    } else {
        let s = "1";
        assert(s@ =~= seq!['1']);
        s
    }
}

fn digit_str(d: usize) -> (s: &'static str)
    requires
        d < 10,
    ensures
        s@ == seq![digit_char(d as int)],
{
    proof {
        reveal_strlit("0");
        reveal_strlit("1");
        reveal_strlit("2");
        reveal_strlit("3");
        reveal_strlit("4");
        reveal_strlit("5");
        reveal_strlit("6");
        reveal_strlit("7");
        reveal_strlit("8");
        reveal_strlit("9");
    }
    let s = if d == 0 {
        "0"
    } else if d == 1 {
        "1"
    } else if d == 2 {
        "2"
    } else if d == 3 {
        "3"
    } else if d == 4 {
        "4"
    } else if d == 5 {
        "5"
    } else if d == 6 {
        "6"
    } else if d == 7 {
        "7"
    } else if d == 8 {
        "8"
    } else {
        "9"
    };
    assert(s@ =~= seq![digit_char(d as int)]);
    s
}

/// Writes a number in decimal.
pub fn decimal_string(n: usize) -> (s: String)
    ensures
        s@ == decimal(n as nat),
    decreases n,
{
    if n < 10 {
        String::from_str(digit_str(n))
    } else {
        let mut s = decimal_string(n / 10);
        s.append(digit_str(n % 10));
        s
    }
}

/// Writes bits as a string of `0` and `1`.
pub fn format_bin(xs: &Vec<u8>) -> (s: String)
    requires
        binary(xs@),
    ensures
        s@ == bit_chars(xs@),
{
    let mut s = String::new();
    let mut i: usize = 0;
    while i < xs.len()
        invariant
            i <= xs.len(),
            binary(xs@),
            s@ == bit_chars(xs@).take(i as int),
        decreases xs.len() - i,
    {
        s.append(bit_str(xs[i]));
        assert(s@ =~= bit_chars(xs@).take(i + 1));
        i = i + 1;
    }
    assert(bit_chars(xs@).take(xs.len() as int) =~= bit_chars(xs@));
    s
}

/// Writes the bits received, as far as there are bits sent to hold them
/// against, each in a span of pango markup: red where the two differ.
pub fn format_bin_with_error(xs: &Vec<u8>, ys: &Vec<u8>) -> (s: String)
    requires
        forall|i: int| 0 <= i < ys.len() && i < xs.len() ==> #[trigger] ys[i] <= 1,
    ensures
        s@ == spans(xs@, ys@, if xs.len() < ys.len() { xs.len() as int } else { ys.len() as int }),
{
    let mut s = String::new();
    let mut i: usize = 0;
    while i < xs.len() && i < ys.len()
        invariant
            i <= xs.len(),
            i <= ys.len(),
            forall|i: int| 0 <= i < ys.len() && i < xs.len() ==> #[trigger] ys[i] <= 1,
            s@ == spans(xs@, ys@, i as int),
        decreases xs.len() - i,
    {
        let ghost before = s@;
        if xs[i] == ys[i] {
            s.append("<span>");
        } else {
            s.append("<span foreground=\"red\">");
        }
        s.append(bit_str(ys[i]));
        s.append("</span>");
        assert(s@ =~= before + span(xs[i as int], ys[i as int]));
        i = i + 1;
    }
    s
}

/// `xs` with `sep` before each of its elements.
pub open spec fn interleaved<T>(xs: Seq<T>, sep: T) -> Seq<T> {
    Seq::new(
        2 * xs.len(),
        |i: int|
            if i % 2 == 0 {
                sep
            } else {
                xs[i / 2]
            },
    )
}

/// Puts `sep` before each element of `xs`.
pub fn append_before<T: Copy>(xs: &Vec<T>, sep: T) -> (res: Vec<T>)
    ensures
        res@ == interleaved(xs@, sep),
{
    let mut res: Vec<T> = Vec::new();
    let mut i: usize = 0;
    while i < xs.len()
        invariant
            i <= xs.len(),
            res@ == interleaved(xs@, sep).take(2 * i),
        decreases xs.len() - i,
    {
        res.push(sep);
        res.push(xs[i]);
        assert(res@ =~= interleaved(xs@, sep).take(2 * (i + 1)));
        i = i + 1;
    }
    assert(interleaved(xs@, sep).take(2 * xs.len()) =~= interleaved(xs@, sep));
    res
}

/// Sets a blank before each piece of `size` characters of a string of ASCII
/// characters, such as `format_bin` writes: `111001` in pieces of three
/// becomes ` 111 001`.
pub fn spacing(xs: &str, size: usize) -> (s: String)
    requires
        xs.is_ascii(),
        size > 0,
        xs@.len() as int % size as int == 0,
    ensures
        s@ == spaced(xs@, size as int, xs@.len() as int / size as int),
{
    let len = xs.unicode_len();
    let count = len / size;
    let mut chunks: Vec<&str> = Vec::new();
    let mut k: usize = 0;
    proof {
        assert(count * size == len) by (nonlinear_arith)
            requires
                len % size == 0,
                count == len / size,
                size > 0,
        ;
    }
    while k < count
        invariant
            k <= count,
            count * size == len,
            len == xs@.len(),
            size > 0,
            xs.is_ascii(),
            chunks.len() == k,
            forall|j: int|
                0 <= j < k ==> (#[trigger] chunks[j])@ == xs@.subrange(j * size, (j + 1) * size),
        decreases count - k,
    {
        assert(k * size + size == (k + 1) * size) by (nonlinear_arith);
        assert((k + 1) * size <= count * size) by (nonlinear_arith)
            requires
                k + 1 <= count,
                size > 0,
        ;
        assert(0 <= k * size) by (nonlinear_arith)
            requires
                0 <= k,
                0 <= size,
        ;
        let from = k * size;
        chunks.push(xs.substring_ascii(from, from + size));
        k = k + 1;
    }
    let pieces = append_before(&chunks, " ");
    let mut s = String::new();
    let mut j: usize = 0;
    while j < count
        invariant
            j <= count,
            chunks.len() == count,
            pieces@ == interleaved(chunks@, " "),
            pieces.len() == 2 * count,
            forall|i: int|
                0 <= i < count ==> (#[trigger] chunks[i])@ == xs@.subrange(i * size, (i + 1) * size),
            s@ == spaced(xs@, size as int, j as int),
        decreases count - j,
    {
        proof {
            reveal_strlit(" ");
            assert(" "@ =~= seq![' ']);
            assert(pieces@[2 * j] == " " && pieces@[2 * j + 1] == chunks[j as int]);
            assert((j + 1) * size == j * size + size) by (nonlinear_arith);
            assert((j + 1 - 1) * size == j * size) by (nonlinear_arith);
        }
        s.append(pieces[2 * j]);
        s.append(pieces[2 * j + 1]);
        j = j + 1;
    }
    s
}

/// Writes one generator as a polynomial in pango markup.
fn format_gen(g: &Vec<u8>) -> (s: String)
    requires
        forall|k: int| 1 <= k < g.len() ==> #[trigger] g[k] <= 1,
    ensures
        s@ == polynomial(g@, g.len() as int),
{
    let mut s = String::new();
    let mut i: usize = 0;
    while i < g.len()
        invariant
            i <= g.len(),
            forall|k: int| 1 <= k < g.len() ==> #[trigger] g[k] <= 1,
            s@ == polynomial(g@, i as int),
        decreases g.len() - i,
    {
        let ghost before = s@;
        if i == 0 {
            let first = decimal_string(g[i] as usize);
            s.append(first.as_str());
        } else if g[i] == 1 {
            let power = decimal_string(i);
            s.append(" + x<sup>");
            s.append(power.as_str());
            s.append("</sup>");
        }
        assert(s@ =~= before + term(i as int, g[i as int]));
        i = i + 1;
    }
    s
}

/// Writes the generators as polynomials in pango markup, one to a line:
/// `1 + x<sup>2</sup>` for `101`.
pub fn format_gens(gs: &Vec<Vec<u8>>) -> (s: String)
    requires
        gs.len() >= 1,
        forall|j: int, k: int|
            0 <= j < gs.len() && 1 <= k < gs[j].len() ==> #[trigger] gs[j][k] <= 1,
    ensures
        s@ == polynomials(rows_of(gs@), gs.len() as int),
{
    let ghost rows = rows_of(gs@);
    let mut s = format_gen(&gs[0]);
    let mut j: usize = 1;
    while j < gs.len()
        invariant
            1 <= j <= gs.len(),
            rows == rows_of(gs@),
            forall|j: int, k: int|
                0 <= j < gs.len() && 1 <= k < gs[j].len() ==> #[trigger] gs[j][k] <= 1,
            s@ == polynomials(rows, j as int),
        decreases gs.len() - j,
    {
        proof {
            reveal_strlit("\n");
            assert("\n"@ =~= seq!['\n']);
        }
        let line = format_gen(&gs[j]);
        s.append("\n");
        s.append(line.as_str());
        j = j + 1;
    }
    s
}

/// The length of the longest path.
pub fn max_len(vv: &Vec<CodePath>) -> (len: usize)
    requires
        vv.len() > 0,
    ensures
        forall|i: int| 0 <= i < vv.len() ==> (#[trigger] vv[i]).path.len() <= len,
        exists|i: int| 0 <= i < vv.len() && (#[trigger] vv[i]).path.len() == len,
{
    let mut len = vv[0].path.len();
    let mut i: usize = 1;
    while i < vv.len()
        invariant
            1 <= i <= vv.len(),
            forall|j: int| 0 <= j < i ==> (#[trigger] vv[j]).path.len() <= len,
            exists|j: int| 0 <= j < i && (#[trigger] vv[j]).path.len() == len,
        decreases vv.len() - i,
    {
        if vv[i].path.len() > len {
            len = vv[i].path.len();
        }
        i = i + 1;
    }
    len
}

} // verus!
