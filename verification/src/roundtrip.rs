//! Decoding a code word that no noise has touched gives the input back.

use crate::decoder::{
    all_on_tree, best_index, decoded, decoding, input_length, lemma_best_index,
    lemma_extension_lowers_potential, lemma_next_on_tree, on_tree, potential, search,
};
use crate::encoder::{
    binary, code_bit, code_block, code_blocks, code_word, lemma_code_blocks_index, sample,
    tap_sum, terminated,
};
use crate::generators::{memory, valid_generators};
use crate::metric::{tally, FanoWeights, SCALE};
use crate::path::{children, path_metric, received_block, root, step_metric, PathView};
use vstd::prelude::*;

verus! {

/// Some generator has the coefficient 1 at delay 0: an input bit shows in
/// the block of its own position.
pub open spec fn delay_free(rows: Seq<Seq<u8>>) -> bool {
    exists|j: int| 0 <= j < rows.len() && (#[trigger] rows[j])[0] == 1
}

/// Some coefficient of some generator is 1.
pub open spec fn has_tap(rows: Seq<Seq<u8>>) -> bool {
    exists|j: int, k: int| 0 <= j < rows.len() && 0 <= k < rows[j].len() && #[trigger] rows[j][k] == 1
}

/// What one step adds to the metric where the whole block agrees with what
/// was received: `n` times `agree`, less the rate.
spec fn clean_step(rows: Seq<Seq<u8>>, w: FanoWeights) -> int {
    rows.len() * w.agree - SCALE
}

/// The block at position `i` depends on the inputs up to `i` alone.
proof fn lemma_tap_sum_prefix(g: Seq<u8>, p: Seq<u8>, q: Seq<u8>, i: int, k: int)
    requires
        0 <= i < p.len() <= q.len(),
        forall|t: int| 0 <= t <= i ==> p[t] == q[t],
    ensures
        tap_sum(g, p, i, k) == tap_sum(g, q, i, k),
    decreases k,
{
    if k > 0 {
        lemma_tap_sum_prefix(g, p, q, i, k - 1);
        assert(sample(p, i, k - 1) == sample(q, i, k - 1));
    }
}

proof fn lemma_code_block_prefix(rows: Seq<Seq<u8>>, p: Seq<u8>, q: Seq<u8>, i: int)
    requires
        0 <= i < p.len() <= q.len(),
        forall|t: int| 0 <= t <= i ==> p[t] == q[t],
    ensures
        code_block(rows, p, i) == code_block(rows, q, i),
{
    assert forall|j: int| 0 <= j < rows.len() implies code_bit(rows[j], p, i) == code_bit(
        rows[j],
        q,
        i,
    ) by {
        lemma_tap_sum_prefix(rows[j], p, q, i, rows[j].len() as int);
    }
    assert(code_block(rows, p, i) =~= code_block(rows, q, i));
}

/// Over a channel without noise the block received at a position is the
/// block sent there.
proof fn lemma_received_is_sent(rows: Seq<Seq<u8>>, truth: Seq<u8>, i: int)
    requires
        0 <= i < truth.len(),
    ensures
        received_block(code_blocks(rows, truth, truth.len() as int), rows.len() as int, i)
            == code_block(rows, truth, i),
{
    let n = rows.len() as int;
    let obs = code_blocks(rows, truth, truth.len() as int);
    lemma_code_blocks_index(rows, truth, truth.len() as int);
    assert((i + 1) * n == i * n + n) by (nonlinear_arith);
    assert(0 <= i * n && (i + 1) * n <= truth.len() * n) by (nonlinear_arith)
        requires
            0 <= i < truth.len(),
            0 <= n,
    ;
    let got = received_block(obs, n, i);
    assert forall|j: int| 0 <= j < n implies got[j] == code_block(rows, truth, i)[j] by {
        assert(got[j] == obs[i * n + j]);
    }
    assert(got =~= code_block(rows, truth, i));
}

/// A block held against itself earns `agree` for every bit.
proof fn lemma_tally_same(w: FanoWeights, block: Seq<u8>, k: int)
    requires
        0 <= k,
    ensures
        tally(w, block, block, k) == k * w.agree,
    decreases k,
{
    if k > 0 {
        lemma_tally_same(w, block, k - 1);
        assert(k * w.agree == (k - 1) * w.agree + w.agree) by (nonlinear_arith);
    } else {
        assert(k * w.agree == 0) by (nonlinear_arith)
            requires
                k == 0,
        ;
    }
}

/// Where agreeing earns no less than differing, `k` bits earn at most `k`
/// times `agree`.
proof fn lemma_tally_upper(w: FanoWeights, sent: Seq<u8>, received: Seq<u8>, k: int)
    requires
        0 <= k,
        w.differ <= w.agree,
    ensures
        tally(w, sent, received, k) <= k * w.agree,
    decreases k,
{
    if k > 0 {
        lemma_tally_upper(w, sent, received, k - 1);
        assert(k * w.agree == (k - 1) * w.agree + w.agree) by (nonlinear_arith);
    } else {
        assert(k * w.agree == 0) by (nonlinear_arith)
            requires
                k == 0,
        ;
    }
}

/// And where one of the `k` bits differs, they earn less by the difference
/// of the two weights.
proof fn lemma_tally_upper_miss(
    w: FanoWeights,
    sent: Seq<u8>,
    received: Seq<u8>,
    k: int,
    j: int,
)
    requires
        0 <= j < k,
        sent[j] != received[j],
        w.differ <= w.agree,
    ensures
        tally(w, sent, received, k) <= k * w.agree - (w.agree - w.differ),
    decreases k,
{
    assert(k * w.agree == (k - 1) * w.agree + w.agree) by (nonlinear_arith);
    if j == k - 1 {
        lemma_tally_upper(w, sent, received, k - 1);
    } else {
        lemma_tally_upper_miss(w, sent, received, k - 1, j);
    }
}

/// No step earns more than a clean one.
proof fn lemma_step_upper(path: Seq<u8>, obs: Seq<u8>, rows: Seq<Seq<u8>>, w: FanoWeights)
    requires
        w.differ <= w.agree,
    ensures
        step_metric(path, obs, rows, w) <= clean_step(rows, w),
{
    let k = path.len() - 1;
    lemma_tally_upper(
        w,
        code_block(rows, path, k),
        received_block(obs, rows.len() as int, k),
        rows.len() as int,
    );
}

/// A path of `k` steps earns at most `k` clean steps.
proof fn lemma_path_upper(path: Seq<u8>, obs: Seq<u8>, rows: Seq<Seq<u8>>, w: FanoWeights)
    requires
        w.differ <= w.agree,
    ensures
        path_metric(path, obs, rows, w) <= path.len() * clean_step(rows, w),
    decreases path.len(),
{
    let k = path.len() as int;
    let c = clean_step(rows, w);
    if k > 0 {
        lemma_path_upper(path.drop_last(), obs, rows, w);
        lemma_step_upper(path, obs, rows, w);
        assert(k * c == (k - 1) * c + c) by (nonlinear_arith);
    } else {
        assert(k * c == 0) by (nonlinear_arith)
            requires
                k == 0,
        ;
    }
}

/// A path one of whose blocks differs from what was received in some bit
/// earns less than as many clean steps, by the difference of the weights at
/// least.
proof fn lemma_path_upper_miss(
    path: Seq<u8>,
    obs: Seq<u8>,
    rows: Seq<Seq<u8>>,
    w: FanoWeights,
    i: int,
    j: int,
)
    requires
        w.differ <= w.agree,
        0 <= i < path.len(),
        0 <= j < rows.len(),
        code_block(rows, path, i)[j] != received_block(obs, rows.len() as int, i)[j],
    ensures
        path_metric(path, obs, rows, w) <= path.len() * clean_step(rows, w) - (w.agree - w.differ),
    decreases path.len(),
{
    let k = path.len() as int;
    let c = clean_step(rows, w);
    assert(k * c == (k - 1) * c + c) by (nonlinear_arith);
    if i == k - 1 {
        lemma_path_upper(path.drop_last(), obs, rows, w);
        lemma_tally_upper_miss(
            w,
            code_block(rows, path, i),
            received_block(obs, rows.len() as int, i),
            rows.len() as int,
            j,
        );
    } else {
        lemma_code_block_prefix(rows, path.drop_last(), path, i);
        lemma_path_upper_miss(path.drop_last(), obs, rows, w, i, j);
        lemma_step_upper(path, obs, rows, w);
    }
}

/// Over a channel without noise the first `k` steps of the path that was
/// sent earn `k` clean steps.
proof fn lemma_true_path_metric(rows: Seq<Seq<u8>>, truth: Seq<u8>, w: FanoWeights, k: int)
    requires
        0 <= k <= truth.len(),
    ensures
        path_metric(truth.take(k), code_blocks(rows, truth, truth.len() as int), rows, w) == k
            * clean_step(rows, w),
    decreases k,
{
    let c = clean_step(rows, w);
    let obs = code_blocks(rows, truth, truth.len() as int);
    if k > 0 {
        let path = truth.take(k);
        assert(path.drop_last() =~= truth.take(k - 1));
        lemma_true_path_metric(rows, truth, w, k - 1);
        lemma_code_block_prefix(rows, path, truth, k - 1);
        lemma_received_is_sent(rows, truth, k - 1);
        lemma_tally_same(w, code_block(rows, truth, k - 1), rows.len() as int);
        assert(k * c == (k - 1) * c + c) by (nonlinear_arith);
    } else {
        assert(k * c == 0) by (nonlinear_arith)
            requires
                k == 0,
        ;
    }
}

/// Where the taps below `d` are all zero, the sum of the first `d` taps is 0.
proof fn lemma_tap_sum_idle(g: Seq<u8>, xs: Seq<u8>, i: int, d: int, k: int)
    requires
        0 <= k <= d <= g.len(),
        forall|t: int| 0 <= t < d ==> g[t] == 0,
    ensures
        tap_sum(g, xs, i, k) == 0,
    decreases k,
{
    if k > 0 {
        lemma_tap_sum_idle(g, xs, i, d, k - 1);
        let x = sample(xs, i, k - 1);
        assert(g[k - 1] * x == 0) by (nonlinear_arith)
            requires
                g[k - 1] == 0,
        ;
        assert(0u8 ^ 0u8 == 0u8) by (bit_vector);
    }
}

/// Two inputs that first differ at position `t` give different bits at
/// position `t + d` through a generator whose lowest tap is `d`.
proof fn lemma_tap_sum_differs(g: Seq<u8>, p: Seq<u8>, q: Seq<u8>, t: int, d: int, k: int)
    requires
        binary(g),
        0 <= d < k <= g.len(),
        g[d] == 1,
        forall|s: int| 0 <= s < d ==> g[s] == 0,
        0 <= t < p.len(),
        t < q.len(),
        p[t] != q[t],
        forall|s: int| 0 <= s < t ==> p[s] == q[s],
    ensures
        tap_sum(g, p, t + d, k) != tap_sum(g, q, t + d, k),
    decreases k,
{
    let i = t + d;
    let acc_p = tap_sum(g, p, i, k - 1);
    let acc_q = tap_sum(g, q, i, k - 1);
    let x = sample(p, i, k - 1);
    let y = sample(q, i, k - 1);
    let c = g[k - 1];
    assert(c <= 1);
    if k == d + 1 {
        lemma_tap_sum_idle(g, p, i, d, d);
        lemma_tap_sum_idle(g, q, i, d, d);
        assert(x == p[t] && y == q[t]);
        assert(c * x == x && c * y == y) by (nonlinear_arith)
            requires
                c == 1,
        ;
        assert(0u8 ^ x != 0u8 ^ y) by (bit_vector)
            requires
                x != y,
        ;
    } else {
        lemma_tap_sum_differs(g, p, q, t, d, k - 1);
        assert(x == y);
        let term = (c * x) as u8;
        assert(acc_p ^ term != acc_q ^ term) by (bit_vector)
            requires
                acc_p != acc_q,
        ;
    }
}

/// The first position at which a path leaves the path that was sent.
proof fn first_difference(p: Seq<u8>, q: Seq<u8>) -> (t: int)
    requires
        p.len() <= q.len(),
        p != q.take(p.len() as int),
    ensures
        0 <= t < p.len(),
        p[t] != q[t],
        forall|s: int| 0 <= s < t ==> p[s] == q[s],
    decreases p.len(),
{
    if p.len() == 0 {
        assert(p =~= q.take(0));
        0
    } else if p.drop_last() != q.take(p.len() - 1) {
        let front = p.drop_last();
        let t = first_difference(front, q);
        assert(p[t] == front[t]);
        assert forall|s: int| 0 <= s < t implies p[s] == q[s] by {
            assert(p[s] == front[s]);
        }
        t
    } else {
        let t = p.len() - 1;
        let front = q.take(t);
        assert forall|s: int| 0 <= s < t implies p[s] == q[s] by {
            assert(p.drop_last()[s] == front[s]);
        }
        if p[t] == q[t] {
            assert(p =~= q.take(p.len() as int));
        }
        t
    }
}

/// The lowest tap of a generator that has one.
proof fn lowest_tap(g: Seq<u8>, k: int) -> (d: int)
    requires
        binary(g),
        0 <= k < g.len(),
        g[k] == 1,
    ensures
        0 <= d <= k,
        g[d] == 1,
        forall|s: int| 0 <= s < d ==> g[s] == 0,
    decreases k,
{
    if exists|s: int| 0 <= s < k && g[s] == 1 {
        let s = choose|s: int| 0 <= s < k && g[s] == 1;
        lowest_tap(g, s)
    } else {
        assert forall|s: int| 0 <= s < k implies g[s] == 0 by {
            assert(g[s] <= 1);
        }
        k
    }
}

/// The path that was sent, with what the decoder is given for it: the
/// generators, the number `l` of input bits, and the code word of the path as
/// the received sequence.
spec fn sent(truth: Seq<u8>, l: int, rows: Seq<Seq<u8>>) -> bool {
    &&& valid_generators(rows)
    &&& 0 <= l
    &&& truth.len() == l + memory(rows)
    &&& binary(truth)
    &&& forall|t: int| l <= t < truth.len() ==> #[trigger] truth[t] == 0
}

/// The node's path is the beginning of the path that was sent.
spec fn on_path(node: PathView, truth: Seq<u8>) -> bool {
    node.path.len() <= truth.len() && node.path == truth.take(node.path.len() as int)
}

/// A path of the tree that has left the path that was sent earns less than
/// as many clean steps: at once where a generator is free of delay, and at
/// full depth at the latest where any generator has a tap.
proof fn lemma_off_path_upper(
    node: PathView,
    truth: Seq<u8>,
    l: int,
    rows: Seq<Seq<u8>>,
    w: FanoWeights,
)
    requires
        sent(truth, l, rows),
        w.differ <= w.agree,
        on_tree(node, l, code_blocks(rows, truth, truth.len() as int), rows, w),
        !on_path(node, truth),
        delay_free(rows) || (has_tap(rows) && node.path.len() == truth.len()),
    ensures
        node.mu <= node.path.len() * clean_step(rows, w) - (w.agree - w.differ),
{
    let obs = code_blocks(rows, truth, truth.len() as int);
    let t = first_difference(node.path, truth);
    let (j, d) = if delay_free(rows) {
        let j = choose|j: int| 0 <= j < rows.len() && (#[trigger] rows[j])[0] == 1;
        (j, 0int)
    } else {
        let (j, k) = choose|j: int, k: int|
            0 <= j < rows.len() && 0 <= k < rows[j].len() && #[trigger] rows[j][k] == 1;
        assert(binary(rows[j]));
        let d = lowest_tap(rows[j], k);
        assert(t < l) by {
            if t >= l {
                assert(node.path[t] == 0);
                assert(truth[t] == 0);
            }
        }
        (j, d)
    };
    let g = rows[j];
    assert(binary(g));
    let i = t + d;
    assert(i < node.path.len());
    lemma_tap_sum_differs(g, node.path, truth, t, d, g.len() as int);
    lemma_received_is_sent(rows, truth, i);
    assert(code_block(rows, node.path, i)[j] == code_bit(g, node.path, i));
    assert(code_block(rows, truth, i)[j] == code_bit(g, truth, i));
    lemma_path_upper_miss(node.path, obs, rows, w, i, j);
}

/// What the proof of the round trip keeps true of the stack: one node, at
/// place `at`, lies on the path that was sent; no other does; and where a
/// clean step earns more than nothing, no other node is deeper than that one.
spec fn leads(stack: Seq<PathView>, at: int, truth: Seq<u8>, gain: int) -> bool {
    &&& 0 <= at < stack.len()
    &&& on_path(stack[at], truth)
    &&& forall|j: int|
        0 <= j < stack.len() && j != at ==> {
            &&& !on_path(#[trigger] stack[j], truth)
            &&& gain > 0 ==> stack[j].path.len() <= stack[at].path.len()
        }
}

/// Over a channel without noise the search ends at the path that was sent,
/// from any stack on which that path leads.
proof fn lemma_search_finds(
    stack: Seq<PathView>,
    at: int,
    truth: Seq<u8>,
    l: int,
    rows: Seq<Seq<u8>>,
    w: FanoWeights,
)
    requires
        sent(truth, l, rows),
        w.differ < w.agree,
        delay_free(rows) || (has_tap(rows) && clean_step(rows, w) <= 0),
        all_on_tree(stack, l, code_blocks(rows, truth, truth.len() as int), rows, w),
        leads(stack, at, truth, clean_step(rows, w)),
    ensures
        search(stack, l, code_blocks(rows, truth, truth.len() as int), rows, w).len() > 0,
        search(stack, l, code_blocks(rows, truth, truth.len() as int), rows, w).last().path
            == truth,
    decreases potential(stack, l, l + memory(rows)),
{
    let obs = code_blocks(rows, truth, truth.len() as int);
    let total = l + memory(rows);
    let c = clean_step(rows, w);
    let i = best_index(stack);
    let best = stack[i];
    let lead = stack[at];
    let k = lead.path.len() as int;
    lemma_best_index(stack);
    assert(on_tree(best, l, obs, rows, w));
    assert(on_tree(lead, l, obs, rows, w));
    lemma_true_path_metric(rows, truth, w, k);
    assert(lead.mu == k * c);
    assert(lead.mu <= best.mu);
    if i != at {
        // a node off the path cannot be the best at full depth, nor at any
        // depth where a clean step earns more than nothing
        let len = best.path.len() as int;
        if len >= total || c > 0 {
            lemma_off_path_upper(best, truth, l, rows, w);
            if c > 0 {
                assert(len * c <= k * c) by (nonlinear_arith)
                    requires
                        len <= k,
                        c > 0,
                ;
            } else {
                assert(len * c <= k * c) by (nonlinear_arith)
                    requires
                        k <= len,
                        c <= 0,
                ;
            }
            assert(false);
        }
    }
    if best.path.len() >= total {
        assert(best.path =~= truth);
    } else {
        let kids = children(best, l, obs, rows, w);
        let rest = stack.remove(i);
        let next = rest + kids;
        lemma_next_on_tree(stack, i, l, obs, rows, w);
        lemma_extension_lowers_potential(stack, i, l, total, obs, rows, w);
        let len = best.path.len() as int;
        let next_at: int = if i != at {
            if at < i {
                at
            } else {
                at - 1
            }
        } else if len < l && truth[len] == 1 {
            rest.len() as int + 1
        } else {
            rest.len() as int
        };
        assert(leads(next, next_at, truth, c)) by {
            if i == at {
                assert(truth[len] <= 1);
                assert(next[next_at].path =~= truth.take(len + 1));
            } else {
                assert(next[next_at] == lead);
            }
            assert forall|j: int| 0 <= j < next.len() && j != next_at implies {
                &&& !on_path(#[trigger] next[j], truth)
                &&& c > 0 ==> next[j].path.len() <= next[next_at].path.len()
            } by {
                if j < rest.len() {
                    let from = if j < i {
                        j
                    } else {
                        j + 1
                    };
                    assert(next[j] == stack[from]);
                    assert(from != at);
                } else {
                    let kid = kids[j - rest.len()];
                    assert(next[j] == kid);
                    if on_path(kid, truth) {
                        if i == at {
                            assert(kid.path[len] == truth.take(len + 1)[len]);
                        } else {
                            assert(kid.path.drop_last() =~= best.path);
                            assert(truth.take(len + 1).drop_last() =~= truth.take(len));
                        }
                        assert(false);
                    }
                }
            }
        }
        lemma_search_finds(next, next_at, truth, l, rows, w);
        let tail = search(next, l, obs, rows, w);
        assert(search(stack, l, obs, rows, w) == kids + tail);
        assert((kids + tail).last() == tail.last());
    }
}

/// Round trip without noise. Where agreeing earns more than differing, as
/// on every channel with a crossover probability below one half, decoding
/// the code word of an input gives the input back, if some generator is
/// free of delay, or if a clean step earns nothing and some generator has a
/// tap.
///
/// Without such a condition it is not so: where every generator delays and
/// a clean step earns something, the search may run down a wrong path whose
/// blocks agree with what was received until it is too late to turn back.
pub proof fn lemma_round_trip(xs: Seq<u8>, rows: Seq<Seq<u8>>, w: FanoWeights)
    requires
        binary(xs),
        valid_generators(rows),
        w.differ < w.agree,
        delay_free(rows) || (has_tap(rows) && rows.len() * w.agree <= SCALE),
    ensures
        decoded(code_word(rows, xs), rows, w) == xs,
{
    let m = memory(rows);
    let n = rows.len() as int;
    let l = xs.len() as int;
    let truth = terminated(xs, m);
    let obs = code_word(rows, xs);
    lemma_code_blocks_index(rows, truth, truth.len() as int);
    assert(input_length(obs, rows) == l) by {
        let steps = truth.len() as int;
        assert((steps * n) / n == steps) by (nonlinear_arith)
            requires
                n >= 1,
                steps >= 0,
        ;
    }
    let stack = seq![root()];
    assert(root().path =~= truth.take(0));
    assert(all_on_tree(stack, l, obs, rows, w));
    assert(leads(stack, 0, truth, clean_step(rows, w)));
    lemma_search_finds(stack, 0, truth, l, rows, w);
    assert(truth.take(truth.len() - m) =~= xs);
}

} // verus!
