//! Nodes of the code tree: a path of input bits with its metric.

use crate::encoder::{code_block, encode_step};
use crate::generators::Gens;
use crate::metric::{
    bit_metric, block_metric, lemma_tally_bounds, tally, FanoWeights, SCALE, WEIGHT_LIMIT,
};
use vstd::prelude::*;

verus! {

/// A node of the code tree as plain values.
pub struct PathView {
    /// The input bits from the root to the node.
    pub path: Seq<u8>,
    /// The block of the last step; empty at the root.
    pub code: Seq<u8>,
    /// The Fano metric of the path, in units of 2^-32 bit.
    pub mu: int,
}

/// A partial decoding hypothesis: the input bits guessed so far, the block
/// that the encoder emits for the last of them, and the Fano metric of the
/// whole path in units of 2^-32 bit.
#[derive(Clone, Debug)]
pub struct CodePath {
    /// The input bits from the root to the node.
    pub path: Vec<u8>,
    /// The block of the last step, kept for display; empty at the root.
    pub code: Vec<u8>,
    /// The Fano metric of the path, in units of 2^-32 bit.
    pub mu: i128,
}

impl View for CodePath {
    type V = PathView;

    open spec fn view(&self) -> PathView {
        PathView { path: self.path@, code: self.code@, mu: self.mu as int }
    }
}

/// The nodes of a sequence of paths, as plain values.
pub open spec fn views(paths: Seq<CodePath>) -> Seq<PathView> {
    Seq::new(paths.len(), |i: int| paths[i]@)
}

/// The node at which every search starts: no input, no code, metric 0.
pub open spec fn root() -> PathView {
    PathView { path: Seq::empty(), code: Seq::empty(), mu: 0 }
}

/// The `n` received bits that stand against step `k`.
pub open spec fn received_block(obs: Seq<u8>, n: int, k: int) -> Seq<u8> {
    obs.subrange(k * n, (k + 1) * n)
}

/// The metric of the last step of `path`: its block against the received
/// bits of the same position.
pub open spec fn step_metric(path: Seq<u8>, obs: Seq<u8>, rows: Seq<Seq<u8>>, w: FanoWeights) -> int {
    let k = path.len() - 1;
    block_metric(w, code_block(rows, path, k), received_block(obs, rows.len() as int, k))
}

/// The node reached from `node` along the branch of input bit `x`.
pub open spec fn branch(
    node: PathView,
    x: u8,
    obs: Seq<u8>,
    rows: Seq<Seq<u8>>,
    w: FanoWeights,
) -> PathView {
    let path = node.path.push(x);
    PathView {
        path: path,
        code: code_block(rows, path, path.len() - 1),
        mu: node.mu + step_metric(path, obs, rows, w),
    }
}

/// The nodes that replace `node` when it is extended: both branches while
/// the path is shorter than `l`, the zero branch alone from there on.
pub open spec fn children(
    node: PathView,
    l: int,
    obs: Seq<u8>,
    rows: Seq<Seq<u8>>,
    w: FanoWeights,
) -> Seq<PathView> {
    if node.path.len() < l {
        seq![branch(node, 0, obs, rows, w), branch(node, 1, obs, rows, w)]
    } else {
        seq![branch(node, 0, obs, rows, w)]
    }
}

/// The Fano metric of a path: the metrics of its steps, added up.
pub open spec fn path_metric(path: Seq<u8>, obs: Seq<u8>, rows: Seq<Seq<u8>>, w: FanoWeights) -> int
    decreases path.len(),
{
    if path.len() == 0 {
        0
    } else {
        path_metric(path.drop_last(), obs, rows, w) + step_metric(path, obs, rows, w)
    }
}

/// The block that the encoder emits for the last input of `path`.
pub open spec fn last_block(path: Seq<u8>, rows: Seq<Seq<u8>>) -> Seq<u8> {
    if path.len() == 0 {
        Seq::empty()
    } else {
        code_block(rows, path, path.len() - 1)
    }
}

/// The node carries the metric and the block that belong to its path.
pub open spec fn consistent(
    node: PathView,
    obs: Seq<u8>,
    rows: Seq<Seq<u8>>,
    w: FanoWeights,
) -> bool {
    &&& node.mu == path_metric(node.path, obs, rows, w)
    &&& node.code == last_block(node.path, rows)
}

/// The root is consistent, and a branch from a consistent node is
/// consistent.
pub proof fn lemma_branch_consistent(
    node: PathView,
    x: u8,
    obs: Seq<u8>,
    rows: Seq<Seq<u8>>,
    w: FanoWeights,
)
    requires
        consistent(node, obs, rows, w),
    ensures
        consistent(root(), obs, rows, w),
        consistent(branch(node, x, obs, rows, w), obs, rows, w),
{
    let next = branch(node, x, obs, rows, w);
    assert(next.path.drop_last() == node.path);
}

/// The node reached from `node` along the branches of `bits`, one after the
/// other.
pub open spec fn follow(
    node: PathView,
    bits: Seq<u8>,
    obs: Seq<u8>,
    rows: Seq<Seq<u8>>,
    w: FanoWeights,
) -> PathView
    decreases bits.len(),
{
    if bits.len() == 0 {
        node
    } else {
        branch(follow(node, bits.drop_last(), obs, rows, w), bits.last(), obs, rows, w)
    }
}

/// Fano additivity: the node reached from the root along a path, step by
/// step, carries that path, the block of its last step, and as its metric
/// the sum of the metrics of all its steps.
pub proof fn lemma_fano_additive(path: Seq<u8>, obs: Seq<u8>, rows: Seq<Seq<u8>>, w: FanoWeights)
    ensures
        follow(root(), path, obs, rows, w).path == path,
        follow(root(), path, obs, rows, w).mu == path_metric(path, obs, rows, w),
        follow(root(), path, obs, rows, w).code == last_block(path, rows),
    decreases path.len(),
{
    if path.len() == 0 {
        assert(path =~= Seq::<u8>::empty());
    } else {
        lemma_fano_additive(path.drop_last(), obs, rows, w);
        assert(path.drop_last().push(path.last()) =~= path);
    }
}

/// The metric of a path of `k` steps lies within `k` times the bound of one
/// step, which is `n` weights and the rate.
pub proof fn lemma_path_metric_bounds(
    path: Seq<u8>,
    obs: Seq<u8>,
    rows: Seq<Seq<u8>>,
    w: FanoWeights,
    limit: int,
)
    requires
        -limit <= w.agree <= limit,
        -limit <= w.differ <= limit,
    ensures
        -(path.len() * (rows.len() * limit + SCALE)) <= path_metric(path, obs, rows, w),
        path_metric(path, obs, rows, w) <= path.len() * (rows.len() * limit + SCALE),
    decreases path.len(),
{
    let k = path.len() as int;
    let step = rows.len() * limit + SCALE;
    if k > 0 {
        lemma_path_metric_bounds(path.drop_last(), obs, rows, w, limit);
        lemma_tally_bounds(
            w,
            code_block(rows, path, k - 1),
            received_block(obs, rows.len() as int, k - 1),
            rows.len() as int,
            limit,
        );
        assert(k * step == (k - 1) * step + step) by (nonlinear_arith);
    } else {
        assert(k * step == 0) by (nonlinear_arith)
            requires
                k == 0,
        ;
    }
}

/// The metric of a node that carries the metric of its path fits `i128`,
/// whatever the weights within `WEIGHT_LIMIT` and however long the received
/// sequence that holds a block for each of its steps.
pub proof fn lemma_metric_fits(
    node: PathView,
    obs: Seq<u8>,
    rows: Seq<Seq<u8>>,
    w: FanoWeights,
)
    requires
        w.bounded(),
        rows.len() >= 1,
        obs.len() <= usize::MAX,
        consistent(node, obs, rows, w),
        node.path.len() * rows.len() <= obs.len(),
    ensures
        i128::MIN <= node.mu <= i128::MAX,
{
    let k = node.path.len() as int;
    let n = rows.len() as int;
    let len = obs.len() as int;
    let limit = WEIGHT_LIMIT as int;
    let scale = SCALE as int;
    lemma_path_metric_bounds(node.path, obs, rows, w, limit);
    assert(k * (n * limit + scale) == (k * n) * limit + k * scale) by (nonlinear_arith);
    assert((k * n) * limit <= len * limit) by (nonlinear_arith)
        requires
            k * n <= len,
            0 <= limit,
    ;
    assert(k <= k * n) by (nonlinear_arith)
        requires
            0 <= k,
            1 <= n,
    ;
    assert(k * scale <= len * scale) by (nonlinear_arith)
        requires
            k <= len,
            0 <= scale,
    ;
    assert(len * limit + len * scale <= 0x7fff_ffff_ffff_ffff_ffff_ffff_ffff_ffff) by (nonlinear_arith)
        requires
            0 <= len <= 0xffff_ffff_ffff_ffff,
            limit == 0x4000_0000_0000_0000,
            scale == 0x1_0000_0000,
    ;
}

/// A branch from a node that carries the metric of its path fits `i128` in
/// its metric: under weights within `WEIGHT_LIMIT` the machine's limit never
/// stands in the way of a step from a node that was reached from the root.
pub proof fn lemma_branch_fits(
    node: PathView,
    x: u8,
    obs: Seq<u8>,
    rows: Seq<Seq<u8>>,
    w: FanoWeights,
)
    requires
        w.bounded(),
        rows.len() >= 1,
        obs.len() <= usize::MAX,
        consistent(node, obs, rows, w),
        (node.path.len() + 1) * rows.len() <= obs.len(),
    ensures
        i128::MIN <= branch(node, x, obs, rows, w).mu <= i128::MAX,
{
    lemma_branch_consistent(node, x, obs, rows, w);
    lemma_metric_fits(branch(node, x, obs, rows, w), obs, rows, w);
}

/// What the first `k` bits of a block add to `n` times the metric of its
/// step, each bit for itself: `n` times its weight, less one bit, which is
/// `n` times the rate of `1/n` bit that each bit pays.
pub open spec fn per_bit(
    w: FanoWeights,
    sent: Seq<u8>,
    received: Seq<u8>,
    n: int,
    k: int,
) -> int
    decreases k,
{
    if k <= 0 {
        0
    } else {
        per_bit(w, sent, received, n, k - 1) + n * bit_metric(w, sent[k - 1], received[k - 1])
            - SCALE
    }
}

proof fn lemma_per_bit(w: FanoWeights, sent: Seq<u8>, received: Seq<u8>, n: int, k: int)
    requires
        0 <= k,
    ensures
        per_bit(w, sent, received, n, k) == n * tally(w, sent, received, k) - k * SCALE,
    decreases k,
{
    if k > 0 {
        lemma_per_bit(w, sent, received, n, k - 1);
        let before = tally(w, sent, received, k - 1);
        let bit = bit_metric(w, sent[k - 1], received[k - 1]);
        assert(n * (before + bit) == n * before + n * bit) by (nonlinear_arith);
    }
}

/// One step of the Fano metric: the branch of input bit `x` appends `x` to
/// the path, carries the block that the encoder emits for it, and adds to
/// the metric, for each bit of that block, the weight of its agreeing or
/// differing with the bit received, less the rate of `1/n` bit. The last is
/// stated times `n`, where it is a whole number.
pub proof fn lemma_fano_step(
    node: PathView,
    x: u8,
    obs: Seq<u8>,
    rows: Seq<Seq<u8>>,
    w: FanoWeights,
)
    ensures
        branch(node, x, obs, rows, w).path == node.path.push(x),
        branch(node, x, obs, rows, w).code == code_block(
            rows,
            node.path.push(x),
            node.path.len() as int,
        ),
        branch(node, x, obs, rows, w).mu - node.mu == block_metric(
            w,
            branch(node, x, obs, rows, w).code,
            received_block(obs, rows.len() as int, node.path.len() as int),
        ),
        rows.len() * (branch(node, x, obs, rows, w).mu - node.mu) == per_bit(
            w,
            branch(node, x, obs, rows, w).code,
            received_block(obs, rows.len() as int, node.path.len() as int),
            rows.len() as int,
            rows.len() as int,
        ),
{
    let n = rows.len() as int;
    let next = branch(node, x, obs, rows, w);
    let received = received_block(obs, n, node.path.len() as int);
    lemma_per_bit(w, next.code, received, n, n);
    let sum = tally(w, next.code, received, n);
    assert(n * (sum - SCALE) == n * sum - n * SCALE) by (nonlinear_arith);
}

impl CodePath {
    /// The node at which every search starts.
    pub fn root() -> (node: CodePath)
        ensures
            node@ == root(),
    {
        CodePath { path: Vec::new(), code: Vec::new(), mu: 0 }
    }

    /// A copy with the same path, block and metric.
    pub fn duplicate(&self) -> (copy: CodePath)
        ensures
            copy@ == self@,
    {
        CodePath { path: self.path.clone(), code: self.code.clone(), mu: self.mu }
    }

    /// Follows the branch of input bit `x`: appends `x` to the path, stores
    /// the block that the encoder emits for it, and adds to the metric what
    /// that block earns against the received bits of its position.
    ///
    /// The new metric has to fit `i128`. It does for every node reached from
    /// the root under weights within `WEIGHT_LIMIT`: `lemma_branch_fits`.
    pub fn fano(&mut self, x: u8, ys: &Vec<u8>, gs: &Gens, w: &FanoWeights)
        requires
            x <= 1,
            gs.wf(),
            (old(self).path.len() + 1) * gs.n <= ys.len(),
            i128::MIN <= branch(old(self)@, x, ys@, gs@, *w).mu <= i128::MAX,
        ensures
            final(self)@ == branch(old(self)@, x, ys@, gs@, *w),
    {
        self.path.push(x);
        let idx = self.path.len() - 1;
        let n = gs.n;
        let block = encode_step(&self.path, gs, idx);
        assert(idx * n + n == (idx + 1) * n) by (nonlinear_arith);
        assert(0 <= idx * n) by (nonlinear_arith)
            requires
                0 <= idx,
                0 <= n,
        ;
        let base = idx * n;
        let ghost received = received_block(ys@, n as int, idx as int);
        let mut sum: i128 = 0;
        let mut j: usize = 0;
        while j < n
            invariant
                j <= n,
                n == block.len(),
                base + n <= ys.len(),
                received == ys@.subrange(base as int, base + n),
                sum == tally(*w, block@, received, j as int),
                -(j * 0x8000_0000_0000_0000) <= sum <= j * 0x8000_0000_0000_0000,
            decreases n - j,
        {
            if block[j] == ys[base + j] {
                sum = sum + w.agree as i128;
            } else {
                sum = sum + w.differ as i128;
            }
            j = j + 1;
        }
        self.code = block;
        self.mu = self.mu + (sum - SCALE as i128);
    }

    /// Consumes the node and gives the nodes that replace it: both branches
    /// while the path is shorter than `l`, the zero branch alone from there
    /// on, where the input is known to be the terminating zeros.
    pub fn extend(self, l: usize, ys: &Vec<u8>, gs: &Gens, w: &FanoWeights) -> (v: Vec<CodePath>)
        requires
            gs.wf(),
            (self.path.len() + 1) * gs.n <= ys.len(),
            forall|i: int|
                0 <= i < children(self@, l as int, ys@, gs@, *w).len() ==> i128::MIN <= (
                #[trigger] children(self@, l as int, ys@, gs@, *w)[i]).mu <= i128::MAX,
        ensures
            views(v@) == children(self@, l as int, ys@, gs@, *w),
    {
        let mut v: Vec<CodePath> = Vec::new();
        let ghost kids = children(self@, l as int, ys@, gs@, *w);
        if self.path.len() < l {
            let mut zero = self;
            let mut one = zero.duplicate();
            assert(kids[0] == branch(zero@, 0, ys@, gs@, *w));
            assert(kids[1] == branch(one@, 1, ys@, gs@, *w));
            zero.fano(0, ys, gs, w);
            one.fano(1, ys, gs, w);
            v.push(zero);
            v.push(one);
        } else {
            let mut zero = self;
            assert(kids[0] == branch(zero@, 0, ys@, gs@, *w));
            zero.fano(0, ys, gs, w);
            v.push(zero);
        }
        assert(views(v@) =~= kids);
        v
    }
}

} // verus!
