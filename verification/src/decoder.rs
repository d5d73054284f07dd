//! The stack algorithm: a best-first search of the code tree, stated as a
//! function on stacks of nodes and carried out on a vector.

use crate::encoder::{binary, terminated};
use crate::generators::{memory, Gens};
use crate::metric::FanoWeights;
use crate::path::{
    children, consistent, lemma_branch_consistent, lemma_metric_fits, path_metric, root, views,
    CodePath, PathView,
};
use vstd::prelude::*;

verus! {

/// The number of input bits that a received sequence stands for: its number
/// of whole blocks, less the `m` blocks of the terminating zeros.
pub open spec fn input_length(obs: Seq<u8>, rows: Seq<Seq<u8>>) -> int {
    obs.len() as int / rows.len() as int - memory(rows)
}

/// The number of nodes of the code tree at and below a node of the given
/// depth: the tree branches in two above depth `l`, goes on in one line from
/// there, and ends at depth `total`.
pub open spec fn subtree(depth: int, l: int, total: int) -> nat
    decreases total - depth,
{
    if depth >= total {
        1
    } else if depth < l {
        1 + 2 * subtree(depth + 1, l, total)
    } else {
        1 + subtree(depth + 1, l, total)
    }
}

/// The number of nodes of the code tree that a search from this stack can
/// still visit. Each extension lowers it by one.
pub open spec fn potential(stack: Seq<PathView>, l: int, total: int) -> nat
    decreases stack.len(),
{
    if stack.len() == 0 {
        0
    } else {
        potential(stack.drop_last(), l, total) + subtree(
            stack.last().path.len() as int,
            l,
            total,
        )
    }
}

/// The place of the node that the search takes next: the greatest metric,
/// and among equal metrics the node that entered the stack first.
pub open spec fn best_index(stack: Seq<PathView>) -> int
    decreases stack.len(),
{
    if stack.len() <= 1 {
        0
    } else {
        let b = best_index(stack.drop_last());
        if stack.last().mu > stack[b].mu {
            stack.len() - 1
        } else {
            b
        }
    }
}

/// The stack algorithm from a given stack on. Its value is the nodes that
/// the search makes, in the order of their creation, and after them the node
/// at which the search ends: the first one of full depth that is the best of
/// the stack.
pub open spec fn search(
    stack: Seq<PathView>,
    l: int,
    obs: Seq<u8>,
    rows: Seq<Seq<u8>>,
    w: FanoWeights,
) -> Seq<PathView>
    decreases potential(stack, l, l + memory(rows)),
    when stack.len() > 0
    via search_decreases
{
    let i = best_index(stack);
    let best = stack[i];
    if best.path.len() >= l + memory(rows) {
        seq![best]
    } else {
        let kids = children(best, l, obs, rows, w);
        kids + search(stack.remove(i) + kids, l, obs, rows, w)
    }
}

#[via_fn]
proof fn search_decreases(
    stack: Seq<PathView>,
    l: int,
    obs: Seq<u8>,
    rows: Seq<Seq<u8>>,
    w: FanoWeights,
) {
    let i = best_index(stack);
    if stack[i].path.len() < l + memory(rows) {
        lemma_best_index(stack);
        lemma_extension_lowers_potential(stack, i, l, l + memory(rows), obs, rows, w);
    }
}

/// The whole search over a received sequence: the nodes that it makes, in
/// the order of their creation, and after them the node at which it ends.
/// The record of the search is all of it but that last entry.
pub open spec fn decoding(obs: Seq<u8>, rows: Seq<Seq<u8>>, w: FanoWeights) -> Seq<PathView> {
    search(seq![root()], input_length(obs, rows), obs, rows, w)
}

/// The decoded input: the path of the node at which the search ends,
/// without the terminating zeros.
pub open spec fn decoded(obs: Seq<u8>, rows: Seq<Seq<u8>>, w: FanoWeights) -> Seq<u8> {
    let path = decoding(obs, rows, w).last().path;
    path.take(path.len() - memory(rows))
}

/// `best_index` is the first place of the greatest metric.
pub proof fn lemma_best_index(stack: Seq<PathView>)
    requires
        stack.len() > 0,
    ensures
        0 <= best_index(stack) < stack.len(),
        forall|j: int| 0 <= j < stack.len() ==> (#[trigger] stack[j]).mu <= stack[best_index(stack)].mu,
        forall|j: int|
            0 <= j < best_index(stack) ==> (#[trigger] stack[j]).mu < stack[best_index(stack)].mu,
    decreases stack.len(),
{
    if stack.len() > 1 {
        let front = stack.drop_last();
        lemma_best_index(front);
        assert forall|j: int| 0 <= j < stack.len() implies (#[trigger] stack[j]).mu
            <= stack[best_index(stack)].mu by {
            if j < front.len() {
                assert(stack[j] == front[j]);
            }
        }
        assert forall|j: int| 0 <= j < best_index(stack) implies (#[trigger] stack[j]).mu
            < stack[best_index(stack)].mu by {
            assert(stack[j] == front[j]);
        }
    }
}

proof fn lemma_potential_concat(a: Seq<PathView>, b: Seq<PathView>, l: int, total: int)
    ensures
        potential(a + b, l, total) == potential(a, l, total) + potential(b, l, total),
    decreases b.len(),
{
    if b.len() == 0 {
        assert(a + b =~= a);
    } else {
        assert((a + b).drop_last() =~= a + b.drop_last());
        lemma_potential_concat(a, b.drop_last(), l, total);
    }
}

proof fn lemma_potential_remove(stack: Seq<PathView>, i: int, l: int, total: int)
    requires
        0 <= i < stack.len(),
    ensures
        potential(stack, l, total) == potential(stack.remove(i), l, total) + subtree(
            stack[i].path.len() as int,
            l,
            total,
        ),
{
    let front = stack.subrange(0, i);
    let one = seq![stack[i]];
    let back = stack.subrange(i + 1, stack.len() as int);
    assert(stack =~= front + one + back);
    lemma_potential_concat(front + one, back, l, total);
    lemma_potential_concat(front, one, l, total);
    lemma_potential_concat(front, back, l, total);
    assert(one.drop_last() =~= Seq::<PathView>::empty());
    assert(potential(one, l, total) == subtree(stack[i].path.len() as int, l, total)) by {
        reveal_with_fuel(potential, 2);
    }
}

/// Taking a node of less than full depth off the stack and putting its
/// children there lowers the potential by exactly one.
pub proof fn lemma_extension_lowers_potential(
    stack: Seq<PathView>,
    i: int,
    l: int,
    total: int,
    obs: Seq<u8>,
    rows: Seq<Seq<u8>>,
    w: FanoWeights,
)
    requires
        0 <= i < stack.len(),
        stack[i].path.len() < total,
    ensures
        potential(stack.remove(i) + children(stack[i], l, obs, rows, w), l, total) + 1
            == potential(stack, l, total),
{
    let node = stack[i];
    let kids = children(node, l, obs, rows, w);
    lemma_potential_remove(stack, i, l, total);
    lemma_potential_concat(stack.remove(i), kids, l, total);
    let below = subtree(node.path.len() as int + 1, l, total);
    if node.path.len() < l {
        assert(kids.drop_last() =~= seq![kids[0]]);
        assert(kids.drop_last().drop_last() =~= Seq::<PathView>::empty());
        assert(potential(kids, l, total) == 2 * below) by {
            reveal_with_fuel(potential, 3);
        }
    } else {
        assert(kids.drop_last() =~= Seq::<PathView>::empty());
        assert(potential(kids, l, total) == below) by {
            reveal_with_fuel(potential, 2);
        }
    }
}

/// Every node on the stack counts in the potential.
proof fn lemma_potential_counts(stack: Seq<PathView>, l: int, total: int)
    ensures
        stack.len() <= potential(stack, l, total),
    decreases stack.len(),
{
    if stack.len() > 0 {
        lemma_potential_counts(stack.drop_last(), l, total);
    }
}

/// The search ends, and it makes no node twice: the nodes that it makes
/// from a stack on are no more than the nodes of the tree below the nodes of
/// the stack.
pub proof fn lemma_search_bounded(
    stack: Seq<PathView>,
    l: int,
    obs: Seq<u8>,
    rows: Seq<Seq<u8>>,
    w: FanoWeights,
)
    requires
        stack.len() > 0,
    ensures
        1 <= search(stack, l, obs, rows, w).len(),
        search(stack, l, obs, rows, w).len() + stack.len() <= potential(
            stack,
            l,
            l + memory(rows),
        ) + 1,
    decreases potential(stack, l, l + memory(rows)),
{
    let total = l + memory(rows);
    let i = best_index(stack);
    lemma_best_index(stack);
    lemma_potential_counts(stack, l, total);
    if stack[i].path.len() < total {
        let kids = children(stack[i], l, obs, rows, w);
        lemma_extension_lowers_potential(stack, i, l, total, obs, rows, w);
        lemma_search_bounded(stack.remove(i) + kids, l, obs, rows, w);
    }
}

/// The record of a whole search holds fewer nodes than the code tree has:
/// the root is not made, and no node is made twice.
pub proof fn lemma_decoding_bounded(obs: Seq<u8>, rows: Seq<Seq<u8>>, w: FanoWeights)
    ensures
        decoding(obs, rows, w).len() >= 1,
        decoding(obs, rows, w).drop_last().len() < subtree(
            0,
            input_length(obs, rows),
            input_length(obs, rows) + memory(rows),
        ),
{
    let l = input_length(obs, rows);
    let stack = seq![root()];
    lemma_search_bounded(stack, l, obs, rows, w);
    assert(stack.drop_last() =~= Seq::<PathView>::empty());
    assert(potential(stack, l, l + memory(rows)) == subtree(0, l, l + memory(rows))) by {
        reveal_with_fuel(potential, 2);
    }
}

/// What the decoder keeps true of every node on its stack: the node carries
/// the metric and block of its path, the path is binary, no longer than the
/// tree is deep, and zero where the terminating zeros stand.
pub open spec fn on_tree(
    node: PathView,
    l: int,
    obs: Seq<u8>,
    rows: Seq<Seq<u8>>,
    w: FanoWeights,
) -> bool {
    &&& consistent(node, obs, rows, w)
    &&& node.path.len() <= l + memory(rows)
    &&& binary(node.path)
    &&& forall|t: int| 0 <= t && l <= t < node.path.len() ==> #[trigger] node.path[t] == 0
}

pub open spec fn all_on_tree(
    nodes: Seq<PathView>,
    l: int,
    obs: Seq<u8>,
    rows: Seq<Seq<u8>>,
    w: FanoWeights,
) -> bool {
    forall|i: int| 0 <= i < nodes.len() ==> on_tree(#[trigger] nodes[i], l, obs, rows, w)
}

/// The children of a node of the tree that is not of full depth are on the
/// tree.
pub proof fn lemma_children_on_tree(
    node: PathView,
    l: int,
    obs: Seq<u8>,
    rows: Seq<Seq<u8>>,
    w: FanoWeights,
)
    requires
        on_tree(node, l, obs, rows, w),
        node.path.len() < l + memory(rows),
    ensures
        all_on_tree(children(node, l, obs, rows, w), l, obs, rows, w),
{
    let kids = children(node, l, obs, rows, w);
    lemma_branch_consistent(node, 0, obs, rows, w);
    lemma_branch_consistent(node, 1, obs, rows, w);
    assert forall|i: int| 0 <= i < kids.len() implies on_tree(
        #[trigger] kids[i],
        l,
        obs,
        rows,
        w,
    ) by {
        let kid = kids[i];
        assert forall|t: int| 0 <= t < kid.path.len() implies #[trigger] kid.path[t] <= 1 by {
            if t < node.path.len() {
                assert(kid.path[t] == node.path[t]);
            }
        }
        assert forall|t: int| 0 <= t && l <= t < kid.path.len() implies #[trigger] kid.path[t]
            == 0 by {
            if t < node.path.len() {
                assert(kid.path[t] == node.path[t]);
            }
        }
    }
}

/// Taking a node of less than full depth off a stack of nodes of the tree
/// and putting its children there leaves a stack of nodes of the tree.
pub proof fn lemma_next_on_tree(
    stack: Seq<PathView>,
    i: int,
    l: int,
    obs: Seq<u8>,
    rows: Seq<Seq<u8>>,
    w: FanoWeights,
)
    requires
        0 <= i < stack.len(),
        all_on_tree(stack, l, obs, rows, w),
        stack[i].path.len() < l + memory(rows),
    ensures
        all_on_tree(stack.remove(i) + children(stack[i], l, obs, rows, w), l, obs, rows, w),
{
    let kids = children(stack[i], l, obs, rows, w);
    let rest = stack.remove(i);
    let next = rest + kids;
    assert(on_tree(stack[i], l, obs, rows, w));
    lemma_children_on_tree(stack[i], l, obs, rows, w);
    assert forall|t: int| 0 <= t < next.len() implies on_tree(
        #[trigger] next[t],
        l,
        obs,
        rows,
        w,
    ) by {
        if t < rest.len() {
            if t < i {
                assert(next[t] == stack[t]);
            } else {
                assert(next[t] == stack[t + 1]);
            }
        } else {
            assert(next[t] == kids[t - rest.len()]);
        }
    }
}

/// The node at which the search ends is a node of the tree of full depth,
/// and it was on the stack from the start or is among the nodes that the
/// search made.
pub proof fn lemma_search_end(
    stack: Seq<PathView>,
    l: int,
    obs: Seq<u8>,
    rows: Seq<Seq<u8>>,
    w: FanoWeights,
)
    requires
        stack.len() > 0,
        all_on_tree(stack, l, obs, rows, w),
    ensures
        search(stack, l, obs, rows, w).len() > 0,
        on_tree(search(stack, l, obs, rows, w).last(), l, obs, rows, w),
        search(stack, l, obs, rows, w).last().path.len() == l + memory(rows),
        stack.contains(search(stack, l, obs, rows, w).last()) || search(
            stack,
            l,
            obs,
            rows,
            w,
        ).drop_last().contains(search(stack, l, obs, rows, w).last()),
    decreases potential(stack, l, l + memory(rows)),
{
    let total = l + memory(rows);
    let i = best_index(stack);
    let best = stack[i];
    lemma_best_index(stack);
    assert(on_tree(best, l, obs, rows, w));
    if best.path.len() < total {
        let kids = children(best, l, obs, rows, w);
        let rest = stack.remove(i);
        let next = rest + kids;
        lemma_next_on_tree(stack, i, l, obs, rows, w);
        lemma_extension_lowers_potential(stack, i, l, total, obs, rows, w);
        lemma_search_end(next, l, obs, rows, w);
        let tail = search(next, l, obs, rows, w);
        assert(search(stack, l, obs, rows, w) == kids + tail);
        lemma_end_place(stack, i, kids, tail);
    }
}

/// A node that is on the next stack or among the nodes made later was on
/// the stack before or is among the nodes made from there on.
proof fn lemma_end_place(stack: Seq<PathView>, i: int, kids: Seq<PathView>, tail: Seq<PathView>)
    requires
        0 <= i < stack.len(),
        tail.len() > 0,
        (stack.remove(i) + kids).contains(tail.last()) || tail.drop_last().contains(tail.last()),
    ensures
        (kids + tail).last() == tail.last(),
        stack.contains(tail.last()) || (kids + tail).drop_last().contains(tail.last()),
{
    let rest = stack.remove(i);
    let next = rest + kids;
    let whole = kids + tail;
    let end = tail.last();
    if next.contains(end) {
        let t = choose|t: int| 0 <= t < next.len() && next[t] == end;
        if t < rest.len() {
            if t < i {
                assert(stack[t] == end);
            } else {
                assert(stack[t + 1] == end);
            }
        } else {
            assert(whole.drop_last()[t - rest.len()] == end);
        }
    } else {
        let t = choose|t: int| 0 <= t < tail.drop_last().len() && tail.drop_last()[t] == end;
        assert(whole.drop_last()[kids.len() + t] == end);
    }
}

/// A whole path of the tree: as long as the tree is deep, binary, and zero
/// where the terminating zeros stand.
pub open spec fn whole_path(q: Seq<u8>, l: int, rows: Seq<Seq<u8>>) -> bool {
    &&& q.len() == l + memory(rows)
    &&& binary(q)
    &&& forall|t: int| 0 <= t && l <= t < q.len() ==> #[trigger] q[t] == 0
}

/// The stack holds one node alone, or no node of depth 0: the root, if it
/// is there, is there alone.
pub open spec fn below_root(stack: Seq<PathView>) -> bool {
    stack.len() == 1 || forall|t: int| 0 <= t < stack.len() ==> (#[trigger] stack[t]).path.len() >= 1
}

/// The stack holds the beginning of `q` at place `j`.
pub open spec fn holds_prefix(stack: Seq<PathView>, j: int, q: Seq<u8>) -> bool {
    &&& 0 <= j < stack.len()
    &&& stack[j].path.len() <= q.len()
    &&& stack[j].path == q.take(stack[j].path.len() as int)
}

/// No whole path whose beginning is on the stack beats the node at which the
/// search ends all the way: some beginning of it has a metric no greater
/// than the metric of that node. Where the stack holds no node of depth 0,
/// or such a node alone in a tree of some depth, that beginning is not the
/// empty one.
pub proof fn lemma_search_dominates(
    stack: Seq<PathView>,
    j: int,
    q: Seq<u8>,
    l: int,
    obs: Seq<u8>,
    rows: Seq<Seq<u8>>,
    w: FanoWeights,
) -> (k: int)
    requires
        0 <= l,
        0 <= memory(rows),
        all_on_tree(stack, l, obs, rows, w),
        whole_path(q, l, rows),
        holds_prefix(stack, j, q),
    ensures
        search(stack, l, obs, rows, w).len() > 0,
        0 <= k <= q.len(),
        path_metric(q.take(k), obs, rows, w) <= search(stack, l, obs, rows, w).last().mu,
        below_root(stack) && l + memory(rows) >= 1 ==> 1 <= k,
    decreases potential(stack, l, l + memory(rows)),
{
    let total = l + memory(rows);
    let i = best_index(stack);
    let best = stack[i];
    lemma_best_index(stack);
    assert(on_tree(best, l, obs, rows, w));
    assert(on_tree(stack[j], l, obs, rows, w));
    if best.path.len() >= total {
        stack[j].path.len() as int
    } else {
        let kids = children(best, l, obs, rows, w);
        let rest = stack.remove(i);
        let next = rest + kids;
        lemma_next_on_tree(stack, i, l, obs, rows, w);
        lemma_extension_lowers_potential(stack, i, l, total, obs, rows, w);
        let len = best.path.len() as int;
        let next_j: int = if i != j {
            if j < i {
                j
            } else {
                j - 1
            }
        } else if len < l && q[len] == 1 {
            rest.len() as int + 1
        } else {
            rest.len() as int
        };
        assert(holds_prefix(next, next_j, q)) by {
            if i == j {
                assert(q[len] <= 1);
                assert(next[next_j].path =~= q.take(len + 1));
            } else {
                assert(next[next_j] == stack[j]);
            }
        }
        assert(below_root(stack) ==> below_root(next)) by {
            if below_root(stack) {
                assert forall|t: int| 0 <= t < next.len() implies (#[trigger] next[t]).path.len()
                    >= 1 by {
                    if t < rest.len() {
                        if t < i {
                            assert(next[t] == stack[t]);
                        } else {
                            assert(next[t] == stack[t + 1]);
                        }
                    } else {
                        assert(next[t] == kids[t - rest.len()]);
                    }
                }
            }
        }
        let k = lemma_search_dominates(next, next_j, q, l, obs, rows, w);
        let tail = search(next, l, obs, rows, w);
        assert(search(stack, l, obs, rows, w) == kids + tail);
        assert((kids + tail).last() == tail.last());
        k
    }
}

/// What the decoder settles on, said without the search: the node at which
/// it ends is a whole path of the tree with the metric of that path, and
/// every whole path has a beginning whose metric is no greater; a beginning
/// of one step at least, where the tree has a step at all.
pub proof fn lemma_decoding_dominates(obs: Seq<u8>, rows: Seq<Seq<u8>>, w: FanoWeights, q: Seq<u8>)
    requires
        0 <= memory(rows),
        0 <= input_length(obs, rows),
        whole_path(q, input_length(obs, rows), rows),
    ensures
        decoding(obs, rows, w).len() > 0,
        whole_path(decoding(obs, rows, w).last().path, input_length(obs, rows), rows),
        decoding(obs, rows, w).last().mu == path_metric(
            decoding(obs, rows, w).last().path,
            obs,
            rows,
            w,
        ),
        exists|k: int|
            0 <= k <= q.len() && (q.len() >= 1 ==> 1 <= k) && path_metric(
                #[trigger] q.take(k),
                obs,
                rows,
                w,
            ) <= decoding(obs, rows, w).last().mu,
{
    let l = input_length(obs, rows);
    let stack = seq![root()];
    assert(root().path =~= q.take(0));
    assert(all_on_tree(stack, l, obs, rows, w));
    lemma_search_end(stack, l, obs, rows, w);
    let k = lemma_search_dominates(stack, 0, q, l, obs, rows, w);
    assert(path_metric(q.take(k), obs, rows, w) <= decoding(obs, rows, w).last().mu);
}

/// The node at which a search ends is in its record, where the tree has a
/// step at all, and its path is the decoded input with the terminating
/// zeros.
pub proof fn lemma_end_is_recorded(obs: Seq<u8>, rows: Seq<Seq<u8>>, w: FanoWeights)
    requires
        0 <= memory(rows),
        0 <= input_length(obs, rows),
    ensures
        decoding(obs, rows, w).len() > 0,
        decoding(obs, rows, w).last().path == terminated(decoded(obs, rows, w), memory(rows)),
        input_length(obs, rows) + memory(rows) >= 1 ==> decoding(
            obs,
            rows,
            w,
        ).drop_last().contains(decoding(obs, rows, w).last()),
{
    let l = input_length(obs, rows);
    let stack = seq![root()];
    assert(all_on_tree(stack, l, obs, rows, w));
    lemma_search_end(stack, l, obs, rows, w);
    let end = decoding(obs, rows, w).last();
    assert(end.path =~= terminated(end.path.take(l), memory(rows)));
    if l + memory(rows) >= 1 && stack.contains(end) {
        let t = choose|t: int| 0 <= t < stack.len() && stack[t] == end;
        assert(stack[t] == root());
    }
}

/// The place in the stack of the node to take next.
fn best(heap: &Vec<CodePath>) -> (i: usize)
    requires
        heap.len() > 0,
    ensures
        i == best_index(views(heap@)),
        i < heap.len(),
{
    let mut b: usize = 0;
    let mut j: usize = 1;
    let ghost stack = views(heap@);
    while j < heap.len()
        invariant
            1 <= j <= heap.len(),
            b < j,
            stack == views(heap@),
            b == best_index(stack.take(j as int)),
        decreases heap.len() - j,
    {
        assert(stack.take(j + 1).drop_last() =~= stack.take(j as int));
        if heap[j].mu > heap[b].mu {
            b = j;
        }
        j = j + 1;
    }
    assert(stack.take(j as int) =~= stack);
    b
}

/// Drops the `m` terminating zeros from the end of a decoded path.
pub fn remove_final_m(ys: Vec<u8>, m: usize) -> (xs: Vec<u8>)
    requires
        m <= ys.len(),
    ensures
        xs@ == ys@.take(ys.len() - m),
{
    let mut ys = ys;
    let n = ys.len() - m;
    ys.truncate(n);
    ys
}

/// Whether `path` is `xs` followed by `m` zeros.
fn is_terminated(path: &Vec<u8>, xs: &Vec<u8>, m: usize) -> (b: bool)
    ensures
        b == (path@ == terminated(xs@, m as int)),
{
    if path.len() < m || path.len() - m != xs.len() {
        return false;
    }
    let mut t: usize = 0;
    while t < path.len()
        invariant
            t <= path.len(),
            path.len() == xs.len() + m,
            path@.take(t as int) == terminated(xs@, m as int).take(t as int),
        decreases path.len() - t,
    {
        let want = if t < xs.len() {
            xs[t]
        } else {
            0
        };
        if path[t] != want {
            assert(path@[t as int] != terminated(xs@, m as int)[t as int]);
            return false;
        }
        assert(path@.take(t + 1) =~= terminated(xs@, m as int).take(t + 1));
        t = t + 1;
    }
    assert(path@.take(path.len() as int) =~= path@);
    assert(terminated(xs@, m as int).take(path.len() as int) =~= terminated(xs@, m as int));
    true
}

/// The place in a record of the node at which the search ended: the first
/// node whose path is the decoded input `xs` followed by the `m` terminating
/// zeros. The record of a search over a tree of some depth holds it.
pub fn end_node(paths: &Vec<CodePath>, xs: &Vec<u8>, m: usize) -> (at: Option<usize>)
    ensures
        match at {
            Some(i) => {
                &&& i < paths.len()
                &&& paths[i as int].path@ == terminated(xs@, m as int)
                &&& forall|j: int| 0 <= j < i ==> (#[trigger] paths[j]).path@ != terminated(xs@, m as int)
            },
            None => forall|j: int|
                0 <= j < paths.len() ==> (#[trigger] paths[j]).path@ != terminated(xs@, m as int),
        },
{
    let mut i: usize = 0;
    while i < paths.len()
        invariant
            i <= paths.len(),
            forall|j: int| 0 <= j < i ==> (#[trigger] paths[j]).path@ != terminated(xs@, m as int),
        decreases paths.len() - i,
    {
        if is_terminated(&paths[i].path, xs, m) {
            return Some(i);
        }
        i = i + 1;
    }
    None
}

/// Moves freshly made nodes onto the stack and notes each in the record.
fn push_all(extended: Vec<CodePath>, heap: &mut Vec<CodePath>, progress: &mut Vec<CodePath>)
    ensures
        views(final(heap)@) == views(old(heap)@) + views(extended@),
        views(final(progress)@) == views(old(progress)@) + views(extended@),
{
    let mut extended = extended;
    let ghost kids = views(extended@);
    let ghost mut done: int = 0;
    while extended.len() > 0
        invariant
            0 <= done <= kids.len(),
            extended.len() == kids.len() - done,
            views(extended@) == kids.skip(done),
            views(heap@) == views(old(heap)@) + kids.take(done),
            views(progress@) == views(old(progress)@) + kids.take(done),
        decreases extended.len(),
    {
        let ghost before = extended@;
        let ghost stacked = views(heap@);
        let ghost noted = views(progress@);
        let path = extended.remove(0);
        proof {
            assert(views(before)[0] == kids.skip(done)[0]);
            assert(path@ == kids[done]);
            assert forall|k: int| 0 <= k < extended@.len() implies #[trigger] views(extended@)[k]
                == kids.skip(done + 1)[k] by {
                assert(extended@[k] == before[k + 1]);
                assert(views(before)[k + 1] == kids.skip(done)[k + 1]);
            }
            assert(views(extended@) =~= kids.skip(done + 1));
        }
        progress.push(path.duplicate());
        heap.push(path);
        proof {
            assert(views(heap@) =~= stacked.push(kids[done]));
            assert(views(progress@) =~= noted.push(kids[done]));
            assert(kids.take(done + 1) =~= kids.take(done).push(kids[done]));
            assert(views(heap@) =~= views(old(heap)@) + kids.take(done + 1));
            assert(views(progress@) =~= views(old(progress)@) + kids.take(done + 1));
            done = done + 1;
        }
    }
    assert(kids.take(done) =~= kids);
}

/// Decodes with the stack algorithm and returns, with the decoded input, the
/// record of the search: every node that the search made, in the order of
/// its creation. The node at which the search ended is one of them, unless
/// the tree is the root alone; `end_node` finds it.
///
/// The search starts from the root alone. It takes the node of the greatest
/// metric off the stack, and among nodes of equal metric the one that
/// entered first. A node as deep as the tree ends the search; any other is
/// replaced by its children. Bits of `obs` beyond its last whole block are
/// not read.
pub fn decode_(obs: &Vec<u8>, gs: &Gens, w: &FanoWeights) -> (out: (Vec<u8>, Vec<CodePath>))
    requires
        gs.wf(),
        w.bounded(),
        obs.len() / gs.n >= gs.m,
    ensures
        views(out.1@) == decoding(obs@, gs@, *w).drop_last(),
        out.0@ == decoded(obs@, gs@, *w),
        out.0.len() == input_length(obs@, gs@),
        binary(out.0@),
        all_on_tree(views(out.1@), input_length(obs@, gs@), obs@, gs@, *w),
        obs.len() / gs.n >= 1 ==> views(out.1@).contains(decoding(obs@, gs@, *w).last()),
        decoding(obs@, gs@, *w).last().path == terminated(out.0@, gs.m as int),
{
    let mut heap: Vec<CodePath> = Vec::new();
    let l = obs.len() / gs.n - gs.m;
    let total = gs.m + l;
    let mut progress: Vec<CodePath> = Vec::new();
    heap.push(CodePath::root());
    proof {
        assert(views(heap@) =~= seq![root()]);
        assert(views(progress@) =~= Seq::<PathView>::empty());
        assert(views(progress@) + decoding(obs@, gs@, *w) =~= decoding(obs@, gs@, *w));
    }
    loop
        invariant
            gs.wf(),
            w.bounded(),
            l == input_length(obs@, gs@),
            total == l + gs.m,
            total == obs.len() / gs.n,
            heap.len() > 0,
            all_on_tree(views(heap@), l as int, obs@, gs@, *w),
            all_on_tree(views(progress@), l as int, obs@, gs@, *w),
            views(progress@) + search(views(heap@), l as int, obs@, gs@, *w) == decoding(
                obs@,
                gs@,
                *w,
            ),
        decreases potential(views(heap@), l as int, total as int),
    {
        let ghost stack = views(heap@);
        let ghost noted = views(progress@);
        let i = best(&heap);
        let best = heap.remove(i);
        assert(best@ == stack[i as int]);
        assert(views(heap@) =~= stack.remove(i as int));
        assert(on_tree(best@, l as int, obs@, gs@, *w));
        if best.path.len() >= total {
            proof {
                assert((noted + seq![best@]).drop_last() =~= noted);
                lemma_end_is_recorded(obs@, gs@, *w);
            }
            return (remove_final_m(best.path, gs.m), progress);
        }
        let ghost kids = children(best@, l as int, obs@, gs@, *w);
        proof {
            lemma_children_on_tree(best@, l as int, obs@, gs@, *w);
            lemma_extension_lowers_potential(stack, i as int, l as int, total as int, obs@, gs@, *w);
            let n = gs.n as int;
            let len = obs.len() as int;
            assert((len / n) * n <= len) by (nonlinear_arith)
                requires
                    n >= 1,
                    len >= 0,
            ;
            assert((best.path.len() + 1) * n <= (len / n) * n) by (nonlinear_arith)
                requires
                    best.path.len() + 1 <= len / n,
                    n >= 1,
            ;
            assert forall|t: int| 0 <= t < kids.len() implies i128::MIN <= (#[trigger] kids[t]).mu
                <= i128::MAX by {
                assert(on_tree(kids[t], l as int, obs@, gs@, *w));
                assert(kids[t].path.len() == best.path.len() + 1);
                lemma_metric_fits(kids[t], obs@, gs@, *w);
            }
        }
        let extended = best.extend(l, obs, gs, w);
        push_all(extended, &mut heap, &mut progress);
        proof {
            assert(views(heap@) == stack.remove(i as int) + kids);
            assert(views(progress@) + search(views(heap@), l as int, obs@, gs@, *w) =~= noted
                + search(stack, l as int, obs@, gs@, *w));
        }
    }
}

/// Decodes with the stack algorithm: the input that the search settles on,
/// without the terminating zeros.
pub fn decode(obs: &Vec<u8>, gs: &Gens, w: &FanoWeights) -> (xs: Vec<u8>)
    requires
        gs.wf(),
        w.bounded(),
        obs.len() / gs.n >= gs.m,
    ensures
        xs@ == decoded(obs@, gs@, *w),
        xs.len() == input_length(obs@, gs@),
        binary(xs@),
{
    decode_(obs, gs, w).0
}

} // verus!
